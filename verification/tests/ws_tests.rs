use wecom_aibot_rust_sdk::types::{SdkError, WSClientOptions, WsFrame, WsFrameHeaders};
use wecom_aibot_rust_sdk::utils::{append_decimal, generate_req_id, starts_with, text_eq};
use wecom_aibot_rust_sdk::ws::{
    reconnect_delay, FrameOutcome, HeartbeatOutcome, ReconnectDecision, WsConnectionManager,
    DEFAULT_WS_URL, MAX_RECONNECT_DELAY_MS, MAX_REPLY_QUEUE,
};

fn options() -> WSClientOptions {
    WSClientOptions::new("bot-1".to_string(), "s\"cret".to_string())
}

fn answer(req_id: &str, errcode: Option<i32>, errmsg: Option<&str>) -> WsFrame {
    WsFrame {
        cmd: None,
        headers: WsFrameHeaders::new(req_id.to_string()),
        body: None,
        errcode,
        errmsg: errmsg.map(|s| s.to_string()),
    }
}

fn internal_message(e: &SdkError) -> String {
    match e {
        SdkError::Internal(m) => m.clone(),
        _ => panic!("not an internal error"),
    }
}

#[test]
fn options_have_documented_defaults() {
    let o = WSClientOptions::new("a".to_string(), "b".to_string());
    assert_eq!(o.reconnect_interval, 1000);
    assert_eq!(o.max_reconnect_attempts, 10);
    assert_eq!(o.heartbeat_interval, 30000);
    assert_eq!(o.request_timeout, 10000);
    assert!(o.ws_url.is_none());
    let d = WSClientOptions::default();
    assert_eq!(d.bot_id, "");
    assert_eq!(d.heartbeat_interval, 30000);
}

#[test]
fn new_manager_is_not_connected() {
    let m = WsConnectionManager::new(options());
    assert!(!m.is_connected());
    assert!(matches!(m.check_link(), Err(SdkError::WebSocket(ref s)) if s == "WebSocket not connected"));
}

#[test]
fn connect_goes_to_default_or_custom_address() {
    let mut m = WsConnectionManager::new(options());
    assert_eq!(m.begin_connect(), DEFAULT_WS_URL);
    assert_eq!(DEFAULT_WS_URL, "wss://openws.work.weixin.qq.com");
    let mut o = options();
    o.ws_url = Some("ws://127.0.0.1:9000".to_string());
    let mut m2 = WsConnectionManager::new(o);
    assert_eq!(m2.begin_connect(), "ws://127.0.0.1:9000");
}

#[test]
fn link_up_is_not_yet_authenticated() {
    let mut m = WsConnectionManager::new(options());
    m.on_connected();
    assert!(!m.is_connected());
    assert!(m.check_link().is_ok());
}

#[test]
fn auth_frame_carries_credentials() {
    let m = WsConnectionManager::new(options());
    let f = m.auth_frame(1700000000123, 0xdeadbeef);
    assert_eq!(f.cmd.as_deref(), Some("aibot_subscribe"));
    assert_eq!(f.headers.req_id, "aibot_subscribe_1700000000123_deadbeef");
    assert_eq!(f.body.as_deref(), Some("{\"bot_id\":\"bot-1\",\"secret\":\"s\\\"cret\"}"));
    let parsed: serde_json::Value = serde_json::from_str(f.body.as_deref().unwrap()).unwrap();
    assert_eq!(parsed["bot_id"], "bot-1");
    assert_eq!(parsed["secret"], "s\"cret");
    assert!(f.errcode.is_none() && f.errmsg.is_none());
}

#[test]
fn successful_auth_answer_connects() {
    let mut m = WsConnectionManager::new(options());
    m.on_connected();
    let f = m.auth_frame(1, 2);
    let out = m.handle_frame(&answer(&f.headers.req_id, Some(0), None));
    assert!(matches!(out, FrameOutcome::Authenticated));
    assert!(m.is_connected());
}

#[test]
fn refused_auth_answer_changes_nothing() {
    let mut m = WsConnectionManager::new(options());
    m.on_connected();
    let out = m.handle_frame(&answer("aibot_subscribe_1_2", Some(40001), Some("invalid secret")));
    match out {
        FrameOutcome::AuthFailed { errcode, errmsg } => {
            assert_eq!(errcode, 40001);
            assert_eq!(errmsg, "invalid secret");
        }
        _ => panic!("expected a refusal"),
    }
    assert!(!m.is_connected());
    let out = m.handle_frame(&answer("aibot_subscribe_1_2", None, None));
    match out {
        FrameOutcome::AuthFailed { errcode, errmsg } => {
            assert_eq!(errcode, -1);
            assert_eq!(errmsg, "unknown");
        }
        _ => panic!("expected a refusal"),
    }
}

#[test]
fn two_unanswered_heartbeats_are_fatal() {
    let mut m = WsConnectionManager::new(options());
    m.on_connected();
    match m.heartbeat_tick(1700000000000, 0x1f) {
        HeartbeatOutcome::Send(f) => {
            assert_eq!(f.cmd.as_deref(), Some("ping"));
            assert_eq!(f.headers.req_id, "ping_1700000000000_0000001f");
            assert!(f.body.is_none());
        }
        HeartbeatOutcome::Dead { .. } => panic!("first tick must send"),
    }
    assert!(matches!(m.heartbeat_tick(5, 6), HeartbeatOutcome::Dead { missed: 2 }));
}

#[test]
fn acknowledged_heartbeat_keeps_connection_alive() {
    let mut m = WsConnectionManager::new(options());
    m.on_connected();
    let id = match m.heartbeat_tick(10, 11) {
        HeartbeatOutcome::Send(f) => f.headers.req_id,
        _ => panic!("first tick must send"),
    };
    assert!(matches!(m.handle_frame(&answer(&id, Some(0), None)), FrameOutcome::HeartbeatAck));
    assert!(matches!(m.heartbeat_tick(12, 13), HeartbeatOutcome::Send(_)));
}

#[test]
fn heartbeat_ack_error_keeps_count() {
    let mut m = WsConnectionManager::new(options());
    let id = match m.heartbeat_tick(10, 11) {
        HeartbeatOutcome::Send(f) => f.headers.req_id,
        _ => panic!("first tick must send"),
    };
    match m.handle_frame(&answer(&id, Some(500), Some("busy"))) {
        FrameOutcome::HeartbeatAckError { errcode, errmsg } => {
            assert_eq!(errcode, 500);
            assert_eq!(errmsg, "busy");
        }
        _ => panic!("expected an ack error"),
    }
    assert!(matches!(m.heartbeat_tick(12, 13), HeartbeatOutcome::Dead { missed: 2 }));
}

#[test]
fn pushed_frames_and_unknown_frames() {
    let mut m = WsConnectionManager::new(options());
    let mut f = answer("aibot_subscribe_x", Some(0), None);
    f.cmd = Some("aibot_msg_callback".to_string());
    assert!(matches!(m.handle_frame(&f), FrameOutcome::PushMessage));
    f.cmd = Some("aibot_event_callback".to_string());
    assert!(matches!(m.handle_frame(&f), FrameOutcome::PushMessage));
    assert!(!m.is_connected());
    assert!(matches!(m.handle_frame(&answer("other_1", Some(0), None)), FrameOutcome::Unknown));
}

#[test]
fn first_reply_starts_processing_and_later_ones_wait() {
    let mut m = WsConnectionManager::new(options());
    assert_eq!(m.enqueue_reply("r1", "{\"a\":1}".to_string(), "aibot_respond_msg").ok(), Some(true));
    assert_eq!(m.enqueue_reply("r1", "{\"a\":2}".to_string(), "aibot_respond_msg").ok(), Some(false));
    assert_eq!(m.enqueue_reply("r2", "{}".to_string(), "aibot_respond_msg").ok(), Some(true));
}

#[test]
fn full_queue_refuses_replies() {
    let mut m = WsConnectionManager::new(options());
    for i in 0..MAX_REPLY_QUEUE {
        assert!(m.enqueue_reply("r1", format!("{}", i), "aibot_respond_msg").is_ok());
    }
    let e = m.enqueue_reply("r1", "x".to_string(), "aibot_respond_msg").err().unwrap();
    assert_eq!(internal_message(&e), "Reply queue for reqId r1 exceeds max size (100)");
    assert_eq!(e.message(), "Reply queue for reqId r1 exceeds max size (100)");
    assert!(m.enqueue_reply("r2", "x".to_string(), "aibot_respond_msg").is_ok());
}

#[test]
fn replies_go_out_in_order_each_once() {
    let mut m = WsConnectionManager::new(options());
    m.on_connected();
    assert_eq!(m.enqueue_reply("r1", "{\"n\":1}".to_string(), "aibot_respond_msg").ok(), Some(true));
    m.enqueue_reply("r1", "{\"n\":2}".to_string(), "aibot_respond_msg").unwrap();
    m.enqueue_reply("r1", "{\"n\":3}".to_string(), "aibot_respond_msg").unwrap();
    let (f, len) = m.process_next("r1").unwrap();
    assert_eq!(len, 3);
    assert_eq!(f.body.as_deref(), Some("{\"n\":1}"));
    assert_eq!(f.cmd.as_deref(), Some("aibot_respond_msg"));
    assert_eq!(f.headers.req_id, "r1");
    m.process_sent("r1");
    match m.handle_frame(&answer("r1", Some(0), None)) {
        FrameOutcome::ReplyAck { result } => assert!(result.is_ok()),
        _ => panic!("expected an acknowledgement"),
    }
    assert_eq!(m.process_settled("r1"), (true, 1));
    let (f, len) = m.process_next("r1").unwrap();
    assert_eq!(len, 2);
    assert_eq!(f.body.as_deref(), Some("{\"n\":2}"));
    m.process_sent("r1");
    // no acknowledgement: the wait times out
    assert_eq!(m.process_settled("r1"), (true, 1));
    let (f, len) = m.process_next("r1").unwrap();
    assert_eq!(len, 1);
    assert_eq!(f.body.as_deref(), Some("{\"n\":3}"));
    m.process_sent("r1");
    assert_eq!(m.process_settled("r1"), (false, 1));
    assert!(m.process_next("r1").is_none());
    assert_eq!(m.enqueue_reply("r1", "{}".to_string(), "aibot_respond_msg").ok(), Some(true));
}

#[test]
fn reply_queued_during_the_wait_is_kept() {
    let mut m = WsConnectionManager::new(options());
    assert_eq!(m.enqueue_reply("r1", "1".to_string(), "c").ok(), Some(true));
    let (_, len) = m.process_next("r1").unwrap();
    assert_eq!(len, 1);
    m.process_sent("r1");
    // a second reply arrives while the first awaits its acknowledgement
    assert_eq!(m.enqueue_reply("r1", "2".to_string(), "c").ok(), Some(false));
    assert_eq!(m.process_settled("r1"), (true, 1));
    let (f, len) = m.process_next("r1").unwrap();
    assert_eq!(len, 1);
    assert_eq!(f.body.as_deref(), Some("2"));
}

#[test]
fn refused_acknowledgement_reports_error() {
    let mut m = WsConnectionManager::new(options());
    m.enqueue_reply("r9", "{}".to_string(), "aibot_respond_msg").unwrap();
    let _ = m.process_next("r9").unwrap();
    m.process_sent("r9");
    match m.handle_frame(&answer("r9", Some(-7), Some("bad"))) {
        FrameOutcome::ReplyAck { result } => {
            let e = result.err().unwrap();
            assert_eq!(internal_message(&e), "Reply ack error: errcode=-7, errmsg=bad");
        }
        _ => panic!("expected an acknowledgement"),
    }
    match m.handle_frame(&answer("r9", Some(0), None)) {
        FrameOutcome::Unknown => {}
        _ => panic!("a settled id is no longer pending"),
    }
    assert_eq!(m.process_settled("r9"), (false, 1));
}

#[test]
fn failed_send_drops_whole_queue() {
    let mut m = WsConnectionManager::new(options());
    m.enqueue_reply("r1", "1".to_string(), "c").unwrap();
    m.enqueue_reply("r1", "2".to_string(), "c").unwrap();
    assert_eq!(m.process_send_failed("r1"), 2);
    assert!(m.process_next("r1").is_none());
}

#[test]
fn disconnect_closes_the_connection() {
    let mut m = WsConnectionManager::new(options());
    m.on_connected();
    let f = m.auth_frame(1, 2);
    m.handle_frame(&answer(&f.headers.req_id, Some(0), None));
    assert!(m.is_connected());
    m.disconnect();
    assert!(!m.is_connected());
    assert!(m.check_link().is_err());
    assert_eq!(m.on_link_lost(), ReconnectDecision::Stop);
}

#[test]
fn lost_link_reports_disconnected_and_backs_off() {
    let mut o = options();
    o.reconnect_interval = 1000;
    o.max_reconnect_attempts = 7;
    let mut m = WsConnectionManager::new(o);
    m.on_connected();
    let f = m.auth_frame(1, 2);
    m.handle_frame(&answer(&f.headers.req_id, Some(0), None));
    let mut delays = Vec::new();
    loop {
        match m.on_link_lost() {
            ReconnectDecision::Retry { attempt, delay_ms } => {
                assert!(!m.is_connected());
                assert_eq!(attempt, delays.len() + 1);
                delays.push(delay_ms);
            }
            ReconnectDecision::GiveUp => break,
            ReconnectDecision::Stop => panic!("not closed on purpose"),
        }
    }
    assert_eq!(delays, vec![1000, 2000, 4000, 8000, 16000, 30000, 30000]);
}

#[test]
fn successful_connect_resets_attempts() {
    let mut o = options();
    o.max_reconnect_attempts = 1;
    let mut m = WsConnectionManager::new(o);
    assert!(matches!(m.on_link_lost(), ReconnectDecision::Retry { attempt: 1, delay_ms: 1000 }));
    assert_eq!(m.on_link_lost(), ReconnectDecision::GiveUp);
    m.on_connected();
    assert!(matches!(m.on_link_lost(), ReconnectDecision::Retry { attempt: 1, .. }));
}

#[test]
fn unlimited_reconnects_when_limit_is_minus_one() {
    let mut o = options();
    o.max_reconnect_attempts = -1;
    let mut m = WsConnectionManager::new(o);
    for i in 1..=40usize {
        match m.on_link_lost() {
            ReconnectDecision::Retry { attempt, delay_ms } => {
                assert_eq!(attempt, i);
                assert!(delay_ms <= MAX_RECONNECT_DELAY_MS);
            }
            _ => panic!("reconnects are unlimited"),
        }
    }
}

#[test]
fn reconnect_delay_values() {
    assert_eq!(reconnect_delay(1000, 1), 1000);
    assert_eq!(reconnect_delay(1000, 5), 16000);
    assert_eq!(reconnect_delay(1000, 6), 30000);
    assert_eq!(reconnect_delay(1000, usize::MAX), 30000);
    assert_eq!(reconnect_delay(0, 10), 0);
    assert_eq!(reconnect_delay(50000, 1), 30000);
    assert_eq!(reconnect_delay(u64::MAX, 3), 30000);
    assert_eq!(reconnect_delay(1000, 0), 1000);
}

#[test]
fn auth_body_escapes_control_characters() {
    let o = WSClientOptions::new("b\\x".to_string(), "a\u{1}\n\t\u{1f}\u{7f}é".to_string());
    let m = WsConnectionManager::new(o);
    let f = m.auth_frame(1, 2);
    assert_eq!(
        f.body.as_deref(),
        Some("{\"bot_id\":\"b\\\\x\",\"secret\":\"a\\u0001\\n\\t\\u001f\u{7f}é\"}")
    );
}

#[test]
fn request_ids_have_prefix_time_and_random_part() {
    assert_eq!(generate_req_id("stream", 1700000000000, 0xab), "stream_1700000000000_000000ab");
    assert_eq!(generate_req_id("", 0, 0), "_0_00000000");
    assert!(starts_with(&generate_req_id("ping", 7, 8), "ping"));
    assert!(!starts_with("pin", "ping"));
    assert!(text_eq("ab", "ab"));
    assert!(!text_eq("ab", "abc"));
}

#[test]
fn decimal_text_of_extremes() {
    let mut s = String::from("x=");
    append_decimal(&mut s, i64::MIN);
    assert_eq!(s, "x=-9223372036854775808");
    let mut s = String::new();
    append_decimal(&mut s, 0);
    assert_eq!(s, "0");
    let mut s = String::new();
    append_decimal(&mut s, 40001);
    assert_eq!(s, "40001");
}
