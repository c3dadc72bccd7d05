//! The decisions of the long-lived WebSocket connection: connection state,
//! authentication, heartbeat, reconnect with exponential back-off, frame dispatch
//! and the serial reply queues.
//!
//! Every operation is a step from one state to the next, with what the caller has
//! to do; the network, the timers and the waiting callers live outside. Each step
//! is stated over [`ManagerView`] by a spec function, and the laws of the
//! connection are proved over those functions.
use vstd::prelude::*;
use crate::reqset::{queue_of, ReplyQueues, ReqIdSet};
use crate::types::{opt_str_view, SdkError, SdkErrorView, WSClientOptions, WsCmd, WsFrame, WsFrameHeaders, WsFrameView};
use crate::utils::{append_decimal, decimal_text, generate_req_id, has_prefix, hex_digit_char, req_id_text, starts_with, text_eq};

verus! {

/// The built-in WebSocket address.
pub const DEFAULT_WS_URL: &'static str = "wss://openws.work.weixin.qq.com";

/// The most frames that may wait in the reply queue of one request id.
pub const MAX_REPLY_QUEUE: usize = 100;

/// How long a sent reply waits for its acknowledgement, in milliseconds.
pub const REPLY_ACK_TIMEOUT_MS: u64 = 5000;

/// Consecutive unanswered heartbeats after which the connection counts as dead.
pub const MAX_MISSED_PONG: usize = 2;

/// The state of the connection.
#[derive(Clone, Copy, PartialEq, Eq, Structural, Debug)]
pub enum ConnectionState {
    Disconnected,
    Connecting,
    Connected,
    Authenticated,
}

/// The mathematical value of a connection manager.
#[verifier::ext_equal]
pub struct ManagerView {
    pub bot_id: Seq<char>,
    pub secret: Seq<char>,
    pub ws_url: Option<Seq<char>>,
    pub heartbeat_interval: u64,
    pub reconnect_interval: u64,
    pub max_reconnect_attempts: i32,
    pub request_timeout: u64,
    pub state: ConnectionState,
    pub reconnect_attempts: usize,
    pub manual_close: bool,
    /// A link to the server has been set up, so frames can be handed to it.
    pub link_open: bool,
    pub missed_pong: usize,
    pub max_missed_pong: usize,
    /// The frames waiting to be sent, per request id, oldest first.
    pub queues: Map<Seq<char>, Seq<WsFrameView>>,
    /// The request ids whose sent reply awaits its acknowledgement.
    pub pending: Set<Seq<char>>,
    /// The request ids whose queue is being worked through.
    pub processing: Set<Seq<char>>,
}

/// What holds of every manager: every reply queue holds at least one and at most
/// [`MAX_REPLY_QUEUE`] replies; a queue is being worked through exactly where one
/// exists; and the heartbeat tolerance is the fixed one.
pub open spec fn manager_inv(m: ManagerView) -> bool {
    &&& forall|k: Seq<char>| #[trigger] m.queues.contains_key(k) ==> 0 < m.queues[k].len() <= MAX_REPLY_QUEUE
    &&& forall|k: Seq<char>| #[trigger] m.processing.contains(k) <==> m.queues.contains_key(k)
    &&& m.max_missed_pong == MAX_MISSED_PONG
}

/// The manager is authenticated.
pub open spec fn connected(m: ManagerView) -> bool {
    m.state == ConnectionState::Authenticated
}

/// The manager that `new` makes from the options: every option kept, disconnected,
/// with nothing queued.
pub open spec fn initial_manager(o: WSClientOptions) -> ManagerView {
    ManagerView {
        bot_id: o.bot_id@,
        secret: o.secret@,
        ws_url: opt_str_view(o.ws_url),
        heartbeat_interval: o.heartbeat_interval,
        reconnect_interval: o.reconnect_interval,
        max_reconnect_attempts: o.max_reconnect_attempts,
        request_timeout: o.request_timeout,
        state: ConnectionState::Disconnected,
        reconnect_attempts: 0,
        manual_close: false,
        link_open: false,
        missed_pong: 0,
        max_missed_pong: MAX_MISSED_PONG,
        queues: Map::empty(),
        pending: Set::empty(),
        processing: Set::empty(),
    }
}

/// The address that connecting goes to.
pub open spec fn target_url(m: ManagerView) -> Seq<char> {
    match m.ws_url {
        Some(u) => u,
        None => DEFAULT_WS_URL@,
    }
}

/// How one character is written inside a JSON string literal: `"` and `\` are
/// escaped with a backslash; backspace, tab, line feed, form feed and carriage
/// return as `\b`, `\t`, `\n`, `\f`, `\r`; other characters below U+0020 as
/// `\u00xx` with lower-case hexadecimal digits; every other character as itself.
pub open spec fn json_escaped_char(c: char) -> Seq<char> {
    let u = c as u32;
    if c == '"' {
        seq!['\\', '"']
    } else if c == '\\' {
        seq!['\\', '\\']
    } else if u == 8 {
        seq!['\\', 'b']
    } else if u == 9 {
        seq!['\\', 't']
    } else if u == 10 {
        seq!['\\', 'n']
    } else if u == 12 {
        seq!['\\', 'f']
    } else if u == 13 {
        seq!['\\', 'r']
    } else if u < 0x20 {
        seq!['\\', 'u', '0', '0', hex_digit_char((u / 16) as nat), hex_digit_char((u % 16) as nat)]
    } else {
        seq![c]
    }
}

/// The characters of a text as written inside a JSON string literal.
pub open spec fn json_escaped(s: Seq<char>) -> Seq<char>
    decreases s.len(),
{
    if s.len() == 0 {
        Seq::empty()
    } else {
        json_escaped(s.drop_last()) + json_escaped_char(s.last())
    }
}

/// The JSON string literal of a text: the escaped characters between quotes.
pub open spec fn json_quoted(s: Seq<char>) -> Seq<char> {
    seq!['"'] + json_escaped(s) + seq!['"']
}

/// The value of a hexadecimal digit character, either case.
pub open spec fn hex_digit_value(c: char) -> Option<nat> {
    let u = c as u32;
    if 48 <= u <= 57 {
        Some((u - 48) as nat)
    } else if 97 <= u <= 102 {
        Some((u - 87) as nat)
    } else if 65 <= u <= 70 {
        Some((u - 55) as nat)
    } else {
        None
    }
}

/// The character that a two-character JSON escape `\e` stands for.
pub open spec fn json_short_escape(e: char) -> Option<char> {
    if e == '"' {
        Some('"')
    } else if e == '\\' {
        Some('\\')
    } else if e == '/' {
        Some('/')
    } else if e == 'b' {
        Some(8u32 as char)
    } else if e == 't' {
        Some(9u32 as char)
    } else if e == 'n' {
        Some(10u32 as char)
    } else if e == 'f' {
        Some(12u32 as char)
    } else if e == 'r' {
        Some(13u32 as char)
    } else {
        None
    }
}

/// Reading the inside of a JSON string literal back: `\e` escapes and `\uXXXX`
/// escapes stand for the characters they name; every other character for itself.
pub open spec fn json_unescape(t: Seq<char>) -> Seq<char>
    decreases t.len(),
{
    if t.len() == 0 {
        Seq::empty()
    } else if t[0] == '\\' && t.len() >= 2 && json_short_escape(t[1]) is Some {
        seq![json_short_escape(t[1])->0] + json_unescape(t.subrange(2, t.len() as int))
    } else if t[0] == '\\' && t.len() >= 6 && t[1] == 'u' && hex_digit_value(t[2]) is Some
        && hex_digit_value(t[3]) is Some && hex_digit_value(t[4]) is Some && hex_digit_value(t[5]) is Some {
        seq![
            ((hex_digit_value(t[2])->0 * 4096 + hex_digit_value(t[3])->0 * 256 + hex_digit_value(t[4])->0 * 16
                + hex_digit_value(t[5])->0) as u32) as char,
        ] + json_unescape(t.subrange(6, t.len() as int))
    } else {
        seq![t[0]] + json_unescape(t.subrange(1, t.len() as int))
    }
}

proof fn lemma_escaped_append(a: Seq<char>, b: Seq<char>)
    ensures
        json_escaped(a + b) == json_escaped(a) + json_escaped(b),
    decreases b.len(),
{
    if b.len() == 0 {
        assert(a + b =~= a);
        assert(json_escaped(a) + json_escaped(b) =~= json_escaped(a));
    } else {
        assert((a + b).drop_last() =~= a + b.drop_last());
        assert((a + b).last() == b.last());
        lemma_escaped_append(a, b.drop_last());
        assert(json_escaped(a + b) =~= json_escaped(a) + json_escaped(b));
    }
}

proof fn lemma_hex_digit_round_trip(d: nat)
    requires
        d < 16,
    ensures
        hex_digit_value(hex_digit_char(d)) == Some(d),
{
}

proof fn lemma_unescape_char(c: char, rest: Seq<char>)
    ensures
        json_unescape(json_escaped_char(c) + rest) == seq![c] + json_unescape(rest),
{
    broadcast use vstd::utf8::char_u32_cast;

    let t = json_escaped_char(c) + rest;
    let u = c as u32;
    if c == '"' || c == '\\' || u == 8 || u == 9 || u == 10 || u == 12 || u == 13 {
        assert(t.subrange(2, t.len() as int) =~= rest);
        assert(json_short_escape(t[1])->0 == c);
    } else if u < 0x20 {
        lemma_hex_digit_round_trip((u / 16) as nat);
        lemma_hex_digit_round_trip((u % 16) as nat);
        assert(t[1] == 'u');
        assert(json_short_escape(t[1]) is None);
        assert(hex_digit_value(t[2]) == Some(0nat));
        assert(hex_digit_value(t[3]) == Some(0nat));
        assert(t.subrange(6, t.len() as int) =~= rest);
        assert((0nat * 4096 + 0nat * 256 + (u / 16) as nat * 16 + (u % 16) as nat) == u);
    } else {
        assert(t[0] == c);
        assert(t.subrange(1, t.len() as int) =~= rest);
    }
}

/// The escaping loses nothing: reading the inside of a JSON string literal back
/// gives exactly the text that was written, whatever its length and characters.
pub proof fn lemma_json_quoted_round_trip(s: Seq<char>)
    ensures
        json_quoted(s).len() >= s.len() + 2,
        json_quoted(s)[0] == '"',
        json_quoted(s).last() == '"',
        json_unescape(json_quoted(s).subrange(1, json_quoted(s).len() - 1)) == s,
    decreases s.len(),
{
    let q = json_quoted(s);
    assert(q.subrange(1, q.len() - 1) =~= json_escaped(s));
    lemma_escaped_round_trip(s);
}

proof fn lemma_escaped_round_trip(s: Seq<char>)
    ensures
        json_unescape(json_escaped(s)) == s,
        json_escaped(s).len() >= s.len(),
    decreases s.len(),
{
    if s.len() > 0 {
        let rest = s.drop_first();
        assert(seq![s[0]] + rest =~= s);
        lemma_escaped_append(seq![s[0]], rest);
        assert(seq![s[0]].drop_last() =~= Seq::<char>::empty());
        assert(seq![s[0]].last() == s[0]);
        assert(json_escaped(Seq::<char>::empty()) == Seq::<char>::empty());
        assert(json_escaped(seq![s[0]]) == json_escaped(Seq::<char>::empty()) + json_escaped_char(s[0]));
        assert(json_escaped(seq![s[0]]) =~= json_escaped_char(s[0]));
        lemma_escaped_round_trip(rest);
        lemma_unescape_char(s[0], json_escaped(rest));
        assert(json_escaped_char(s[0]).len() >= 1);
    }
}

/// The JSON text of the authentication body: `{"bot_id":..,"secret":..}`.
pub open spec fn auth_body_text(bot_id: Seq<char>, secret: Seq<char>) -> Seq<char> {
    "{\"bot_id\":"@ + json_quoted(bot_id) + ",\"secret\":"@ + json_quoted(secret) + "}"@
}

/// The authentication frame: command `aibot_subscribe`, the given request id and
/// the credentials as body.
pub open spec fn auth_frame_view(m: ManagerView, req_id: Seq<char>) -> WsFrameView {
    WsFrameView {
        cmd: Some(WsCmd::SUBSCRIBE@),
        req_id,
        body: Some(auth_body_text(m.bot_id, m.secret)),
        errcode: None,
        errmsg: None,
    }
}

/// The heartbeat frame with the given request id.
pub open spec fn heartbeat_frame_view(req_id: Seq<char>) -> WsFrameView {
    WsFrameView { cmd: Some(WsCmd::HEARTBEAT@), req_id, body: None, errcode: None, errmsg: None }
}

/// The frame of a reply: the command, the request id of the message replied to,
/// and the body.
pub open spec fn reply_frame_view(req_id: Seq<char>, body: Seq<char>, cmd: Seq<char>) -> WsFrameView {
    WsFrameView { cmd: Some(cmd), req_id, body: Some(body), errcode: None, errmsg: None }
}

/// What a heartbeat tick asks for.
#[derive(Debug)]
pub enum HeartbeatOutcome {
    /// Too many heartbeats went unanswered: the connection counts as dead.
    Dead { missed: usize },
    /// Send this heartbeat frame.
    Send(WsFrame),
}

pub enum HeartbeatOutcomeView {
    Dead { missed: usize },
    Send(WsFrameView),
}

impl View for HeartbeatOutcome {
    type V = HeartbeatOutcomeView;

    open spec fn view(&self) -> HeartbeatOutcomeView {
        match self {
            HeartbeatOutcome::Dead { missed } => HeartbeatOutcomeView::Dead { missed: *missed },
            HeartbeatOutcome::Send(f) => HeartbeatOutcomeView::Send(f@),
        }
    }
}

/// A heartbeat tick: the missed count goes up by one (wrapping, as an atomic
/// counter does); at the tolerance the connection is dead, below it a heartbeat
/// is sent.
pub open spec fn tick_step(m: ManagerView, req_id: Seq<char>) -> (ManagerView, HeartbeatOutcomeView) {
    let count: usize = if m.missed_pong == usize::MAX { 0 } else { (m.missed_pong + 1) as usize };
    let m2 = ManagerView { missed_pong: count, ..m };
    if count >= m.max_missed_pong {
        (m2, HeartbeatOutcomeView::Dead { missed: count })
    } else {
        (m2, HeartbeatOutcomeView::Send(heartbeat_frame_view(req_id)))
    }
}

/// What a received frame means for the caller.
#[derive(Debug)]
pub enum FrameOutcome {
    /// A message or event pushed by the server.
    PushMessage,
    /// The acknowledgement of a sent reply: what to hand to the reply that awaits it.
    ReplyAck { result: Result<(), SdkError> },
    /// The authentication succeeded.
    Authenticated,
    /// The authentication was refused.
    AuthFailed { errcode: i32, errmsg: String },
    /// A heartbeat was acknowledged.
    HeartbeatAck,
    /// A heartbeat acknowledgement carried an error.
    HeartbeatAckError { errcode: i32, errmsg: String },
    /// A frame of no known kind.
    Unknown,
}

pub enum FrameOutcomeView {
    PushMessage,
    ReplyAck { result: Result<(), SdkErrorView> },
    Authenticated,
    AuthFailed { errcode: i32, errmsg: Seq<char> },
    HeartbeatAck,
    HeartbeatAckError { errcode: i32, errmsg: Seq<char> },
    Unknown,
}

impl View for FrameOutcome {
    type V = FrameOutcomeView;

    open spec fn view(&self) -> FrameOutcomeView {
        match self {
            FrameOutcome::PushMessage => FrameOutcomeView::PushMessage,
            FrameOutcome::ReplyAck { result } => FrameOutcomeView::ReplyAck {
                result: match result {
                    Ok(()) => Ok(()),
                    Err(e) => Err(e@),
                },
            },
            FrameOutcome::Authenticated => FrameOutcomeView::Authenticated,
            FrameOutcome::AuthFailed { errcode, errmsg } => FrameOutcomeView::AuthFailed {
                errcode: *errcode,
                errmsg: errmsg@,
            },
            FrameOutcome::HeartbeatAck => FrameOutcomeView::HeartbeatAck,
            FrameOutcome::HeartbeatAckError { errcode, errmsg } => FrameOutcomeView::HeartbeatAckError {
                errcode: *errcode,
                errmsg: errmsg@,
            },
            FrameOutcome::Unknown => FrameOutcomeView::Unknown,
        }
    }
}

/// The command of a frame pushed by the server.
pub open spec fn is_push_cmd(cmd: Option<Seq<char>>) -> bool {
    cmd == Some(WsCmd::CALLBACK@) || cmd == Some(WsCmd::EVENT_CALLBACK@)
}

/// The error code of a frame, `-1` where it carries none.
pub open spec fn errcode_or_default(f: WsFrameView) -> i32 {
    match f.errcode {
        Some(c) => c,
        None => -1i32,
    }
}

/// The error message of a frame, `unknown` where it carries none.
pub open spec fn errmsg_or_unknown(f: WsFrameView) -> Seq<char> {
    match f.errmsg {
        Some(m) => m,
        None => "unknown"@,
    }
}

/// The message of a refused reply acknowledgement.
pub open spec fn ack_error_text(errcode: i32, errmsg: Seq<char>) -> Seq<char> {
    "Reply ack error: errcode="@ + decimal_text(errcode as int) + ", errmsg="@ + errmsg
}

/// The handling of one received frame. The acknowledgement of a sent reply only
/// settles the wait for it: the reply leaves its queue when the wait ends
/// ([`settled_step`]), never here.
pub open spec fn frame_step(m: ManagerView, f: WsFrameView) -> (ManagerView, FrameOutcomeView) {
    if is_push_cmd(f.cmd) {
        (m, FrameOutcomeView::PushMessage)
    } else if m.pending.contains(f.req_id) {
        let m2 = ManagerView { pending: m.pending.remove(f.req_id), ..m };
        let result = if errcode_or_default(f) != 0 {
            Err(SdkErrorView::Internal(ack_error_text(errcode_or_default(f), errmsg_or_unknown(f))))
        } else {
            Ok(())
        };
        (m2, FrameOutcomeView::ReplyAck { result })
    } else if has_prefix(f.req_id, WsCmd::SUBSCRIBE@) {
        if errcode_or_default(f) != 0 {
            (m, FrameOutcomeView::AuthFailed { errcode: errcode_or_default(f), errmsg: errmsg_or_unknown(f) })
        } else {
            (ManagerView { state: ConnectionState::Authenticated, missed_pong: 0, ..m }, FrameOutcomeView::Authenticated)
        }
    } else if has_prefix(f.req_id, WsCmd::HEARTBEAT@) {
        if errcode_or_default(f) != 0 {
            (m, FrameOutcomeView::HeartbeatAckError { errcode: errcode_or_default(f), errmsg: errmsg_or_unknown(f) })
        } else {
            (ManagerView { missed_pong: 0, ..m }, FrameOutcomeView::HeartbeatAck)
        }
    } else {
        (m, FrameOutcomeView::Unknown)
    }
}

/// The message of a refused enqueue.
pub open spec fn queue_full_text(req_id: Seq<char>) -> Seq<char> {
    "Reply queue for reqId "@ + req_id + " exceeds max size (100)"@
}

/// Queuing a reply: refused, with nothing changed, where the queue of the request id
/// is full; otherwise the frame joins the back of the queue. Where there was no
/// queue, the work on the new one begins here, and the caller is to start it
/// (`Ok(true)`).
pub open spec fn enqueue_step(m: ManagerView, req_id: Seq<char>, f: WsFrameView) -> (ManagerView, Result<bool, SdkErrorView>) {
    let q = queue_of(m.queues, req_id);
    if q.len() >= MAX_REPLY_QUEUE {
        (m, Err(SdkErrorView::Internal(queue_full_text(req_id))))
    } else {
        let processing = if q.len() == 0 { m.processing.insert(req_id) } else { m.processing };
        (ManagerView { queues: m.queues.insert(req_id, q.push(f)), processing, ..m }, Ok(q.len() == 0))
    }
}

/// The next reply to send for `k` and the queue's length; where the queue is empty
/// it is dropped and the work on it ends.
pub open spec fn next_step(m: ManagerView, k: Seq<char>) -> (ManagerView, Option<(WsFrameView, nat)>) {
    let q = queue_of(m.queues, k);
    if q.len() == 0 {
        (ManagerView { queues: m.queues.remove(k), processing: m.processing.remove(k), ..m }, None)
    } else {
        (m, Some((q[0], q.len())))
    }
}

/// Sending failed: the queue of `k` is dropped with all its replies.
pub open spec fn send_failed_step(m: ManagerView, k: Seq<char>) -> (ManagerView, nat) {
    (ManagerView { queues: m.queues.remove(k), processing: m.processing.remove(k), ..m }, queue_of(m.queues, k).len())
}

/// The reply for `k` went out and now awaits its acknowledgement.
pub open spec fn sent_step(m: ManagerView, k: Seq<char>) -> ManagerView {
    ManagerView { pending: m.pending.insert(k), ..m }
}

/// The wait for the acknowledgement of the front reply of `k` ended (answered or
/// timed out): that reply leaves the queue, and nothing awaits an acknowledgement
/// for `k` any more. Where the queue is then empty it is dropped and the work on it
/// ends (`false`); otherwise the work goes on (`true`). Also gives how many replies
/// left the queue.
pub open spec fn settled_step(m: ManagerView, k: Seq<char>) -> (ManagerView, (bool, nat)) {
    let q = queue_of(m.queues, k);
    let pending = m.pending.remove(k);
    if q.len() <= 1 {
        (
            ManagerView { queues: m.queues.remove(k), processing: m.processing.remove(k), pending, ..m },
            (false, q.len()),
        )
    } else {
        (ManagerView { queues: m.queues.insert(k, q.drop_first()), pending, ..m }, (true, 1nat))
    }
}

/// The longest wait before a reconnect attempt, in milliseconds.
pub const MAX_RECONNECT_DELAY_MS: u64 = 30000;

/// The wait before reconnect attempt `n` (counting from 1): the base interval for
/// the first attempt, doubled with every further one, never more than
/// [`MAX_RECONNECT_DELAY_MS`].
pub open spec fn backoff_delay(base: u64, n: nat) -> u64
    decreases n,
{
    if n <= 1 {
        if base < MAX_RECONNECT_DELAY_MS { base } else { MAX_RECONNECT_DELAY_MS }
    } else {
        let d = 2 * backoff_delay(base, (n - 1) as nat);
        if d < MAX_RECONNECT_DELAY_MS { d as u64 } else { MAX_RECONNECT_DELAY_MS }
    }
}

proof fn lemma_backoff_stays_capped(base: u64, i: nat, n: nat)
    requires
        1 <= i <= n,
        backoff_delay(base, i) == MAX_RECONNECT_DELAY_MS,
    ensures
        backoff_delay(base, n) == MAX_RECONNECT_DELAY_MS,
    decreases n - i,
{
    if i < n {
        lemma_backoff_stays_capped(base, i + 1, n);
    }
}

/// The wait before reconnect attempt `n`.
pub fn reconnect_delay(base: u64, n: usize) -> (r: u64)
    ensures
        r == backoff_delay(base, n as nat),
{
    let cap = MAX_RECONNECT_DELAY_MS;
    let mut d: u64 = if base < cap { base } else { cap };
    let mut i: usize = 1;
    while i < n && d < cap
        invariant
            1 <= i,
            i <= n || i == 1,
            d == backoff_delay(base, i as nat),
            d <= cap,
            cap == MAX_RECONNECT_DELAY_MS,
        decreases n - i,
    {
        d = if d * 2 < cap { d * 2 } else { cap };
        i = i + 1;
    }
    proof {
        if n == 0 {
            assert(backoff_delay(base, 0) == backoff_delay(base, 1));
        } else if i < n {
            assert(d == MAX_RECONNECT_DELAY_MS);
            lemma_backoff_stays_capped(base, i as nat, n as nat);
        } else {
            assert(i == n);
        }
    }
    d
}

/// What follows the end of a link.
#[derive(Clone, Copy, PartialEq, Eq, Structural, Debug)]
pub enum ReconnectDecision {
    /// Reconnect after the delay; this is attempt number `attempt`.
    Retry { attempt: usize, delay_ms: u64 },
    /// The reconnect attempts are used up.
    GiveUp,
    /// The connection was closed on purpose: no reconnect.
    Stop,
}

/// Closing on purpose: disconnected, no link, and the manual-close mark set.
pub open spec fn disconnect_step(m: ManagerView) -> ManagerView {
    ManagerView { manual_close: true, state: ConnectionState::Disconnected, link_open: false, ..m }
}

/// The end of a link: disconnected and no link; then no reconnect after a close on
/// purpose, none once the attempts reach the limit (unless the limit is `-1`,
/// unlimited), and otherwise attempt `n + 1` after [`backoff_delay`].
pub open spec fn link_lost_step(m: ManagerView) -> (ManagerView, ReconnectDecision) {
    let m1 = ManagerView { state: ConnectionState::Disconnected, link_open: false, ..m };
    if m.manual_close {
        (m1, ReconnectDecision::Stop)
    } else if m.max_reconnect_attempts != -1 && m.reconnect_attempts as int >= m.max_reconnect_attempts as int {
        (m1, ReconnectDecision::GiveUp)
    } else {
        let n: usize = if m.reconnect_attempts == usize::MAX { usize::MAX } else { (m.reconnect_attempts + 1) as usize };
        (
            ManagerView { reconnect_attempts: n, ..m1 },
            ReconnectDecision::Retry { attempt: n, delay_ms: backoff_delay(m.reconnect_interval, n as nat) },
        )
    }
}

/// The manager with the queue of `k` dropped and the work on it ended.
pub open spec fn remove_queue(m: ManagerView, k: Seq<char>) -> ManagerView {
    ManagerView { queues: m.queues.remove(k), processing: m.processing.remove(k), ..m }
}

proof fn lemma_remove_keeps_inv(m: ManagerView, k: Seq<char>)
    requires
        manager_inv(m),
    ensures
        manager_inv(remove_queue(m, k)),
{
    let r = remove_queue(m, k);
    assert forall|key: Seq<char>| #[trigger] r.queues.contains_key(key) implies 0 < r.queues[key].len() <= MAX_REPLY_QUEUE by {
        assert(m.queues.contains_key(key));
    }
    assert forall|key: Seq<char>| #[trigger] r.processing.contains(key) <==> r.queues.contains_key(key) by {
        assert(m.processing.contains(key) <==> m.queues.contains_key(key));
    }
}

/// Writes a text as a JSON string literal with `serde_json::to_string`. The
/// contract claims that the result is [`json_quoted`] of the text, as the crate's
/// string escaping writes it; the `Err` arm is never taken, since writing a string
/// into memory cannot fail.
#[verifier::external_body]
fn json_string_literal(s: &str) -> (r: String)
    ensures
        r@ == json_quoted(s@),
{
    match serde_json::to_string(s) {
        Ok(text) => text,
        Err(_) => String::new(),
    }
}

/// The view of a result whose error is an [`SdkError`].
pub open spec fn result_view<T>(r: Result<T, SdkError>) -> Result<T, SdkErrorView> {
    match r {
        Ok(v) => Ok(v),
        Err(e) => Err(e@),
    }
}

/// The view of the next reply to send, with the queue's length.
pub open spec fn next_view(r: Option<(WsFrame, usize)>) -> Option<(WsFrameView, nat)> {
    match r {
        Some((f, n)) => Some((f@, n as nat)),
        None => None,
    }
}

fn errmsg_text(frame: &WsFrame) -> (r: String)
    ensures
        r@ == errmsg_or_unknown(frame@),
{
    match &frame.errmsg {
        Some(m) => m.clone(),
        None => {
            proof {
                reveal_strlit("unknown");
            }
            "unknown".to_owned()
        },
    }
}

fn errcode_value(frame: &WsFrame) -> (r: i32)
    ensures
        r == errcode_or_default(frame@),
{
    match frame.errcode {
        Some(c) => c,
        None => -1,
    }
}

/// The connection manager: the state that the connection's decisions read and write.
pub struct WsConnectionManager {
    options: WSClientOptions,
    state: ConnectionState,
    reconnect_attempts: usize,
    is_manual_close: bool,
    link_open: bool,
    missed_pong_count: usize,
    max_missed_pong: usize,
    reply_queues: ReplyQueues,
    pending_acks: ReqIdSet,
    processing_queues: ReqIdSet,
}

impl View for WsConnectionManager {
    type V = ManagerView;

    closed spec fn view(&self) -> ManagerView {
        ManagerView {
            bot_id: self.options.bot_id@,
            secret: self.options.secret@,
            ws_url: opt_str_view(self.options.ws_url),
            heartbeat_interval: self.options.heartbeat_interval,
            reconnect_interval: self.options.reconnect_interval,
            max_reconnect_attempts: self.options.max_reconnect_attempts,
            request_timeout: self.options.request_timeout,
            state: self.state,
            reconnect_attempts: self.reconnect_attempts,
            manual_close: self.is_manual_close,
            link_open: self.link_open,
            missed_pong: self.missed_pong_count,
            max_missed_pong: self.max_missed_pong,
            queues: self.reply_queues@,
            pending: self.pending_acks@,
            processing: self.processing_queues@,
        }
    }
}

impl WsConnectionManager {
    /// The containers are well formed and the invariant of the view holds.
    pub closed spec fn wf(&self) -> bool {
        &&& self.reply_queues.wf()
        &&& self.pending_acks.wf()
        &&& self.processing_queues.wf()
        &&& manager_inv(self@)
    }

    /// A manager for the given options: disconnected, with nothing queued.
    pub fn new(options: WSClientOptions) -> (r: Self)
        ensures
            r.wf(),
            r@ == initial_manager(options),
    {
        let r = WsConnectionManager {
            options,
            state: ConnectionState::Disconnected,
            reconnect_attempts: 0,
            is_manual_close: false,
            link_open: false,
            missed_pong_count: 0,
            max_missed_pong: MAX_MISSED_PONG,
            reply_queues: ReplyQueues::new(),
            pending_acks: ReqIdSet::new(),
            processing_queues: ReqIdSet::new(),
        };
        assert(r@ =~= initial_manager(r.options));
        r
    }

    /// The connection is authenticated.
    pub fn is_connected(&self) -> (r: bool)
        ensures
            r == connected(self@),
    {
        self.state == ConnectionState::Authenticated
    }

    /// Closes the connection on purpose: it is disconnected, no frame can be handed
    /// to the link any more, and no reconnect follows.
    pub fn disconnect(&mut self)
        requires
            old(self).wf(),
        ensures
            final(self).wf(),
            final(self)@ == disconnect_step(old(self)@),
    {
        self.is_manual_close = true;
        self.state = ConnectionState::Disconnected;
        self.link_open = false;
    }

    /// The link to the server ended (read error, dead heartbeat, closed stream, or
    /// a failed reconnect). The connection is disconnected; then, unless it was
    /// closed on purpose or the reconnect attempts are used up, the next attempt is
    /// counted and its delay given.
    pub fn on_link_lost(&mut self) -> (r: ReconnectDecision)
        requires
            old(self).wf(),
        ensures
            final(self).wf(),
            (final(self)@, r) == link_lost_step(old(self)@),
    {
        self.state = ConnectionState::Disconnected;
        self.link_open = false;
        if self.is_manual_close {
            return ReconnectDecision::Stop;
        }
        let max = self.options.max_reconnect_attempts;
        if max != -1 && (max < 0 || self.reconnect_attempts >= max as usize) {
            return ReconnectDecision::GiveUp;
        }
        let n: usize = if self.reconnect_attempts == usize::MAX {
            usize::MAX
        } else {
            self.reconnect_attempts + 1
        };
        self.reconnect_attempts = n;
        ReconnectDecision::Retry { attempt: n, delay_ms: reconnect_delay(self.options.reconnect_interval, n) }
    }

    /// Starts connecting: clears the manual-close mark and gives the address to
    /// connect to, the configured one or the built-in one.
    pub fn begin_connect(&mut self) -> (url: String)
        requires
            old(self).wf(),
        ensures
            final(self).wf(),
            final(self)@ == (ManagerView { manual_close: false, ..old(self)@ }),
            url@ == target_url(old(self)@),
    {
        self.is_manual_close = false;
        match &self.options.ws_url {
            Some(u) => u.clone(),
            None => DEFAULT_WS_URL.to_owned(),
        }
    }

    /// The link to the server is up: the connection is connected (not yet
    /// authenticated), and the reconnect and missed-heartbeat counts start over.
    pub fn on_connected(&mut self)
        requires
            old(self).wf(),
        ensures
            final(self).wf(),
            final(self)@ == (ManagerView {
                link_open: true,
                state: ConnectionState::Connected,
                reconnect_attempts: 0,
                missed_pong: 0,
                ..old(self)@
            }),
    {
        self.link_open = true;
        self.state = ConnectionState::Connected;
        self.reconnect_attempts = 0;
        self.missed_pong_count = 0;
    }

    /// The authentication frame, with a request id made from the `aibot_subscribe`
    /// prefix, the time in milliseconds and a random word.
    pub fn auth_frame(&self, millis: u64, nonce: u32) -> (r: WsFrame)
        ensures
            r@ == auth_frame_view(self@, req_id_text(WsCmd::SUBSCRIBE@, millis, nonce)),
    {
        let req_id = generate_req_id(WsCmd::SUBSCRIBE, millis, nonce);
        proof {
            reveal_strlit("{\"bot_id\":");
            reveal_strlit(",\"secret\":");
            reveal_strlit("}");
        }
        let mut body = "{\"bot_id\":".to_owned();
        body.append(json_string_literal(self.options.bot_id.as_str()).as_str());
        body.append(",\"secret\":");
        body.append(json_string_literal(self.options.secret.as_str()).as_str());
        body.append("}");
        WsFrame {
            cmd: Some(WsCmd::SUBSCRIBE.to_owned()),
            headers: WsFrameHeaders::new(req_id),
            body: Some(body),
            errcode: None,
            errmsg: None,
        }
    }

    /// A heartbeat tick; the request id of a heartbeat is made from the `ping`
    /// prefix, the time in milliseconds and a random word.
    pub fn heartbeat_tick(&mut self, millis: u64, nonce: u32) -> (r: HeartbeatOutcome)
        requires
            old(self).wf(),
        ensures
            final(self).wf(),
            (final(self)@, r@) == tick_step(old(self)@, req_id_text(WsCmd::HEARTBEAT@, millis, nonce)),
    {
        let count = self.missed_pong_count.wrapping_add(1);
        self.missed_pong_count = count;
        proof {
            lemma_step_keeps_inv_except_queues(old(self)@, self@);
        }
        if count >= self.max_missed_pong {
            HeartbeatOutcome::Dead { missed: count }
        } else {
            let req_id = generate_req_id(WsCmd::HEARTBEAT, millis, nonce);
            HeartbeatOutcome::Send(WsFrame {
                cmd: Some(WsCmd::HEARTBEAT.to_owned()),
                headers: WsFrameHeaders::new(req_id),
                body: None,
                errcode: None,
                errmsg: None,
            })
        }
    }

    /// Frames can be handed to the link: the link has been set up. Otherwise the
    /// error `WebSocket not connected`.
    pub fn check_link(&self) -> (r: Result<(), SdkError>)
        ensures
            r is Ok <==> self@.link_open,
            r matches Err(e) ==> e@ == SdkErrorView::WebSocket("WebSocket not connected"@),
    {
        if self.link_open {
            Ok(())
        } else {
            Err(SdkError::WebSocket("WebSocket not connected".to_owned()))
        }
    }

    /// Handles a received frame. Pushed messages and events change nothing. The
    /// acknowledgement of a reply that awaits one settles the wait: the request id
    /// leaves the pending set, and the waiting reply gets the frame, or an error where
    /// the frame's error code is not 0; the queue itself is left as it is. An answer to an authentication request
    /// authenticates the connection where its error code is 0. A heartbeat
    /// acknowledgement with error code 0 clears the missed-heartbeat count. A
    /// missing error code counts as `-1`, a missing error message as `unknown`.
    pub fn handle_frame(&mut self, frame: &WsFrame) -> (r: FrameOutcome)
        requires
            old(self).wf(),
        ensures
            final(self).wf(),
            (final(self)@, r@) == frame_step(old(self)@, frame@),
    {
        let is_push = match &frame.cmd {
            Some(c) => text_eq(c.as_str(), WsCmd::CALLBACK) || text_eq(c.as_str(), WsCmd::EVENT_CALLBACK),
            None => false,
        };
        if is_push {
            return FrameOutcome::PushMessage;
        }
        let req_id = &frame.headers.req_id;
        if self.pending_acks.contains(req_id) {
            self.pending_acks.remove(req_id);
            let errcode = errcode_value(frame);
            let result = if errcode != 0 {
                proof {
                    reveal_strlit("Reply ack error: errcode=");
                    reveal_strlit(", errmsg=");
                }
                let mut text = "Reply ack error: errcode=".to_owned();
                append_decimal(&mut text, errcode as i64);
                text.append(", errmsg=");
                text.append(errmsg_text(frame).as_str());
                Err(SdkError::Internal(text))
            } else {
                Ok(())
            };
            proof {
                lemma_step_keeps_inv_except_queues(old(self)@, self@);
            }
            return FrameOutcome::ReplyAck { result };
        }
        if starts_with(req_id.as_str(), WsCmd::SUBSCRIBE) {
            let errcode = errcode_value(frame);
            if errcode != 0 {
                return FrameOutcome::AuthFailed { errcode, errmsg: errmsg_text(frame) };
            }
            self.state = ConnectionState::Authenticated;
            self.missed_pong_count = 0;
            proof {
                lemma_step_keeps_inv_except_queues(old(self)@, self@);
            }
            return FrameOutcome::Authenticated;
        }
        if starts_with(req_id.as_str(), WsCmd::HEARTBEAT) {
            let errcode = errcode_value(frame);
            if errcode != 0 {
                return FrameOutcome::HeartbeatAckError { errcode, errmsg: errmsg_text(frame) };
            }
            self.missed_pong_count = 0;
            proof {
                lemma_step_keeps_inv_except_queues(old(self)@, self@);
            }
            return FrameOutcome::HeartbeatAck;
        }
        FrameOutcome::Unknown
    }

    /// Queues a reply (command `cmd`, the request id of the message replied to, and
    /// the JSON body) behind the earlier replies for the same request id. Refused,
    /// with nothing changed, where that queue already holds the most replies it
    /// may; otherwise `Ok(true)` where there was no queue: the work on it begins, and
    /// the caller is to carry it out.
    pub fn enqueue_reply(&mut self, req_id: &str, body: String, cmd: &str) -> (r: Result<bool, SdkError>)
        requires
            old(self).wf(),
        ensures
            final(self).wf(),
            (final(self)@, result_view(r)) == enqueue_step(old(self)@, req_id@, reply_frame_view(req_id@, body@, cmd@)),
    {
        let key = req_id.to_owned();
        let len = self.reply_queues.queue_len(&key);
        if len >= MAX_REPLY_QUEUE {
            proof {
                reveal_strlit("Reply queue for reqId ");
                reveal_strlit(" exceeds max size (100)");
            }
            let mut text = "Reply queue for reqId ".to_owned();
            text.append(req_id);
            text.append(" exceeds max size (100)");
            return Err(SdkError::Internal(text));
        }
        let frame = WsFrame {
            cmd: Some(cmd.to_owned()),
            headers: WsFrameHeaders::new(req_id.to_owned()),
            body: Some(body),
            errcode: None,
            errmsg: None,
        };
        self.reply_queues.push_back(&key, frame);
        if len == 0 {
            self.processing_queues.insert(&key);
        }
        proof {
            assert(manager_inv(self@)) by {
                assert forall|k: Seq<char>| #[trigger] self@.queues.contains_key(k) implies 0 < self@.queues[k].len() <= MAX_REPLY_QUEUE by {
                    if k != req_id@ {
                        assert(old(self)@.queues.contains_key(k));
                    }
                }
                assert forall|k: Seq<char>| #[trigger] self@.processing.contains(k) <==> self@.queues.contains_key(k) by {
                    if k != req_id@ {
                        assert(old(self)@.processing.contains(k) <==> old(self)@.queues.contains_key(k));
                    }
                }
            }
        }
        Ok(len == 0)
    }

    /// The next reply to send for `req_id`, with the length of its queue; `None`,
    /// with the queue dropped and the work on it ended, where the queue is empty.
    pub fn process_next(&mut self, req_id: &str) -> (r: Option<(WsFrame, usize)>)
        requires
            old(self).wf(),
        ensures
            final(self).wf(),
            (final(self)@, next_view(r)) == next_step(old(self)@, req_id@),
    {
        let key = req_id.to_owned();
        let len = self.reply_queues.queue_len(&key);
        if len == 0 {
            self.reply_queues.remove(&key);
            self.processing_queues.remove(&key);
            proof {
                lemma_remove_keeps_inv(old(self)@, req_id@);
                assert(self@ =~= remove_queue(old(self)@, req_id@));
            }
            return None;
        }
        match self.reply_queues.front(&key) {
            Some(f) => Some((f, len)),
            None => None,
        }
    }

    /// Sending the front reply of `req_id` failed: the queue is dropped with all its
    /// replies, the work on it ends, and the number of dropped replies is given.
    pub fn process_send_failed(&mut self, req_id: &str) -> (released: usize)
        requires
            old(self).wf(),
        ensures
            final(self).wf(),
            (final(self)@, released as nat) == send_failed_step(old(self)@, req_id@),
    {
        let key = req_id.to_owned();
        let len = self.reply_queues.queue_len(&key);
        self.reply_queues.remove(&key);
        self.processing_queues.remove(&key);
        proof {
            lemma_remove_keeps_inv(old(self)@, req_id@);
            assert(self@ =~= remove_queue(old(self)@, req_id@));
        }
        len
    }

    /// The front reply of `req_id` went out; it now awaits its acknowledgement.
    pub fn process_sent(&mut self, req_id: &str)
        requires
            old(self).wf(),
        ensures
            final(self).wf(),
            final(self)@ == sent_step(old(self)@, req_id@),
    {
        let key = req_id.to_owned();
        self.pending_acks.insert(&key);
    }

    /// The wait for the acknowledgement of the front reply of `req_id` ended
    /// (answered or timed out): that reply leaves the queue and nothing awaits an
    /// acknowledgement for `req_id` any more. Gives whether the work on the queue
    /// goes on (`false` where the queue is now empty and dropped), and how many
    /// replies left the queue.
    pub fn process_settled(&mut self, req_id: &str) -> (r: (bool, usize))
        requires
            old(self).wf(),
        ensures
            final(self).wf(),
            (final(self)@, (r.0, r.1 as nat)) == settled_step(old(self)@, req_id@),
    {
        let key = req_id.to_owned();
        let len = self.reply_queues.queue_len(&key);
        self.pending_acks.remove(&key);
        if len <= 1 {
            self.reply_queues.remove(&key);
            self.processing_queues.remove(&key);
            proof {
                lemma_remove_keeps_inv(old(self)@, req_id@);
                assert(self@ =~= ManagerView { pending: old(self)@.pending.remove(req_id@), ..remove_queue(old(self)@, req_id@) });
            }
            (false, len)
        } else {
            self.reply_queues.pop_front(&key);
            proof {
                assert(manager_inv(self@)) by {
                    assert forall|k: Seq<char>| #[trigger] self@.queues.contains_key(k) implies 0 < self@.queues[k].len() <= MAX_REPLY_QUEUE by {
                        assert(old(self)@.queues.contains_key(k));
                    }
                    assert forall|k: Seq<char>| #[trigger] self@.processing.contains(k) <==> self@.queues.contains_key(k) by {
                        assert(old(self)@.processing.contains(k) <==> old(self)@.queues.contains_key(k));
                    }
                }
            }
            (true, 1)
        }
    }
}

impl WsConnectionManager {
    /// Every well-formed manager satisfies the invariant of its view.
    pub proof fn lemma_wf_inv(&self)
        requires
            self.wf(),
        ensures
            manager_inv(self@),
    {
    }
}

proof fn lemma_step_keeps_inv_except_queues(m: ManagerView, m2: ManagerView)
    requires
        manager_inv(m),
        m2.queues == m.queues,
        m2.processing == m.processing,
        m2.max_missed_pong == m.max_missed_pong,
    ensures
        manager_inv(m2),
{
    assert forall|key: Seq<char>| #[trigger] m2.queues.contains_key(key) implies 0 < m2.queues[key].len() <= MAX_REPLY_QUEUE by {
        assert(m.queues.contains_key(key));
    }
    assert forall|key: Seq<char>| #[trigger] m2.processing.contains(key) <==> m2.queues.contains_key(key) by {
        assert(m.processing.contains(key) <==> m.queues.contains_key(key));
    }
}

/// Every step keeps the invariant: no reply queue is empty or longer than
/// [`MAX_REPLY_QUEUE`], a queue is being worked through exactly where one exists,
/// and the heartbeat tolerance never changes.
pub proof fn lemma_steps_keep_inv(
    m: ManagerView,
    f: WsFrameView,
    k: Seq<char>,
    tick_id: Seq<char>,
    reply: WsFrameView,
)
    requires
        manager_inv(m),
    ensures
        manager_inv(frame_step(m, f).0),
        manager_inv(tick_step(m, tick_id).0),
        manager_inv(enqueue_step(m, k, reply).0),
        manager_inv(next_step(m, k).0),
        manager_inv(send_failed_step(m, k).0),
        manager_inv(sent_step(m, k)),
        manager_inv(settled_step(m, k).0),
        manager_inv(disconnect_step(m)),
        manager_inv(link_lost_step(m).0),
{
    lemma_step_keeps_inv_except_queues(m, frame_step(m, f).0);
    lemma_step_keeps_inv_except_queues(m, tick_step(m, tick_id).0);
    lemma_step_keeps_inv_except_queues(m, sent_step(m, k));
    lemma_step_keeps_inv_except_queues(m, disconnect_step(m));
    lemma_step_keeps_inv_except_queues(m, link_lost_step(m).0);
    lemma_remove_keeps_inv(m, k);
    assert(send_failed_step(m, k).0 == remove_queue(m, k));
    if queue_of(m.queues, k).len() == 0 {
        assert(next_step(m, k).0 == remove_queue(m, k));
    } else {
        lemma_step_keeps_inv_except_queues(m, next_step(m, k).0);
    }
    let e = enqueue_step(m, k, reply).0;
    assert forall|key: Seq<char>| #[trigger] e.queues.contains_key(key) implies 0 < e.queues[key].len() <= MAX_REPLY_QUEUE by {
        if key != k {
            assert(m.queues.contains_key(key));
        }
    }
    assert forall|key: Seq<char>| #[trigger] e.processing.contains(key) <==> e.queues.contains_key(key) by {
        assert(m.processing.contains(key) <==> m.queues.contains_key(key));
    }
    let s = settled_step(m, k).0;
    if queue_of(m.queues, k).len() <= 1 {
        lemma_remove_keeps_inv(ManagerView { pending: m.pending.remove(k), ..m }, k);
        assert(s == remove_queue(ManagerView { pending: m.pending.remove(k), ..m }, k));
    } else {
        assert forall|key: Seq<char>| #[trigger] s.queues.contains_key(key) implies 0 < s.queues[key].len() <= MAX_REPLY_QUEUE by {
            assert(m.queues.contains_key(key));
        }
        assert forall|key: Seq<char>| #[trigger] s.processing.contains(key) <==> s.queues.contains_key(key) by {
            assert(m.processing.contains(key) <==> m.queues.contains_key(key));
        }
    }
}

/// One work per request id: a queued reply starts a new work on its queue
/// (`Ok(true)`) exactly where none was going on, and the work is then going on;
/// otherwise it joins the queue that the going work is taking care of.
pub proof fn lemma_one_work_per_request(m: ManagerView, k: Seq<char>, reply: WsFrameView)
    requires
        manager_inv(m),
    ensures
        enqueue_step(m, k, reply).1 == Ok::<bool, SdkErrorView>(true) ==> !m.processing.contains(k)
            && enqueue_step(m, k, reply).0.processing.contains(k),
        enqueue_step(m, k, reply).1 == Ok::<bool, SdkErrorView>(false) ==> m.processing.contains(k)
            && enqueue_step(m, k, reply).0.processing == m.processing,
{
    assert(m.processing.contains(k) <==> m.queues.contains_key(k));
    if m.queues.contains_key(k) {
        assert(m.queues[k].len() > 0);
    }
}

/// Replies join a queue only at its back: a queued reply goes behind the earlier
/// ones of its request id and no other queue changes; a refused one changes
/// nothing, and a reply is refused exactly when its queue is full.
pub proof fn lemma_replies_join_at_back(m: ManagerView, k: Seq<char>, reply: WsFrameView, key: Seq<char>)
    ensures
        enqueue_step(m, k, reply).1 is Err <==> queue_of(m.queues, k).len() >= MAX_REPLY_QUEUE,
        enqueue_step(m, k, reply).1 is Err ==> enqueue_step(m, k, reply).0 == m,
        enqueue_step(m, k, reply).1 is Ok ==> queue_of(enqueue_step(m, k, reply).0.queues, k)
            == queue_of(m.queues, k).push(reply),
        key != k ==> queue_of(enqueue_step(m, k, reply).0.queues, key) == queue_of(m.queues, key),
{
}

/// Replies go out one at a time, in order, each once: the reply handed out is the
/// front of its queue; receiving a frame (an acknowledgement included), a heartbeat
/// tick or marking a reply as sent leaves every queue as it is; and a reply leaves
/// its queue only when the wait for its acknowledgement ends, exactly the front one,
/// with the released count telling how many left.
pub proof fn lemma_serial_replies(m: ManagerView, f: WsFrameView, k: Seq<char>, tick_id: Seq<char>, key: Seq<char>)
    ensures
        queue_of(m.queues, k).len() > 0 ==> next_step(m, k) == (m, Some((queue_of(m.queues, k)[0], queue_of(m.queues, k).len()))),
        frame_step(m, f).0.queues == m.queues,
        tick_step(m, tick_id).0.queues == m.queues,
        sent_step(m, k).queues == m.queues,
        queue_of(settled_step(m, k).0.queues, k) == if queue_of(m.queues, k).len() > 0 {
            queue_of(m.queues, k).drop_first()
        } else {
            queue_of(m.queues, k)
        },
        queue_of(settled_step(m, k).0.queues, k).len() + settled_step(m, k).1.1 == queue_of(m.queues, k).len(),
        key != k ==> queue_of(settled_step(m, k).0.queues, key) == queue_of(m.queues, key),
{
    let q = queue_of(m.queues, k);
    if q.len() == 1 {
        assert(q.drop_first() =~= Seq::<WsFrameView>::empty());
    }
}

/// After a reply is handed out, sent, answered (or not: any frame may come), and
/// its wait ends, the next reply handed out is the one queued right behind it.
pub proof fn lemma_next_reply_follows(m: ManagerView, k: Seq<char>, answer: WsFrameView)
    requires
        queue_of(m.queues, k).len() >= 2,
    ensures
        ({
            let q = queue_of(m.queues, k);
            let m1 = next_step(m, k).0;
            let m2 = sent_step(m1, k);
            let m3 = frame_step(m2, answer).0;
            let m4 = settled_step(m3, k);
            &&& next_step(m, k).1 == Some((q[0], q.len()))
            &&& m4.1.0
            &&& next_step(m4.0, k).1 == Some((q[1], (q.len() - 1) as nat))
        }),
{
}

/// One round of the work on the queue of `k`: the next reply is handed out and
/// sent, `answer` is received (an acknowledgement, or any other frame; a timeout is
/// a round where nothing relevant arrives), and the wait ends. Gives the manager
/// after the round, the reply handed out, and whether the work goes on.
pub open spec fn reply_round(m: ManagerView, k: Seq<char>, answer: WsFrameView) -> (ManagerView, Option<WsFrameView>, bool) {
    let (m1, next) = next_step(m, k);
    match next {
        None => (m1, None, false),
        Some((f, _len)) => {
            let m2 = sent_step(m1, k);
            let m3 = frame_step(m2, answer).0;
            let (m4, (more, _released)) = settled_step(m3, k);
            (m4, Some(f), more)
        },
    }
}

/// The rounds of the work on the queue of `k`, one per received frame in
/// `answers`: the manager afterwards and the replies handed out, in order.
pub open spec fn reply_rounds(m: ManagerView, k: Seq<char>, answers: Seq<WsFrameView>) -> (ManagerView, Seq<WsFrameView>)
    decreases answers.len(),
{
    if answers.len() == 0 {
        (m, Seq::empty())
    } else {
        let (m0, out) = reply_rounds(m, k, answers.drop_last());
        let (m1, f, _more) = reply_round(m0, k, answers.last());
        match f {
            Some(x) => (m1, out.push(x)),
            None => (m1, out),
        }
    }
}

/// A pushed message or event is recognised as such in every state, authenticated
/// included, and changes nothing.
pub proof fn lemma_push_frames_in_every_state(m: ManagerView, f: WsFrameView)
    requires
        f.cmd == Some(WsCmd::CALLBACK@) || f.cmd == Some(WsCmd::EVENT_CALLBACK@),
    ensures
        frame_step(m, f).0 == m,
        frame_step(m, f).1 == FrameOutcomeView::PushMessage,
{
}

/// The acknowledgement of a reply that awaits one reports success exactly when its
/// error code is 0; any other code, positive or negative, or none at all (counting
/// as `-1`), is reported as the error `Reply ack error: errcode=<code>,
/// errmsg=<message>` (`unknown` where the frame carries no message). The request id
/// then awaits no acknowledgement any more, and nothing else changes.
pub proof fn lemma_ack_result(m: ManagerView, f: WsFrameView)
    requires
        f.cmd != Some(WsCmd::CALLBACK@),
        f.cmd != Some(WsCmd::EVENT_CALLBACK@),
        m.pending.contains(f.req_id),
    ensures
        frame_step(m, f).0 == (ManagerView { pending: m.pending.remove(f.req_id), ..m }),
        frame_step(m, f).1 matches FrameOutcomeView::ReplyAck { result } && (result is Ok <==> f.errcode
            == Some(0i32)),
        forall|code: i32| #![trigger decimal_text(code as int)]
            f.errcode == Some(code) && code != 0 ==> frame_step(m, f).1 == (FrameOutcomeView::ReplyAck {
                result: Err(SdkErrorView::Internal(
                    "Reply ack error: errcode="@ + decimal_text(code as int) + ", errmsg="@ + match f.errmsg {
                        Some(msg) => msg,
                        None => "unknown"@,
                    },
                )),
            }),
        f.errcode is None ==> frame_step(m, f).1 == (FrameOutcomeView::ReplyAck {
            result: Err(SdkErrorView::Internal(
                "Reply ack error: errcode="@ + decimal_text(-1) + ", errmsg="@ + match f.errmsg {
                    Some(msg) => msg,
                    None => "unknown"@,
                },
            )),
        }),
{
}

/// The authentication frame carries the configured credentials in full: its body
/// is `{"bot_id":` and the JSON string literal of the whole bot id, then
/// `,"secret":` and the JSON string literal of the whole secret, then `}`; its
/// command is `aibot_subscribe` and its request id the given one.
pub proof fn lemma_auth_frame_carries_credentials(m: ManagerView, req_id: Seq<char>)
    ensures
        auth_frame_view(m, req_id).body == Some(
            "{\"bot_id\":"@ + json_quoted(m.bot_id) + ",\"secret\":"@ + json_quoted(m.secret) + "}"@,
        ),
        auth_frame_view(m, req_id).cmd == Some(WsCmd::SUBSCRIBE@),
        auth_frame_view(m, req_id).req_id == req_id,
{
}

/// The reply queue serves a whole run in order, each reply once: with `n` replies
/// queued for `k` and nothing queued meanwhile, the first `j <= n` rounds hand out
/// exactly the first `j` replies, in queue order, whatever frames arrive meanwhile
/// (acknowledgements, errors, or none at all); the rest wait in the queue, round
/// `j + 1` hands out reply `j + 1` and the work goes on after it exactly when
/// replies are left; after `n` rounds the queue is gone and its work has ended.
pub proof fn lemma_reply_run_in_order(m: ManagerView, k: Seq<char>, answers: Seq<WsFrameView>, next_answer: WsFrameView)
    requires
        manager_inv(m),
        answers.len() <= queue_of(m.queues, k).len(),
    ensures
        ({
            let q = queue_of(m.queues, k);
            let j = answers.len() as int;
            let (mj, out) = reply_rounds(m, k, answers);
            &&& manager_inv(mj)
            &&& out == q.subrange(0, j)
            &&& queue_of(mj.queues, k) == q.subrange(j, q.len() as int)
            &&& j < q.len() ==> reply_round(mj, k, next_answer).1 == Some(q[j])
                && reply_round(mj, k, next_answer).2 == (j + 1 < q.len())
            &&& j == q.len() ==> !mj.processing.contains(k) && !mj.queues.contains_key(k)
        }),
    decreases answers.len(),
{
    let q = queue_of(m.queues, k);
    let j = answers.len() as int;
    if j == 0 {
        assert(q.subrange(0, 0) =~= Seq::<WsFrameView>::empty());
        assert(q.subrange(0, q.len() as int) =~= q);
    } else {
        lemma_reply_run_in_order(m, k, answers.drop_last(), answers.last());
        let (m0, out0) = reply_rounds(m, k, answers.drop_last());
        let q0 = queue_of(m0.queues, k);
        assert(q0 == q.subrange(j - 1, q.len() as int));
        assert(q0.len() > 0);
        assert(q0[0] == q[j - 1]);
        let m2 = sent_step(next_step(m0, k).0, k);
        lemma_steps_keep_inv(m0, answers.last(), k, Seq::empty(), answers.last());
        assert(next_step(m0, k).0 == m0);
        lemma_steps_keep_inv(next_step(m0, k).0, answers.last(), k, Seq::empty(), answers.last());
        lemma_steps_keep_inv(m2, answers.last(), k, Seq::empty(), answers.last());
        let m3 = frame_step(m2, answers.last()).0;
        lemma_steps_keep_inv(m3, answers.last(), k, Seq::empty(), answers.last());
        assert(queue_of(m3.queues, k) == q0);
        assert(out0.push(q[j - 1]) =~= q.subrange(0, j));
        if q0.len() > 1 {
            assert(q0.drop_first() =~= q.subrange(j, q.len() as int));
        } else {
            assert(q.subrange(j, q.len() as int) =~= Seq::<WsFrameView>::empty());
        }
        let mj = reply_rounds(m, k, answers).0;
        if j < q.len() {
            let qj = queue_of(mj.queues, k);
            assert(qj.len() > 0);
            assert(qj[0] == q[j]);
        }
        if j == q.len() {
            assert(manager_inv(mj));
        }
    }
}

/// Closing on purpose ends the connection: afterwards it is not connected, no frame
/// can be handed to the link, and the end of the link brings no reconnect.
pub proof fn lemma_disconnect_ends_connection(m: ManagerView)
    ensures
        !connected(disconnect_step(m)),
        !disconnect_step(m).link_open,
        link_lost_step(disconnect_step(m)).1 == ReconnectDecision::Stop,
        !connected(link_lost_step(m).0),
        !link_lost_step(m).0.link_open,
{
}

/// The manager after `j` ends of a link in a row, with no successful connect between.
pub open spec fn after_losses(m: ManagerView, j: nat) -> ManagerView
    decreases j,
{
    if j == 0 {
        m
    } else {
        link_lost_step(after_losses(m, (j - 1) as nat)).0
    }
}

/// Reconnects are limited: from a fresh count, with a limit `max >= 0` and no close
/// on purpose, the first `max` ends of a link in a row bring attempts `1..=max`, each
/// after the backed-off delay, and the next one gives up.
pub proof fn lemma_reconnects_are_limited(m: ManagerView, j: nat)
    requires
        !m.manual_close,
        m.reconnect_attempts == 0,
        m.max_reconnect_attempts >= 0,
        j <= m.max_reconnect_attempts,
    ensures
        after_losses(m, j).reconnect_attempts == j,
        !after_losses(m, j).manual_close,
        after_losses(m, j).max_reconnect_attempts == m.max_reconnect_attempts,
        after_losses(m, j).reconnect_interval == m.reconnect_interval,
        j < m.max_reconnect_attempts ==> link_lost_step(after_losses(m, j)).1 == (ReconnectDecision::Retry {
            attempt: (j + 1) as usize,
            delay_ms: backoff_delay(m.reconnect_interval, j + 1),
        }),
        j == m.max_reconnect_attempts ==> link_lost_step(after_losses(m, j)).1 == ReconnectDecision::GiveUp,
    decreases j,
{
    if j > 0 {
        lemma_reconnects_are_limited(m, (j - 1) as nat);
    }
}

/// Every lost link backs off exponentially, for every limit, unlimited (`-1`)
/// included: from a fresh count and without a close on purpose, the `(j+1)`-th lost
/// link in a row, while the limit allows it, brings attempt `j + 1` after
/// `min(reconnect_interval * 2^j, 30000)` milliseconds.
pub proof fn lemma_link_losses_back_off(m: ManagerView, j: nat)
    requires
        !m.manual_close,
        m.reconnect_attempts == 0,
        m.max_reconnect_attempts == -1 || j < m.max_reconnect_attempts,
        j + 1 < usize::MAX,
    ensures
        after_losses(m, j).reconnect_attempts == j,
        !after_losses(m, j).manual_close,
        after_losses(m, j).max_reconnect_attempts == m.max_reconnect_attempts,
        after_losses(m, j).reconnect_interval == m.reconnect_interval,
        link_lost_step(after_losses(m, j)).1 matches ReconnectDecision::Retry { attempt, delay_ms }
            && attempt == j + 1
            && delay_ms as int == if m.reconnect_interval as int * vstd::arithmetic::power2::pow2(j) < 30000 {
                m.reconnect_interval as int * vstd::arithmetic::power2::pow2(j)
            } else {
                30000int
            },
    decreases j,
{
    if j > 0 {
        lemma_link_losses_back_off(m, (j - 1) as nat);
    }
    lemma_backoff_doubles(m.reconnect_interval, j + 1);
}

/// The reconnect delays back off exponentially: the first is the base interval, each
/// further one doubles the one before, and none is longer than
/// [`MAX_RECONNECT_DELAY_MS`]; so attempt `n` waits `min(base * 2^(n-1), 30000)` ms.
pub proof fn lemma_backoff_doubles(base: u64, n: nat)
    requires
        n >= 1,
    ensures
        backoff_delay(base, n) <= MAX_RECONNECT_DELAY_MS,
        backoff_delay(base, n) as int == if base as int * vstd::arithmetic::power2::pow2((n - 1) as nat) < MAX_RECONNECT_DELAY_MS {
            base as int * vstd::arithmetic::power2::pow2((n - 1) as nat)
        } else {
            MAX_RECONNECT_DELAY_MS as int
        },
    decreases n,
{
    if n == 1 {
        vstd::arithmetic::power2::lemma2_to64();
        assert(vstd::arithmetic::power2::pow2(0) == 1);
        assert(base as int * vstd::arithmetic::power2::pow2(0) == base as int);
    } else {
        lemma_backoff_doubles(base, (n - 1) as nat);
        vstd::arithmetic::power2::lemma_pow2_unfold((n - 1) as nat);
        let p = vstd::arithmetic::power2::pow2((n - 2) as nat);
        assert(vstd::arithmetic::power2::pow2((n - 1) as nat) == 2 * p);
        let x = base as int * p;
        assert(base as int * (2 * p) == 2 * x) by (nonlinear_arith)
            requires
                x == base as int * p,
        ;
        assert(x >= 0) by (nonlinear_arith)
            requires
                base >= 0,
                p >= 0,
                x == base as int * p,
        ;
        let prev = backoff_delay(base, (n - 1) as nat);
        assert(backoff_delay(base, n) == if 2 * prev < MAX_RECONNECT_DELAY_MS { (2 * prev) as u64 } else { MAX_RECONNECT_DELAY_MS });
        if x < MAX_RECONNECT_DELAY_MS {
            assert(prev == x);
            assert(backoff_delay(base, n) as int == if 2 * x < MAX_RECONNECT_DELAY_MS { 2 * x } else { MAX_RECONNECT_DELAY_MS as int });
        } else {
            assert(prev == MAX_RECONNECT_DELAY_MS);
            assert(backoff_delay(base, n) == MAX_RECONNECT_DELAY_MS);
        }
        assert(base as int * vstd::arithmetic::power2::pow2((n - 1) as nat) == 2 * x);
    }
}

/// Heartbeats that go unanswered are fatal: from a cleared count, the first tick
/// sends a heartbeat and the second declares the connection dead.
pub proof fn lemma_unanswered_heartbeats_are_fatal(m: ManagerView, first_id: Seq<char>, second_id: Seq<char>)
    requires
        manager_inv(m),
        m.missed_pong == 0,
    ensures
        tick_step(m, first_id).1 == HeartbeatOutcomeView::Send(heartbeat_frame_view(first_id)),
        tick_step(tick_step(m, first_id).0, second_id).1 == (HeartbeatOutcomeView::Dead { missed: 2 }),
{
}

proof fn lemma_heartbeat_ids_are_not_auth_ids(millis: u64, nonce: u32)
    ensures
        has_prefix(req_id_text(WsCmd::HEARTBEAT@, millis, nonce), WsCmd::HEARTBEAT@),
        !has_prefix(req_id_text(WsCmd::HEARTBEAT@, millis, nonce), WsCmd::SUBSCRIBE@),
{
    reveal_strlit("ping");
    reveal_strlit("aibot_subscribe");
    let id = req_id_text(WsCmd::HEARTBEAT@, millis, nonce);
    assert(id.subrange(0, 4) =~= WsCmd::HEARTBEAT@);
    assert(id[0] == 'p');
    if has_prefix(id, WsCmd::SUBSCRIBE@) {
        assert(id.subrange(0, 15)[0] == 'a');
    }
}

proof fn lemma_auth_ids_are_auth_ids(millis: u64, nonce: u32)
    ensures
        has_prefix(req_id_text(WsCmd::SUBSCRIBE@, millis, nonce), WsCmd::SUBSCRIBE@),
{
    let id = req_id_text(WsCmd::SUBSCRIBE@, millis, nonce);
    assert(id.subrange(0, WsCmd::SUBSCRIBE@.len() as int) =~= WsCmd::SUBSCRIBE@);
}

/// A heartbeat that is acknowledged keeps the connection alive: after a tick, the
/// acknowledgement (error code 0) of the heartbeat it sent clears the count, so the
/// next tick sends a heartbeat again.
pub proof fn lemma_acknowledged_heartbeat_keeps_alive(
    m: ManagerView,
    millis: u64,
    nonce: u32,
    ack: WsFrameView,
    next_id: Seq<char>,
)
    requires
        manager_inv(m),
        m.missed_pong == 0,
        ack.req_id == req_id_text(WsCmd::HEARTBEAT@, millis, nonce),
        !is_push_cmd(ack.cmd),
        !m.pending.contains(ack.req_id),
        ack.errcode == Some(0i32),
    ensures
        tick_step(m, ack.req_id).1 == HeartbeatOutcomeView::Send(heartbeat_frame_view(ack.req_id)),
        frame_step(tick_step(m, ack.req_id).0, ack).1 == FrameOutcomeView::HeartbeatAck,
        frame_step(tick_step(m, ack.req_id).0, ack).0.missed_pong == 0,
        tick_step(frame_step(tick_step(m, ack.req_id).0, ack).0, next_id).1
            == HeartbeatOutcomeView::Send(heartbeat_frame_view(next_id)),
{
    lemma_heartbeat_ids_are_not_auth_ids(millis, nonce);
}

/// The answer to an authentication request authenticates the connection exactly
/// when its error code is 0, and then clears the missed-heartbeat count; a refused
/// answer changes nothing.
pub proof fn lemma_auth_answer(m: ManagerView, millis: u64, nonce: u32, answer: WsFrameView)
    requires
        answer.req_id == req_id_text(WsCmd::SUBSCRIBE@, millis, nonce),
        !is_push_cmd(answer.cmd),
        !m.pending.contains(answer.req_id),
    ensures
        connected(frame_step(m, answer).0) <==> (connected(m) || answer.errcode == Some(0i32)),
        answer.errcode == Some(0i32) ==> frame_step(m, answer).0.missed_pong == 0
            && frame_step(m, answer).1 == FrameOutcomeView::Authenticated,
        answer.errcode != Some(0i32) ==> frame_step(m, answer).0 == m,
{
    lemma_auth_ids_are_auth_ids(millis, nonce);
}

/// Only the answer to an authentication request connects: no other frame and no
/// other step turns an unauthenticated connection into an authenticated one.
pub proof fn lemma_only_auth_connects(
    m: ManagerView,
    f: WsFrameView,
    k: Seq<char>,
    tick_id: Seq<char>,
    reply: WsFrameView,
)
    requires
        !connected(m),
    ensures
        connected(frame_step(m, f).0) ==> frame_step(m, f).1 == FrameOutcomeView::Authenticated,
        !connected(tick_step(m, tick_id).0),
        !connected(enqueue_step(m, k, reply).0),
        !connected(next_step(m, k).0),
        !connected(send_failed_step(m, k).0),
        !connected(sent_step(m, k)),
        !connected(settled_step(m, k).0),
        !connected(disconnect_step(m)),
        !connected(link_lost_step(m).0),
{
}

} // verus!
