use vstd::prelude::*;

verus! {

/// Command words carried in the `cmd` field of a frame.
pub struct WsCmd;

impl WsCmd {
    /// Authentication (subscription) request; also the prefix of its request ids.
    pub const SUBSCRIBE: &'static str = "aibot_subscribe";
    /// Heartbeat; also the prefix of heartbeat request ids.
    pub const HEARTBEAT: &'static str = "ping";
    /// Message pushed by the server.
    pub const CALLBACK: &'static str = "aibot_msg_callback";
    /// Event pushed by the server.
    pub const EVENT_CALLBACK: &'static str = "aibot_event_callback";
}

/// Errors of the SDK; each carries a human-readable message.
#[derive(Debug)]
pub enum SdkError {
    WebSocket(String),
    Json(String),
    Http(String),
    Timeout(String),
    Internal(String),
}

/// The mathematical value of an error: its kind and the text of its message.
pub enum SdkErrorView {
    WebSocket(Seq<char>),
    Json(Seq<char>),
    Http(Seq<char>),
    Timeout(Seq<char>),
    Internal(Seq<char>),
}

impl View for SdkError {
    type V = SdkErrorView;

    open spec fn view(&self) -> SdkErrorView {
        match self {
            SdkError::WebSocket(m) => SdkErrorView::WebSocket(m@),
            SdkError::Json(m) => SdkErrorView::Json(m@),
            SdkError::Http(m) => SdkErrorView::Http(m@),
            SdkError::Timeout(m) => SdkErrorView::Timeout(m@),
            SdkError::Internal(m) => SdkErrorView::Internal(m@),
        }
    }
}

impl SdkError {
    /// The message the error carries.
    pub fn message(&self) -> (r: &String)
        ensures
            r@ == match self@ {
                SdkErrorView::WebSocket(m) => m,
                SdkErrorView::Json(m) => m,
                SdkErrorView::Http(m) => m,
                SdkErrorView::Timeout(m) => m,
                SdkErrorView::Internal(m) => m,
            },
    {
        match self {
            SdkError::WebSocket(m) => m,
            SdkError::Json(m) => m,
            SdkError::Http(m) => m,
            SdkError::Timeout(m) => m,
            SdkError::Internal(m) => m,
        }
    }
}

/// The view of an optional string.
pub open spec fn opt_str_view(o: Option<String>) -> Option<Seq<char>> {
    match o {
        Some(s) => Some(s@),
        None => None,
    }
}

fn clone_opt_string(o: &Option<String>) -> (r: Option<String>)
    ensures
        opt_str_view(r) == opt_str_view(*o),
{
    match o {
        Some(s) => Some(s.clone()),
        None => None,
    }
}

/// Frame headers: the request id that ties a reply or an acknowledgement to its request.
#[derive(Debug)]
pub struct WsFrameHeaders {
    pub req_id: String,
}

impl WsFrameHeaders {
    pub fn new(req_id: String) -> (r: Self)
        ensures
            r.req_id@ == req_id@,
    {
        WsFrameHeaders { req_id }
    }
}

/// A frame of the long-lived WebSocket channel. The body is carried as JSON text.
#[derive(Debug)]
pub struct WsFrame {
    pub cmd: Option<String>,
    pub headers: WsFrameHeaders,
    pub body: Option<String>,
    pub errcode: Option<i32>,
    pub errmsg: Option<String>,
}

/// The mathematical value of a frame.
pub struct WsFrameView {
    pub cmd: Option<Seq<char>>,
    pub req_id: Seq<char>,
    pub body: Option<Seq<char>>,
    pub errcode: Option<i32>,
    pub errmsg: Option<Seq<char>>,
}

impl View for WsFrame {
    type V = WsFrameView;

    open spec fn view(&self) -> WsFrameView {
        WsFrameView {
            cmd: opt_str_view(self.cmd),
            req_id: self.headers.req_id@,
            body: opt_str_view(self.body),
            errcode: self.errcode,
            errmsg: opt_str_view(self.errmsg),
        }
    }
}

impl WsFrame {
    /// A copy of the frame with the same value.
    pub fn duplicate(&self) -> (r: WsFrame)
        ensures
            r@ == self@,
    {
        WsFrame {
            cmd: clone_opt_string(&self.cmd),
            headers: WsFrameHeaders { req_id: self.headers.req_id.clone() },
            body: clone_opt_string(&self.body),
            errcode: self.errcode,
            errmsg: clone_opt_string(&self.errmsg),
        }
    }
}

/// Connection options of the client.
#[derive(Debug)]
pub struct WSClientOptions {
    pub bot_id: String,
    pub secret: String,
    /// Base reconnect delay in milliseconds.
    pub reconnect_interval: u64,
    /// Maximum reconnect attempts (`-1` for unlimited).
    pub max_reconnect_attempts: i32,
    /// Heartbeat interval in milliseconds.
    pub heartbeat_interval: u64,
    /// HTTP request timeout in milliseconds.
    pub request_timeout: u64,
    /// Custom WebSocket address; the built-in address is used when absent.
    pub ws_url: Option<String>,
}

impl WSClientOptions {
    /// Options with the given credentials and the documented defaults.
    pub fn new(bot_id: String, secret: String) -> (r: Self)
        ensures
            r.bot_id@ == bot_id@,
            r.secret@ == secret@,
            r.reconnect_interval == 1000,
            r.max_reconnect_attempts == 10,
            r.heartbeat_interval == 30000,
            r.request_timeout == 10000,
            r.ws_url is None,
    {
        WSClientOptions {
            bot_id,
            secret,
            reconnect_interval: 1000,
            max_reconnect_attempts: 10,
            heartbeat_interval: 30000,
            request_timeout: 10000,
            ws_url: None,
        }
    }
}

impl Default for WSClientOptions {
    fn default() -> (r: Self)
        ensures
            r.bot_id@ == Seq::<char>::empty(),
            r.secret@ == Seq::<char>::empty(),
            r.reconnect_interval == 1000,
            r.max_reconnect_attempts == 10,
            r.heartbeat_interval == 30000,
            r.request_timeout == 10000,
            r.ws_url is None,
    {
        WSClientOptions::new(String::new(), String::new())
    }
}

} // verus!
