//! Connection acceptance and the decisions of a control connection.
//!
//! A connection reads requests and stream frames, has the requests answered, routes the stream
//! frames to the channels that its commands opened, and tears all of them down when it ends. What
//! is read, sent and awaited stays with the transport; this module decides what happens next.

use vstd::prelude::*;
use vstd::string::*;
use crate::frame;
use crate::frame::FrameError;
use crate::order;
use crate::order::SortedMap;
use crate::paths::FsPath;
use crate::text;

verus! {

/// Per-connection outbound queue capacity (responses and forwarded events).
pub const OUTBOUND_CAPACITY: usize = 256;

/// How long live connections get to unwind after shutdown before they are aborted, in nanoseconds.
pub const CONNECTION_DRAIN: u64 = 2_000_000_000;

/// Mode of the control socket.
pub const SOCKET_MODE: u32 = 0o600;

/// Errors that terminate a connection.
#[derive(Debug)]
pub enum ConnError {
    /// A framing or transport error.
    Frame(FrameError),
}

impl ConnError {
    /// What the error says.
    pub open spec fn says(&self) -> Seq<char> {
        match self {
            ConnError::Frame(e) => e.says(),
        }
    }

    /// What the error says.
    pub fn message(&self) -> (r: String)
        ensures
            r@ == self.says(),
    {
        match self {
            ConnError::Frame(e) => e.message(),
        }
    }
}

/// Why a request is answered with an error before it reaches a handler.
#[derive(Debug, Clone, Copy, PartialEq, Eq, Structural)]
pub enum ErrorCode {
    /// The message is of another schema version.
    UnsupportedVersion,
    /// The message cannot be decoded.
    InvalidMessage,
    /// The frame is over the maximum.
    FrameTooLarge,
}

/// An error response.
#[derive(Debug)]
pub struct ErrorReply {
    /// The request that it answers.
    pub request_id: String,
    /// Why.
    pub code: ErrorCode,
    /// Why, in words.
    pub message: String,
}

/// What an error response stands for.
pub struct ErrorModel {
    /// The request that it answers.
    pub request_id: Seq<char>,
    /// Why.
    pub code: ErrorCode,
    /// Why, in words.
    pub message: Seq<char>,
}

impl View for ErrorReply {
    type V = ErrorModel;

    open spec fn view(&self) -> ErrorModel {
        ErrorModel { request_id: self.request_id@, code: self.code, message: self.message@ }
    }
}

/// What one frame's body decodes to, as far as a connection looks at it.
#[derive(Debug)]
pub enum Decoded {
    /// A request.
    Request {
        /// Its id.
        request_id: String,
        /// The schema version that it was written for.
        schema_version: u32,
    },
    /// A stream frame.
    Stream {
        /// Its channel.
        channel_id: String,
        /// Whether it ends the channel.
        is_end: bool,
    },
    /// Nothing: why it cannot be decoded.
    Malformed(String),
}

/// What is done with an inbound frame.
pub enum Inbound {
    /// Dispatch the request.
    Request,
    /// Route the stream frame.
    Stream,
    /// Answer at once. A malformed frame yields no request id, so its answer names none.
    Error(ErrorReply),
}

/// The request id of an answer to something that named none.
pub open spec fn unknown_id() -> Seq<char> {
    "unknown"@
}

/// How a request of another schema version is answered.
pub open spec fn version_reply(request_id: Seq<char>, version: u32, expected: u32) -> ErrorModel {
    ErrorModel {
        request_id,
        code: ErrorCode::UnsupportedVersion,
        message: "schemaVersion "@ + text::decimal(version as nat) + " is not supported (expected "@
            + text::decimal(expected as nat) + ")"@,
    }
}

/// How something that cannot be decoded is answered.
pub open spec fn malformed_reply(why: Seq<char>) -> ErrorModel {
    ErrorModel { request_id: unknown_id(), code: ErrorCode::InvalidMessage, message: why }
}

/// How an oversized frame is answered.
pub open spec fn oversized_reply(len: u32, max: u32) -> ErrorModel {
    ErrorModel {
        request_id: unknown_id(),
        code: ErrorCode::FrameTooLarge,
        message: frame::too_large_text(len, max),
    }
}

/// What is done with an inbound frame, given the schema version that this side speaks.
pub fn decode_inbound(decoded: &Decoded, expected: u32) -> (r: Inbound)
    ensures
        match decoded {
            Decoded::Request { request_id, schema_version } => if *schema_version == expected {
                r is Request
            } else {
                r matches Inbound::Error(e) && e@ == version_reply(
                    request_id@,
                    *schema_version,
                    expected,
                )
            },
            Decoded::Stream { .. } => r is Stream,
            Decoded::Malformed(why) => r matches Inbound::Error(e) && e@ == malformed_reply(why@),
        },
{
    match decoded {
        Decoded::Request { request_id, schema_version } => {
            if *schema_version == expected {
                return Inbound::Request;
            }
            let mut message: String = "schemaVersion ".to_owned();
            message.append(text::dec(*schema_version as u64).as_str());
            message.append(" is not supported (expected ");
            message.append(text::dec(expected as u64).as_str());
            message.append(")");
            Inbound::Error(
                ErrorReply {
                    request_id: request_id.clone(),
                    code: ErrorCode::UnsupportedVersion,
                    message,
                },
            )
        },
        Decoded::Stream { .. } => Inbound::Stream,
        Decoded::Malformed(why) => Inbound::Error(
            ErrorReply {
                request_id: "unknown".to_owned(),
                code: ErrorCode::InvalidMessage,
                message: why.clone(),
            },
        ),
    }
}

/// Something that happened to a connection.
pub enum ConnEvent {
    /// The shutdown signal changed: whether its sender is gone, and what it says now.
    Shutdown {
        /// The sender is gone.
        gone: bool,
        /// Shut down.
        stop: bool,
    },
    /// A frame was read and decoded.
    Frame(Decoded),
    /// The peer ended the stream at a frame boundary.
    Ended,
    /// Reading a frame failed.
    Failed(FrameError),
    /// The outbound queue is gone.
    Unsendable,
}

/// What a connection does next.
pub enum ConnAction {
    /// Read on.
    Read,
    /// Have the request handled, queue its response, read on.
    Dispatch,
    /// Hand the payload to this sink of a channel (waiting while its queue is full), read on.
    Deliver {
        /// The sink.
        sink: u64,
        /// Whether the payload is the channel's last, after which the sink is closed.
        last: bool,
    },
    /// Queue this response, read on.
    Reply(ErrorReply),
    /// Queue this response if it can be, then tear down: the stream is out of step.
    ReplyAndClose(ErrorReply),
    /// Tear down.
    Close,
}

/// What is registered for a channel.
pub open spec fn registered(registry: Map<Seq<char>, u64>, channel: Seq<char>) -> Option<u64> {
    if registry.dom().contains(channel) {
        Some(registry[channel])
    } else {
        None
    }
}

/// Every request that arrives is either dispatched or answered at once, and nothing else that
/// arrives is dispatched.
pub open spec fn is_answered(event: ConnEvent, action: ConnAction) -> bool {
    match event {
        ConnEvent::Frame(Decoded::Request { .. }) => action is Dispatch || action is Reply,
        _ => !(action is Dispatch),
    }
}

/// One control connection.
pub struct Connection {
    /// The largest frame accepted.
    pub max_frame_bytes: u32,
    /// The schema version that this side speaks.
    pub schema_version: u32,
    /// Channel → the sink of what the peer sends on it.
    pub channels: SortedMap<String, u64>,
    /// Channel → the action that tears it down.
    pub closers: SortedMap<String, u64>,
    /// Still reading.
    pub open: bool,
}

impl Connection {
    /// Whether the registries are in order.
    pub open spec fn wf(&self) -> bool {
        self.channels.wf() && self.closers.wf()
    }

    /// A connection that was just accepted.
    pub fn new(max_frame_bytes: u32, schema_version: u32) -> (r: Self)
        ensures
            r.wf(),
            r.max_frame_bytes == max_frame_bytes,
            r.schema_version == schema_version,
            r.channels@ == Map::<Seq<char>, u64>::empty(),
            r.closers@ == Map::<Seq<char>, u64>::empty(),
            r.open,
    {
        Connection {
            max_frame_bytes,
            schema_version,
            channels: SortedMap::new(),
            closers: SortedMap::new(),
            open: true,
        }
    }

    /// A command opened a channel: what the peer sends on it goes to `sink`. Gives the sink that
    /// the channel had before, which is to be closed.
    pub fn register_channel(&mut self, channel_id: String, sink: u64) -> (r: Option<u64>)
        requires
            old(self).wf(),
        ensures
            final(self).wf(),
            *final(self) == (Connection { channels: final(self).channels, ..*old(self) }),
            final(self).channels@ == old(self).channels@.insert(channel_id@, sink),
            r == registered(old(self).channels@, channel_id@),
    {
        self.channels.insert(channel_id, sink)
    }

    /// A command says how its channel is torn down. Gives the closer that the channel had before,
    /// which is not run any more.
    pub fn register_closer(&mut self, channel_id: String, closer: u64) -> (r: Option<u64>)
        requires
            old(self).wf(),
        ensures
            final(self).wf(),
            *final(self) == (Connection { closers: final(self).closers, ..*old(self) }),
            final(self).closers@ == old(self).closers@.insert(channel_id@, closer),
            r == registered(old(self).closers@, channel_id@),
    {
        self.closers.insert(channel_id, closer)
    }

    /// Route one stream frame: the sink it is handed to, if its channel is registered. The frame
    /// that ends a channel is handed over and then deregisters it; frames of unknown channels are
    /// dropped, for the channel may be gone already.
    pub fn route_inbound_stream(&mut self, channel_id: &String, is_end: bool) -> (r: Option<u64>)
        requires
            old(self).wf(),
        ensures
            final(self).wf(),
            *final(self) == (Connection { channels: final(self).channels, ..*old(self) }),
            r == registered(old(self).channels@, channel_id@),
            final(self).channels@ == if is_end {
                old(self).channels@.remove(channel_id@)
            } else {
                old(self).channels@
            },
    {
        let sink: Option<u64> = match self.channels.get(channel_id) {
            Some(s) => Some(*s),
            None => None,
        };
        if is_end {
            let gone: Option<u64> = self.channels.remove(channel_id);
        }
        assert(self.channels@ =~= if is_end {
            old(self).channels@.remove(channel_id@)
        } else {
            old(self).channels@
        });
        sink
    }

    /// What the connection does next.
    pub fn next(&mut self, event: ConnEvent) -> (r: ConnAction)
        requires
            old(self).wf(),
            old(self).open,
        ensures
            final(self).wf(),
            *final(self) == (Connection {
                channels: final(self).channels,
                open: final(self).open,
                ..*old(self)
            }),
            final(self).open == !(r is Close || r is ReplyAndClose),
            is_answered(event, r),
            final(self).channels@ == match event {
                ConnEvent::Frame(Decoded::Stream { channel_id, is_end }) if is_end => old(
                    self,
                ).channels@.remove(channel_id@),
                _ => old(self).channels@,
            },
            match event {
                ConnEvent::Shutdown { gone, stop } => if gone || stop {
                    r is Close
                } else {
                    r is Read
                },
                ConnEvent::Frame(Decoded::Request { request_id, schema_version }) => {
                    if schema_version == old(self).schema_version {
                        r is Dispatch
                    } else {
                        r matches ConnAction::Reply(e) && e@ == version_reply(
                            request_id@,
                            schema_version,
                            old(self).schema_version,
                        )
                    }
                },
                ConnEvent::Frame(Decoded::Malformed(why)) => {
                    r matches ConnAction::Reply(e) && e@ == malformed_reply(why@)
                },
                ConnEvent::Frame(Decoded::Stream { channel_id, is_end }) => {
                    match registered(old(self).channels@, channel_id@) {
                        Some(sink) => r == (ConnAction::Deliver { sink, last: is_end }),
                        None => r is Read,
                    }
                },
                ConnEvent::Failed(FrameError::TooLarge { len, max }) => {
                    r matches ConnAction::ReplyAndClose(e) && e@ == oversized_reply(len, max)
                },
                ConnEvent::Ended | ConnEvent::Failed(FrameError::Io(_)) | ConnEvent::Unsendable =>
                r is Close,
            },
    {
        match event {
            ConnEvent::Shutdown { gone, stop } => {
                if gone || stop {
                    self.open = false;
                    ConnAction::Close
                } else {
                    ConnAction::Read
                }
            },
            ConnEvent::Frame(decoded) => {
                match decode_inbound(&decoded, self.schema_version) {
                    Inbound::Error(e) => ConnAction::Reply(e),
                    Inbound::Request => ConnAction::Dispatch,
                    Inbound::Stream => {
                        if let Decoded::Stream { channel_id, is_end } = decoded {
                            match self.route_inbound_stream(&channel_id, is_end) {
                                Some(sink) => ConnAction::Deliver { sink, last: is_end },
                                None => ConnAction::Read,
                            }
                        } else {
                            ConnAction::Read
                        }
                    },
                }
            },
            ConnEvent::Ended => {
                self.open = false;
                ConnAction::Close
            },
            ConnEvent::Failed(FrameError::TooLarge { len, max }) => {
                self.open = false;
                ConnAction::ReplyAndClose(
                    ErrorReply {
                        request_id: "unknown".to_owned(),
                        code: ErrorCode::FrameTooLarge,
                        message: frame::too_large(len, max),
                    },
                )
            },
            ConnEvent::Failed(FrameError::Io(_)) => {
                self.open = false;
                ConnAction::Close
            },
            ConnEvent::Unsendable => {
                self.open = false;
                ConnAction::Close
            },
        }
    }

    /// The connection ended: every closer that was registered is to be run, and nothing stays
    /// registered.
    pub fn teardown(&mut self) -> (r: Vec<u64>)
        requires
            old(self).wf(),
        ensures
            final(self).wf(),
            !final(self).open,
            final(self).channels@ == Map::<Seq<char>, u64>::empty(),
            final(self).closers@ == Map::<Seq<char>, u64>::empty(),
            final(self).max_frame_bytes == old(self).max_frame_bytes,
            final(self).schema_version == old(self).schema_version,
            r@ == old(self).closers.values@,
    {
        let mut closers: SortedMap<String, u64> = SortedMap::new();
        std::mem::swap(&mut closers, &mut self.closers);
        self.channels = SortedMap::new();
        self.open = false;
        closers.values
    }
}

/// A connection that ends leaves nothing behind: each closer that was registered is run.
pub proof fn law_every_closer_runs(conn: Connection, channel: Seq<char>, run: Seq<u64>)
    requires
        conn.wf(),
        conn.closers@.dom().contains(channel),
        run == conn.closers.values@,
    ensures
        run.contains(conn.closers@[channel]),
        run.len() == conn.closers.keys@.len(),
{
    let i = order::spot(conn.closers.keys@, channel);
    conn.closers.lemma_entry(i);
    assert(run[i] == conn.closers@[channel]);
}

/// What stands at the path of the control socket.
#[derive(Debug)]
pub enum SocketPath {
    /// Nothing.
    Nothing,
    /// A socket that something listens on.
    Listening,
    /// A socket that nothing listens on.
    Stale,
    /// Something that is no socket.
    Occupied,
    /// It cannot be told: why.
    Unreadable(String),
}

/// Why a socket path cannot be used.
#[derive(Debug)]
pub enum SocketError {
    /// Something listens there.
    InUse,
    /// Something that is no socket is there.
    Exists,
    /// An I/O error.
    Io(String),
}

impl SocketError {
    /// What the error says.
    pub open spec fn says(&self) -> Seq<char> {
        match self {
            SocketError::InUse => "another process is listening on the control socket"@,
            SocketError::Exists => "control socket path is occupied by a non-socket file"@,
            SocketError::Io(e) => e@,
        }
    }

    /// What the error says.
    pub fn message(&self) -> (r: String)
        ensures
            r@ == self.says(),
    {
        match self {
            SocketError::InUse => "another process is listening on the control socket".to_owned(),
            SocketError::Exists => "control socket path is occupied by a non-socket file".to_owned(),
            SocketError::Io(e) => e.clone(),
        }
    }
}

/// How a socket path is prepared.
#[derive(Debug, Clone, Copy, PartialEq, Eq, Structural)]
pub struct SocketSteps {
    /// Remove the stale socket.
    pub remove: bool,
    /// Create the directory above.
    pub make_parent: bool,
}

/// Prepare a socket path: a stale socket goes, but a socket in use and any other file stay.
pub fn prepare_socket_path(path: &FsPath, found: &SocketPath) -> (r: Result<SocketSteps, SocketError>)
    ensures
        match found {
            SocketPath::Nothing | SocketPath::Stale => match r {
                Ok(steps) => {
                    &&& steps.remove == (found is Stale)
                    &&& steps.make_parent == match FsPath::parent_model(path@) {
                        Some(p) => p.absolute || p.parts.len() > 0,
                        None => false,
                    }
                },
                Err(_) => false,
            },
            SocketPath::Listening => r matches Err(SocketError::InUse),
            SocketPath::Occupied => r matches Err(SocketError::Exists),
            SocketPath::Unreadable(why) => r matches Err(SocketError::Io(e)) && e@ == why@,
        },
{
    let n: usize = path.parts.len();
    let make_parent: bool = n > 1 || (n == 1 && path.absolute);
    match found {
        SocketPath::Nothing => Ok(SocketSteps { remove: false, make_parent }),
        SocketPath::Stale => Ok(SocketSteps { remove: true, make_parent }),
        SocketPath::Listening => Err(SocketError::InUse),
        SocketPath::Occupied => Err(SocketError::Exists),
        SocketPath::Unreadable(why) => Err(SocketError::Io(why.clone())),
    }
}

/// Something that happened to a listener.
#[derive(Debug, Clone, Copy, PartialEq, Eq, Structural)]
pub enum ListenEvent {
    /// The shutdown signal changed: whether its sender is gone, and what it says now.
    Shutdown {
        /// The sender is gone.
        gone: bool,
        /// Shut down.
        stop: bool,
    },
    /// A connection ended.
    Ended,
    /// A peer connected; whether it may.
    Accepted {
        /// The peer is authorized.
        authorized: bool,
    },
    /// Accepting failed.
    Failed,
    /// The time that connections get to unwind is over.
    GraceOver,
}

/// What a listener does next.
#[derive(Debug, Clone, Copy, PartialEq, Eq, Structural)]
pub enum ListenAction {
    /// Accept on.
    Accept,
    /// Serve the peer, accept on.
    Serve,
    /// Drop the peer, accept on.
    Refuse,
    /// Accept no more, and wait for the connections to end.
    Drain,
    /// Abort what is left, and end.
    Finish,
}

/// A listener's connections.
#[derive(Debug, Clone, Copy, PartialEq, Eq, Structural)]
pub struct Listener {
    /// The most connections at a time; none is no limit.
    pub limit: Option<usize>,
    /// The connections now.
    pub live: usize,
    /// Accepts no more.
    pub draining: bool,
}

impl Listener {
    /// No more connections than allowed.
    pub open spec fn wf(&self) -> bool {
        self.limit matches Some(max) ==> self.live <= max
    }

    /// Whether there is room for one more connection.
    pub open spec fn has_room(&self) -> bool {
        match self.limit {
            Some(max) => self.live < max,
            None => self.live < usize::MAX,
        }
    }

    /// A listener with no connections.
    pub fn new(limit: Option<usize>) -> (r: Self)
        ensures
            r.wf(),
            r == (Listener { limit, live: 0, draining: false }),
    {
        Listener { limit, live: 0, draining: false }
    }

    /// What the listener does next. While it accepts, an authorized peer is served as long as
    /// there is room. Once it drains, nobody is, and it ends when the last connection does or its
    /// time is over.
    pub fn next(&mut self, event: ListenEvent) -> (r: ListenAction)
        requires
            old(self).wf(),
        ensures
            final(self).wf(),
            final(self).limit == old(self).limit,
            final(self).live == match event {
                ListenEvent::Ended if old(self).live > 0 => old(self).live - 1,
                ListenEvent::Accepted { .. } if r is Serve => old(self).live + 1,
                _ => old(self).live as int,
            },
            final(self).draining == (old(self).draining || r is Drain || r is Finish),
            r == match event {
                ListenEvent::Shutdown { gone, stop } => if old(self).draining || !(gone || stop) {
                    if old(self).draining {
                        ListenAction::Drain
                    } else {
                        ListenAction::Accept
                    }
                } else if old(self).live == 0 {
                    ListenAction::Finish
                } else {
                    ListenAction::Drain
                },
                ListenEvent::Ended => if !old(self).draining {
                    ListenAction::Accept
                } else if old(self).live <= 1 {
                    ListenAction::Finish
                } else {
                    ListenAction::Drain
                },
                ListenEvent::Accepted { authorized } => if authorized && !old(self).draining
                    && old(self).has_room() {
                    ListenAction::Serve
                } else {
                    ListenAction::Refuse
                },
                ListenEvent::Failed => if old(self).draining {
                    ListenAction::Drain
                } else {
                    ListenAction::Accept
                },
                ListenEvent::GraceOver => if old(self).draining {
                    ListenAction::Finish
                } else {
                    ListenAction::Accept
                },
            },
    {
        let going: ListenAction = if self.draining {
            ListenAction::Drain
        } else {
            ListenAction::Accept
        };
        match event {
            ListenEvent::Shutdown { gone, stop } => {
                if self.draining || !(gone || stop) {
                    return going;
                }
                self.draining = true;
                if self.live == 0 {
                    ListenAction::Finish
                } else {
                    ListenAction::Drain
                }
            },
            ListenEvent::Ended => {
                let last: bool = self.live <= 1;
                if self.live > 0 {
                    self.live = self.live - 1;
                }
                if self.draining && last {
                    ListenAction::Finish
                } else {
                    going
                }
            },
            ListenEvent::Accepted { authorized } => {
                let room: bool = match self.limit {
                    Some(max) => self.live < max,
                    None => self.live < usize::MAX,
                };
                if authorized && !self.draining && room {
                    self.live = self.live + 1;
                    ListenAction::Serve
                } else {
                    ListenAction::Refuse
                }
            },
            ListenEvent::Failed => going,
            ListenEvent::GraceOver => {
                if self.draining {
                    ListenAction::Finish
                } else {
                    going
                }
            },
        }
    }
}

/// Every request gets an answer: it is dispatched if it speaks the expected version, and otherwise
/// told so under its own id; what cannot be read is told so too, and the connection goes on.
pub proof fn law_every_request_is_answered(
    conn: &mut Connection,
    request_id: String,
    version: u32,
    action: ConnAction,
    other: &mut Connection,
    why: String,
    told: ConnAction,
    decoded: Decoded,
    inbound: Inbound,
)
    requires
        old(conn).wf(),
        old(conn).open,
        call_ensures(
            Connection::next,
            (
                conn,
                ConnEvent::Frame(Decoded::Request { request_id, schema_version: version }),
            ),
            action,
        ),
        old(other).wf(),
        old(other).open,
        call_ensures(
            Connection::next,
            (other, ConnEvent::Frame(Decoded::Malformed(why))),
            told,
        ),
        decoded == (Decoded::Request { request_id, schema_version: version }),
        call_ensures(decode_inbound, (&decoded, old(conn).schema_version), inbound),
    ensures
        version == old(conn).schema_version <==> action is Dispatch,
        version != old(conn).schema_version ==> (action matches ConnAction::Reply(e)
            && e.request_id@ == request_id@ && e.code == ErrorCode::UnsupportedVersion),
        inbound is Request <==> action is Dispatch,
        told matches ConnAction::Reply(e) && e.code == ErrorCode::InvalidMessage && e.message@
            == why@,
        final(conn).open && final(other).open,
        final(conn).channels@ == old(conn).channels@,
{
}

/// A connection ends when the server shuts down, its peer goes, a frame fails or nothing can be sent;
/// an oversized frame is answered first. Nothing else ends it.
pub proof fn law_a_connection_ends_only_where_it_must(
    conn: &mut Connection,
    event: ConnEvent,
    action: ConnAction,
)
    requires
        old(conn).wf(),
        old(conn).open,
        call_ensures(Connection::next, (conn, event), action),
    ensures
        final(conn).open <==> event is Frame || event == (ConnEvent::Shutdown {
            gone: false,
            stop: false,
        }),
        event is Ended || event is Unsendable ==> action is Close,
        event matches ConnEvent::Failed(e) ==> (if e is TooLarge {
            action matches ConnAction::ReplyAndClose(r) && r.code == ErrorCode::FrameTooLarge
        } else {
            action is Close
        }),
        event matches ConnEvent::Shutdown { gone, stop } ==> (gone || stop <==> action is Close),
        final(conn).closers == old(conn).closers,
{
}

/// Stream frames reach the sink that was registered last for their channel, in both senses: until
/// its end the channel stays, with its end it goes, and no other channel is touched. A frame of an
/// unknown channel is passed over.
pub proof fn law_stream_frames_reach_their_channel(
    conn: &mut Connection,
    channel: String,
    sink: u64,
    earlier: Option<u64>,
    streams: &mut Connection,
    name: String,
    is_end: bool,
    action: ConnAction,
    again: &mut Connection,
    later: ConnAction,
    other: Seq<char>,
)
    requires
        old(conn).wf(),
        old(conn).open,
        call_ensures(Connection::register_channel, (conn, channel, sink), earlier),
        *old(streams) == *final(conn),
        name@ == channel@,
        call_ensures(
            Connection::next,
            (streams, ConnEvent::Frame(Decoded::Stream { channel_id: name, is_end })),
            action,
        ),
        *old(again) == *final(streams),
        call_ensures(
            Connection::next,
            (again, ConnEvent::Frame(Decoded::Stream { channel_id: name, is_end: false })),
            later,
        ),
        other != channel@,
    ensures
        action == (ConnAction::Deliver { sink, last: is_end }),
        is_end ==> later is Read,
        !is_end ==> later == (ConnAction::Deliver { sink, last: false }),
        final(streams).channels@.dom().contains(other) <==> old(conn).channels@.dom().contains(
            other,
        ),
        old(conn).channels@.dom().contains(other) ==> final(streams).channels@[other] == old(conn).channels@[other],
        earlier is Some <==> old(conn).channels@.dom().contains(channel@),
{
}

/// The same of a frame that is routed by itself.
pub proof fn law_a_routed_frame_reaches_its_channel(
    conn: &mut Connection,
    channel: String,
    sink: u64,
    earlier: Option<u64>,
    routes: &mut Connection,
    name: String,
    is_end: bool,
    r: Option<u64>,
    again: &mut Connection,
    later: Option<u64>,
)
    requires
        old(conn).wf(),
        call_ensures(Connection::register_channel, (conn, channel, sink), earlier),
        *old(routes) == *final(conn),
        name@ == channel@,
        call_ensures(Connection::route_inbound_stream, (routes, &name, is_end), r),
        *old(again) == *final(routes),
        call_ensures(Connection::route_inbound_stream, (again, &name, false), later),
    ensures
        r == Some(sink),
        later == if is_end {
            None::<u64>
        } else {
            Some(sink)
        },
{
}

/// A connection that ends runs the closer of every channel that has one, once, and keeps nothing.
pub proof fn law_a_connection_leaves_nothing_behind(
    conn: &mut Connection,
    channel: String,
    closer: u64,
    earlier: Option<u64>,
    ends: &mut Connection,
    run: Vec<u64>,
    again: &mut Connection,
    none: Vec<u64>,
)
    requires
        old(conn).wf(),
        call_ensures(Connection::register_closer, (conn, channel, closer), earlier),
        *old(ends) == *final(conn),
        call_ensures(Connection::teardown, (ends,), run),
        *old(again) == *final(ends),
        call_ensures(Connection::teardown, (again,), none),
    ensures
        run@.contains(closer),
        run@.len() == final(conn).closers.keys@.len(),
        !final(ends).open,
        final(ends).channels@.dom() == Set::<Seq<char>>::empty(),
        none@.len() == 0,
{
    let c = *final(conn);
    law_every_closer_runs(c, channel@, c.closers.values@);
    let e = *final(ends);
    if e.closers.keys@.len() > 0 {
        e.closers.lemma_entry(0);
        assert(e.closers@.dom().contains(e.closers.keys@[0]@));
    }
}

/// A fresh connection is open and has no channel.
pub proof fn law_a_fresh_connection_is_empty(max: u32, version: u32, r: Connection)
    requires
        call_ensures(Connection::new, (max, version), r),
    ensures
        r.open && r.max_frame_bytes == max && r.schema_version == version,
        r.channels@.dom() == Set::<Seq<char>>::empty(),
        r.closers@.dom() == Set::<Seq<char>>::empty(),
{
}

/// A socket path is taken over only from a server that is gone: a live one and a file that is no
/// socket are left alone.
pub proof fn law_a_live_socket_is_never_taken(
    path: FsPath,
    found: SocketPath,
    r: Result<SocketSteps, SocketError>,
)
    requires
        call_ensures(prepare_socket_path, (&path, &found), r),
    ensures
        found is Listening ==> r is Err && r->Err_0 is InUse,
        found is Occupied ==> r is Err && r->Err_0 is Exists,
        found is Unreadable ==> r is Err,
        found is Nothing ==> r is Ok && !r->Ok_0.remove,
        found is Stale ==> r is Ok && r->Ok_0.remove,
        r is Ok && path@.parts.len() > 1 ==> r->Ok_0.make_parent,
{
}

/// A listener serves as many connections as its limit allows, only authorized ones, and none once it
/// shuts down; a connection that ends makes room for another.
pub proof fn law_a_listener_keeps_its_limit(
    limit: Option<usize>,
    fresh: Listener,
    listener: &mut Listener,
    authorized: bool,
    action: ListenAction,
    ends: &mut Listener,
    then: ListenAction,
)
    requires
        call_ensures(Listener::new, (limit,), fresh),
        old(listener).wf(),
        call_ensures(Listener::next, (listener, ListenEvent::Accepted { authorized }), action),
        *old(ends) == *final(listener),
        call_ensures(Listener::next, (ends, ListenEvent::Ended), then),
    ensures
        fresh.live == 0 && !fresh.draining && fresh.limit == limit,
        !authorized ==> action is Refuse,
        old(listener).draining ==> action is Refuse,
        old(listener).limit matches Some(max) ==> (old(listener).live >= max ==> action is Refuse),
        authorized && !old(listener).draining && (match old(listener).limit {
            Some(max) => old(listener).live < max,
            None => old(listener).live < usize::MAX,
        }) ==> action is Serve,
        final(listener).live == old(listener).live + if action is Serve {
            1int
        } else {
            0int
        },
        action is Serve ==> final(ends).live == old(listener).live,
        final(listener).limit == old(listener).limit,
        !old(listener).draining ==> then is Accept,
{
}

/// A listener that is told to stop accepts no more, waits for the connections that are left, and is
/// done when the last one ended or the grace is over.
pub proof fn law_a_stopping_listener_drains(
    listener: &mut Listener,
    gone: bool,
    action: ListenAction,
    ends: &mut Listener,
    ended: ListenAction,
    times: &mut Listener,
    over: ListenAction,
    fails: &mut Listener,
    failed: ListenAction,
    idle: &mut Listener,
    idles: ListenAction,
)
    requires
        old(listener).wf(),
        !old(listener).draining,
        call_ensures(Listener::next, (listener, ListenEvent::Shutdown { gone, stop: true }), action),
        *old(ends) == *final(listener),
        call_ensures(Listener::next, (ends, ListenEvent::Ended), ended),
        *old(times) == *final(listener),
        call_ensures(Listener::next, (times, ListenEvent::GraceOver), over),
        *old(fails) == *old(listener),
        call_ensures(Listener::next, (fails, ListenEvent::Failed), failed),
        *old(idle) == *old(listener),
        call_ensures(
            Listener::next,
            (idle, ListenEvent::Shutdown { gone: false, stop: false }),
            idles,
        ),
    ensures
        action == if old(listener).live == 0 {
            ListenAction::Finish
        } else {
            ListenAction::Drain
        },
        final(listener).draining,
        old(listener).live == 1 ==> ended is Finish,
        old(listener).live > 1 ==> ended is Drain,
        over is Finish,
        failed is Accept && *final(fails) == *old(fails),
        idles is Accept && *final(idle) == *old(idle),
{
}

} // verus!
