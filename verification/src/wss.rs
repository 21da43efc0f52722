//! Secure WebSocket control frontend: configuration and decisions.
//!
//! A third frontend beside the Unix socket and stdio, for deployments where the controller and the
//! workspace are on different hosts. It is off unless configured. Peers authenticate with client
//! certificates; the upgrade must name exactly [`CONTROL_PATH`]; connections, the handshake and the
//! size of a message are bounded. Binary messages carry the same length-prefixed frames that the
//! other frontends carry.

use vstd::prelude::*;
use vstd::string::*;
use crate::address;
use crate::address::SocketAddress;
use crate::frame::LENGTH_PREFIX_BYTES;
use crate::order;
use crate::text;

verus! {

/// The only path the frontend accepts an upgrade on.
pub const CONTROL_PATH: &'static str = "/control";

/// Default cap on concurrently open (or handshaking) connections.
pub const DEFAULT_MAX_CONNECTIONS: usize = 64;

/// Default TLS and WebSocket handshake deadline, in nanoseconds.
pub const DEFAULT_HANDSHAKE_TIMEOUT: u64 = 10_000_000_000;

/// Outbound coalescing buffer: one message per frame for bodies that fit, and a handful for larger
/// ones.
pub const WRITE_BUFFER_BYTES: usize = 65_536;

/// What the daemon needs to open the frontend. Paths are read once at bind time.
#[derive(Debug)]
pub struct WssConfig {
    /// Address to bind.
    pub listen: SocketAddress,
    /// PEM server certificate chain (leaf first).
    pub cert_path: String,
    /// PEM private key for the leaf certificate.
    pub key_path: String,
    /// PEM bundle of CA certificates trusted to sign client certificates.
    pub client_ca_path: String,
    /// Cap on connections at a time.
    pub max_connections: usize,
    /// Handshake deadline, in nanoseconds.
    pub handshake_timeout: u64,
}

/// A setting that was given: its text without the white space around it, unless nothing is left.
pub open spec fn given(s: Option<&str>) -> Option<Seq<char>> {
    match s {
        Some(t) => if text::stripped(t@).len() > 0 {
            Some(text::stripped(t@))
        } else {
            None
        },
        None => None,
    }
}

fn setting(s: Option<&str>) -> (r: Option<&str>)
    ensures
        match r {
            Some(t) => given(s) == Some(t@),
            None => given(s) is None,
        },
{
    match s {
        Some(t) => {
            let t: &str = text::trim(t);
            if t.unicode_len() > 0 {
                Some(t)
            } else {
                None
            }
        },
        None => None,
    }
}

/// How many connections a setting allows; none if it is no positive number that fits.
pub open spec fn connections(s: Seq<char>) -> Option<nat> {
    match text::numeral(s) {
        Some(n) if 0 < n <= usize::MAX => Some(n),
        _ => None,
    }
}

/// The first thing that is wrong with a configuration whose listen address is given as `listen`.
pub open spec fn complaint(
    listen: Seq<char>,
    cert_path: Option<&str>,
    key_path: Option<&str>,
    client_ca_path: Option<&str>,
    max_connections: Option<&str>,
) -> Option<Seq<char>> {
    if address::socket(listen) is None {
        Some("wss listen address '"@ + listen + "' is invalid: invalid socket address syntax"@)
    } else if given(cert_path) is None {
        Some(missing("the server certificate path"@))
    } else if given(key_path) is None {
        Some(missing("the server key path"@))
    } else if given(client_ca_path) is None {
        Some(missing("the client CA path"@))
    } else {
        match given(max_connections) {
            Some(raw) if connections(raw) is None => Some(
                "wss max connections '"@ + raw + "' must be a positive integer"@,
            ),
            _ => None,
        }
    }
}

/// How a missing setting is reported.
pub open spec fn missing(what: Seq<char>) -> Seq<char> {
    "wss is enabled but "@ + what + " is not set"@
}

fn not_set(what: &str) -> (r: String)
    ensures
        r@ == missing(what@),
{
    let mut out: String = "wss is enabled but ".to_owned();
    out.append(what);
    out.append(" is not set");
    out
}

impl WssConfig {
    /// Config with default limits.
    pub fn new(listen: SocketAddress, cert_path: &str, key_path: &str, client_ca_path: &str) -> (r:
        Self)
        ensures
            r.listen == listen,
            r.cert_path@ == cert_path@,
            r.key_path@ == key_path@,
            r.client_ca_path@ == client_ca_path@,
            r.max_connections == DEFAULT_MAX_CONNECTIONS,
            r.handshake_timeout == DEFAULT_HANDSHAKE_TIMEOUT,
    {
        WssConfig {
            listen,
            cert_path: cert_path.to_owned(),
            key_path: key_path.to_owned(),
            client_ca_path: client_ca_path.to_owned(),
            max_connections: DEFAULT_MAX_CONNECTIONS,
            handshake_timeout: DEFAULT_HANDSHAKE_TIMEOUT,
        }
    }

    /// Parse the operator-facing string form. `None` when `listen` is absent (the frontend stays
    /// off); an error when it is present but incomplete or malformed. Messages name settings, never
    /// values beyond the listen address and the connection limit.
    pub fn from_parts(
        listen: Option<&str>,
        cert_path: Option<&str>,
        key_path: Option<&str>,
        client_ca_path: Option<&str>,
        max_connections: Option<&str>,
    ) -> (r: Result<Option<Self>, String>)
        ensures
            match given(listen) {
                None => r matches Ok(None),
                Some(at) => match complaint(
                    at,
                    cert_path,
                    key_path,
                    client_ca_path,
                    max_connections,
                ) {
                    Some(why) => r matches Err(e) && e@ == why,
                    None => {
                        &&& r matches Ok(Some(c))
                        &&& address::socket(at) == Some((c.listen.host@, c.listen.number as nat))
                        &&& Some(c.cert_path@) == given(cert_path)
                        &&& Some(c.key_path@) == given(key_path)
                        &&& Some(c.client_ca_path@) == given(client_ca_path)
                        &&& c.max_connections == match given(max_connections) {
                            Some(raw) => connections(raw)->0,
                            None => DEFAULT_MAX_CONNECTIONS as nat,
                        }
                        &&& c.max_connections > 0
                        &&& c.handshake_timeout == DEFAULT_HANDSHAKE_TIMEOUT
                    },
                },
            },
    {
        let at: &str = match setting(listen) {
            Some(at) => at,
            None => {
                return Ok(None);
            },
        };
        let socket: SocketAddress = match address::read_socket(at) {
            Some(s) => s,
            None => {
                let mut why: String = "wss listen address '".to_owned();
                why.append(at);
                why.append("' is invalid: invalid socket address syntax");
                return Err(why);
            },
        };
        let cert: &str = match setting(cert_path) {
            Some(p) => p,
            None => {
                return Err(not_set("the server certificate path"));
            },
        };
        let key: &str = match setting(key_path) {
            Some(p) => p,
            None => {
                return Err(not_set("the server key path"));
            },
        };
        let ca: &str = match setting(client_ca_path) {
            Some(p) => p,
            None => {
                return Err(not_set("the client CA path"));
            },
        };
        let mut config: WssConfig = WssConfig::new(socket, cert, key, ca);
        if let Some(raw) = setting(max_connections) {
            match text::parse_u64(raw) {
                Some(n) if n > 0 && n <= usize::MAX as u64 => {
                    config.max_connections = n as usize;
                },
                _ => {
                    let mut why: String = "wss max connections '".to_owned();
                    why.append(raw);
                    why.append("' must be a positive integer");
                    return Err(why);
                },
            }
        }
        Ok(Some(config))
    }

    /// Whether the frontend can be bound at all: it must allow one connection at least.
    pub fn check(&self) -> (r: Result<(), String>)
        ensures
            match r {
                Ok(()) => self.max_connections > 0,
                Err(e) => self.max_connections == 0 && e@
                    == "wss max_connections must be at least 1"@,
            },
    {
        if self.max_connections == 0 {
            return Err("wss max_connections must be at least 1".to_owned());
        }
        Ok(())
    }
}

/// The certificates of a PEM bundle as DER, in order, or why it cannot be read.
pub uninterp spec fn pem_certificates(pem: Seq<u8>) -> Result<Seq<Seq<u8>>, Seq<char>>;

/// Calls `rustls_pemfile::certs` and collects what it yields, up to its first error. Claims that
/// the result depends on the bytes alone, under the name [`pem_certificates`]; what PEM is, is not
/// stated.
#[verifier::external_body]
fn parse_certificates(pem: &[u8]) -> (r: Result<Vec<Vec<u8>>, String>)
    ensures
        match (r, pem_certificates(pem@)) {
            (Ok(c), Ok(m)) => order::views(c@) == m,
            (Err(e), Err(m)) => e@ == m,
            _ => false,
        },
{
    let mut rest: &[u8] = pem;
    rustls_pemfile::certs(&mut rest)
        .map(|c| c.map(|c| c.as_ref().to_vec()).map_err(|e| e.to_string()))
        .collect()
}

/// The first private key of a PEM bundle as DER, if it has one, or why it cannot be read.
pub uninterp spec fn pem_private_key(pem: Seq<u8>) -> Result<Option<Seq<u8>>, Seq<char>>;

/// Calls `rustls_pemfile::private_key`. Claims that the result depends on the bytes alone, under
/// the name [`pem_private_key`]; what PEM is, is not stated.
#[verifier::external_body]
fn parse_private_key(pem: &[u8]) -> (r: Result<Option<Vec<u8>>, String>)
    ensures
        match (r, pem_private_key(pem@)) {
            (Ok(Some(k)), Ok(Some(m))) => k@ == m,
            (Ok(None), Ok(None)) => true,
            (Err(e), Err(m)) => e@ == m,
            _ => false,
        },
{
    let mut rest: &[u8] = pem;
    rustls_pemfile::private_key(&mut rest)
        .map(|k| k.map(|k| k.secret_der().to_vec()))
        .map_err(|e| e.to_string())
}

/// What is said of a file that cannot be used.
pub open spec fn fault(what: Seq<char>, path: Seq<char>, why: Seq<char>) -> Seq<char> {
    what + " "@ + path + ": "@ + why
}

/// What is said of a file in which something is missing.
pub open spec fn lacks(what: Seq<char>, path: Seq<char>, thing: Seq<char>) -> Seq<char> {
    what + " "@ + path + " contains no "@ + thing
}

fn file_fault(what: &str, path: &str, why: &str) -> (r: String)
    ensures
        r@ == fault(what@, path@, why@),
{
    let mut out: String = what.to_owned();
    out.append(" ");
    out.append(path);
    out.append(": ");
    out.append(why);
    out
}

fn file_lacks(what: &str, path: &str, thing: &str) -> (r: String)
    ensures
        r@ == lacks(what@, path@, thing@),
{
    let mut out: String = what.to_owned();
    out.append(" ");
    out.append(path);
    out.append(" contains no ");
    out.append(thing);
    out
}

/// The certificates that were found in a file: one at least.
pub fn judge_certificates(found: Result<Vec<Vec<u8>>, String>, path: &str, what: &str) -> (r: Result<
    Vec<Vec<u8>>,
    String,
>)
    ensures
        match found {
            Ok(certs) => if certs@.len() > 0 {
                r matches Ok(c) && c@ == certs@
            } else {
                r matches Err(e) && e@ == lacks(what@, path@, "certificates"@)
            },
            Err(why) => r matches Err(e) && e@ == fault(what@, path@, why@),
        },
{
    match found {
        Ok(certs) => if certs.len() > 0 {
            Ok(certs)
        } else {
            Err(file_lacks(what, path, "certificates"))
        },
        Err(why) => Err(file_fault(what, path, why.as_str())),
    }
}

/// The certificates of the file at `path`, whose content is `pem`.
pub fn read_pem_certs(pem: &[u8], path: &str, what: &str) -> (r: Result<Vec<Vec<u8>>, String>)
    ensures
        match pem_certificates(pem@) {
            Ok(certs) => if certs.len() > 0 {
                r matches Ok(c) && order::views(c@) == certs
            } else {
                r matches Err(e) && e@ == lacks(what@, path@, "certificates"@)
            },
            Err(why) => r matches Err(e) && e@ == fault(what@, path@, why),
        },
{
    judge_certificates(parse_certificates(pem), path, what)
}

/// The private key that was found in a file.
pub fn judge_private_key(found: Result<Option<Vec<u8>>, String>, path: &str) -> (r: Result<
    Vec<u8>,
    String,
>)
    ensures
        match found {
            Ok(Some(key)) => r matches Ok(k) && k@ == key@,
            Ok(None) => r matches Err(e) && e@ == lacks("wss key"@, path@, "private key"@),
            Err(why) => r matches Err(e) && e@ == fault("wss key"@, path@, why@),
        },
{
    match found {
        Ok(Some(key)) => Ok(key),
        Ok(None) => Err(file_lacks("wss key", path, "private key")),
        Err(why) => Err(file_fault("wss key", path, why.as_str())),
    }
}

/// The private key of the file at `path`, whose content is `pem`.
pub fn read_pem_key(pem: &[u8], path: &str) -> (r: Result<Vec<u8>, String>)
    ensures
        match pem_private_key(pem@) {
            Ok(Some(key)) => r matches Ok(k) && k@ == key,
            Ok(None) => r matches Err(e) && e@ == lacks("wss key"@, path@, "private key"@),
            Err(why) => r matches Err(e) && e@ == fault("wss key"@, path@, why),
        },
{
    judge_private_key(parse_private_key(pem), path)
}

/// The largest WebSocket message: one frame and its length.
pub fn max_message(max_frame_bytes: u32) -> (r: usize)
    requires
        max_frame_bytes + LENGTH_PREFIX_BYTES <= usize::MAX,
    ensures
        r == max_frame_bytes + LENGTH_PREFIX_BYTES,
{
    max_frame_bytes as usize + LENGTH_PREFIX_BYTES
}

/// Whether an upgrade to this path is accepted; any other is answered with `404`.
pub fn accepts_upgrade(path: &str) -> (r: bool)
    ensures
        r == (path@ == CONTROL_PATH@),
{
    text::str_eq(path, CONTROL_PATH)
}

/// What a WebSocket yielded.
#[derive(Debug)]
pub enum SocketMessage {
    /// A binary message: bytes of the frame stream.
    Binary(Vec<u8>),
    /// A text message or a control frame; pings are answered elsewhere.
    Other,
    /// A close.
    Close,
    /// The connection is closed.
    Closed,
    /// A transport error.
    Failed(String),
}

/// The bytes for the frame reader. Binary messages carry them; a transport error ends the stream as
/// an error; anything else carries nothing.
pub fn message_to_bytes(message: SocketMessage) -> (r: Option<Result<Vec<u8>, String>>)
    ensures
        r == match message {
            SocketMessage::Binary(bytes) => Some(Ok::<Vec<u8>, String>(bytes)),
            SocketMessage::Failed(e) => Some(Err(e)),
            _ => None,
        },
{
    match message {
        SocketMessage::Binary(bytes) => Some(Ok(bytes)),
        SocketMessage::Failed(e) => Some(Err(e)),
        SocketMessage::Other | SocketMessage::Close | SocketMessage::Closed => None,
    }
}

/// A listener is set up only where an address is given, and then only with everything that TLS on
/// both sides needs: a certificate, its key and the client CA; nothing is made up in their place.
pub proof fn law_wss_needs_certificates(
    listen: Option<&str>,
    cert: Option<&str>,
    key: Option<&str>,
    ca: Option<&str>,
    max: Option<&str>,
    r: Result<Option<WssConfig>, String>,
)
    requires
        call_ensures(WssConfig::from_parts, (listen, cert, key, ca, max), r),
    ensures
        listen is None ==> r matches Ok(None),
        listen is Some && text::stripped(listen->0@).len() == 0 ==> r matches Ok(None),
        listen is Some && text::stripped(listen->0@).len() > 0 ==> !(r matches Ok(None)),
        listen is Some && text::stripped(listen->0@).len() > 0 && (cert is None || key is None
            || ca is None) ==> r is Err,
        r matches Ok(Some(c)) ==> {
            &&& cert is Some && c.cert_path@ == text::stripped(cert->0@) && c.cert_path@.len() > 0
            &&& key is Some && c.key_path@ == text::stripped(key->0@) && c.key_path@.len() > 0
            &&& ca is Some && c.client_ca_path@ == text::stripped(ca->0@)
                && c.client_ca_path@.len() > 0
            &&& c.max_connections > 0
            &&& max is None ==> c.max_connections == 64
            &&& c.handshake_timeout == 10_000_000_000
            &&& max is Some && text::stripped(max->0@).len() > 0 ==> text::numeral(
                text::stripped(max->0@),
            ) == Some(c.max_connections as nat)
        },
        listen is Some && text::stripped(listen->0@).len() > 0 && max is Some && text::stripped(
            max->0@,
        ).len() > 0 && (text::numeral(text::stripped(max->0@)) is None || text::numeral(
            text::stripped(max->0@),
        ) == Some(0nat)) ==> r is Err,
        listen is Some && address::socket(text::stripped(listen->0@)) is None && text::stripped(
            listen->0@,
        ).len() > 0 ==> r is Err,
{
}

/// Only binary messages carry bytes, a failure is passed on, and nothing else counts; only the
/// control path is upgraded, and a message may hold one frame of the maximum with its length.
pub proof fn law_only_binary_messages_carry_bytes(
    message: SocketMessage,
    r: Option<Result<Vec<u8>, String>>,
    path: &str,
    upgrades: bool,
    max_frame: u32,
    max: usize,
)
    requires
        call_ensures(message_to_bytes, (message,), r),
        call_ensures(accepts_upgrade, (path,), upgrades),
        max_frame + 4 <= usize::MAX,
        call_ensures(max_message, (max_frame,), max),
    ensures
        message matches SocketMessage::Binary(b) ==> r == Some(Ok::<Vec<u8>, String>(b)),
        message matches SocketMessage::Failed(e) ==> r == Some(Err::<Vec<u8>, String>(e)),
        message is Other || message is Close || message is Closed ==> r is None,
        upgrades <==> path@ == "/control"@,
        max == max_frame + 4,
{
}

/// Certificates and keys that cannot be read, or are not there, are errors; what is there is taken
/// whole.
pub proof fn law_missing_pem_is_an_error(
    found: Result<Vec<Vec<u8>>, String>,
    path: &str,
    what: &str,
    certs: Result<Vec<Vec<u8>>, String>,
    key: Result<Option<Vec<u8>>, String>,
    read: Result<Vec<u8>, String>,
    config: WssConfig,
    checked: Result<(), String>,
)
    requires
        call_ensures(judge_certificates, (found, path, what), certs),
        call_ensures(judge_private_key, (key, path), read),
        call_ensures(WssConfig::check, (&config,), checked),
    ensures
        certs is Ok <==> found is Ok && found->Ok_0@.len() > 0,
        certs is Ok ==> certs->Ok_0@ == found->Ok_0@,
        read is Ok <==> key is Ok && key->Ok_0 is Some,
        read is Ok ==> read->Ok_0@ == key->Ok_0->0@,
        checked is Ok <==> config.max_connections > 0,
{
}

} // verus!
