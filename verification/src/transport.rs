//! Transport policy for the two outbound HTTP paths of a capture session: the session channel and
//! presigned object URLs.
//!
//! The channel carries the session token and answers with the URLs every capture is shipped to, so
//! whoever can read or answer it holds the session. The policy therefore fails closed: a URL is
//! dialled only over HTTPS with a verified certificate, unless it names this machine's loopback or
//! the launcher said in so many words that the network between the executor and the channel is
//! private. Nothing here can turn certificate verification off.

use vstd::prelude::*;
use vstd::string::*;
use crate::address;
use crate::order;
use crate::sink::SinkError;
use crate::text;

verus! {

/// Why a URL is not dialled, or why the policy could not be built.
#[derive(Debug, PartialEq, Eq)]
pub enum TransportError {
    /// Not a URL with a host.
    Malformed {
        /// What the URL was for (never the URL: a presigned URL is a credential).
        what: &'static str,
    },
    /// A scheme other than `https` (or an allowed `http`).
    Scheme {
        /// What the URL was for.
        what: &'static str,
        /// The scheme it named.
        scheme: String,
    },
    /// Plain HTTP to something other than loopback, without the explicit exception.
    Plaintext {
        /// What the URL was for.
        what: &'static str,
        /// The host it named (a host is not a credential; the path and query may be).
        host: String,
    },
    /// The CA bundle held no certificate, or could not be read.
    CaBundle(String),
}

impl TransportError {
    /// What the error says. The path and query of a URL are never part of it.
    pub open spec fn says(&self) -> Seq<char> {
        match self {
            TransportError::Malformed { what } => what@ + " is not an http(s) URL with a host"@,
            TransportError::Scheme { what, scheme } => what@ + " uses the "@ + scheme@
                + " scheme; only https is dialled"@,
            TransportError::Plaintext { what, host } => what@ + " is plain http to "@ + host@
                + ": refused. Serve it over https (SEALANT_CAPTURE_CA_FILE or SEALANT_CAPTURE_CA_PEM names a private CA), or set SEALANT_CAPTURE_ALLOW_PLAINTEXT=true when the network between this executor and "@
                + host@ + " is private"@,
            TransportError::CaBundle(why) => "channel CA bundle: "@ + why@,
        }
    }

    /// What the error says.
    pub fn message(&self) -> (r: String)
        ensures
            r@ == self.says(),
    {
        match self {
            TransportError::Malformed { what } => text::concat(
                what,
                " is not an http(s) URL with a host",
            ),
            TransportError::Scheme { what, scheme } => {
                let mut out: String = (*what).to_owned();
                out.append(" uses the ");
                out.append(scheme.as_str());
                out.append(" scheme; only https is dialled");
                out
            },
            TransportError::Plaintext { what, host } => {
                let mut out: String = (*what).to_owned();
                out.append(" is plain http to ");
                out.append(host.as_str());
                out.append(
                    ": refused. Serve it over https (SEALANT_CAPTURE_CA_FILE or SEALANT_CAPTURE_CA_PEM names a private CA), or set SEALANT_CAPTURE_ALLOW_PLAINTEXT=true when the network between this executor and ",
                );
                out.append(host.as_str());
                out.append(" is private");
                out
            },
            TransportError::CaBundle(why) => text::concat("channel CA bundle: ", why.as_str()),
        }
    }
}

/// The parts of a URL that decide whether it is dialled.
pub struct UrlParts {
    /// Scheme, in lower case where it is `http` or `https`.
    pub scheme: Option<String>,
    /// Host, with the brackets of an IPv6 address.
    pub host: Option<String>,
}

/// What the parts of a URL stand for.
#[verifier::ext_equal]
pub struct UrlModel {
    /// Scheme.
    pub scheme: Option<Seq<char>>,
    /// Host.
    pub host: Option<Seq<char>>,
}

impl View for UrlParts {
    type V = UrlModel;

    open spec fn view(&self) -> UrlModel {
        UrlModel { scheme: text::opt_view(self.scheme), host: text::opt_view(self.host) }
    }
}

/// The scheme and the host that a text has as a URI; none if it is no URI.
pub uninterp spec fn uri_of(url: Seq<char>) -> Option<UrlModel>;

/// Calls `http::Uri`'s `FromStr`, and asks the result for `scheme_str` and `host`. Claims that
/// they depend on the text alone, under the name [`uri_of`]; what a URI is, is not stated.
#[verifier::external_body]
fn split_url(url: &str) -> (r: Option<UrlParts>)
    ensures
        match (r, uri_of(url@)) {
            (Some(p), Some(m)) => p@ == m,
            (None, None) => true,
            _ => false,
        },
{
    match url.parse::<ureq::http::Uri>() {
        Ok(uri) => Some(
            UrlParts {
                scheme: uri.scheme_str().map(|s| s.to_owned()),
                host: uri.host().map(|h| h.to_owned()),
            },
        ),
        Err(_) => None,
    }
}

/// One item of a PEM bundle.
pub enum PemFound {
    /// A certificate, as DER.
    Certificate(Vec<u8>),
    /// Something else.
    Other,
    /// An item that could not be read, and why.
    Bad(String),
}

/// What an item of a PEM bundle stands for.
#[verifier::ext_equal]
pub enum PemModel {
    /// A certificate, as DER.
    Certificate(Seq<u8>),
    /// Something else.
    Other,
    /// An item that could not be read, and why.
    Bad(Seq<char>),
}

impl View for PemFound {
    type V = PemModel;

    open spec fn view(&self) -> PemModel {
        match self {
            PemFound::Certificate(der) => PemModel::Certificate(der@),
            PemFound::Other => PemModel::Other,
            PemFound::Bad(why) => PemModel::Bad(why@),
        }
    }
}

/// The items of a PEM bundle, in order.
pub uninterp spec fn pem_items(pem: Seq<char>) -> Seq<PemModel>;

/// Calls `ureq::tls::parse_pem` and converts each item that it yields. Claims that the items depend
/// on the text alone, under the name [`pem_items`]; what PEM is, is not stated.
#[verifier::external_body]
fn read_pem(pem: &str) -> (r: Vec<PemFound>)
    ensures
        order::views(r@) == pem_items(pem@),
{
    ureq::tls::parse_pem(pem.as_bytes())
        .map(|item| match item {
            Ok(ureq::tls::PemItem::Certificate(c)) => PemFound::Certificate(c.der().to_vec()),
            Ok(_) => PemFound::Other,
            Err(error) => PemFound::Bad(error.to_string()),
        })
        .collect()
}

/// The certificates among the items of a PEM bundle.
pub open spec fn certificates(items: Seq<PemModel>) -> Seq<Seq<u8>>
    decreases items.len(),
{
    if items.len() == 0 {
        Seq::empty()
    } else {
        match items.last() {
            PemModel::Certificate(der) => certificates(items.drop_last()).push(der),
            _ => certificates(items.drop_last()),
        }
    }
}

/// What lists of bytes stand for.
pub open spec fn byte_lists(s: Seq<Vec<u8>>) -> Seq<Seq<u8>> {
    Seq::new(s.len(), |i: int| s[i]@)
}

/// Whether a PEM bundle can be trusted: every item can be read, and one at least is a certificate.
pub open spec fn is_bundle(items: Seq<PemModel>) -> bool {
    &&& forall|i: int| 0 <= i < items.len() ==> !((#[trigger] items[i]) is Bad)
    &&& certificates(items).len() > 0
}

/// Whether `e` is the refusal of a PEM bundle: the first item that cannot be read, or that there is
/// no certificate.
pub open spec fn refuses_bundle(items: Seq<PemModel>, e: TransportError) -> bool {
    match e {
        TransportError::CaBundle(why) => {
            ||| exists|i: int|
                {
                    &&& 0 <= i < items.len()
                    &&& (#[trigger] items[i]) == PemModel::Bad(why@)
                    &&& forall|j: int| 0 <= j < i ==> !(items[j] is Bad)
                }
            ||| (forall|i: int| 0 <= i < items.len() ==> !((#[trigger] items[i]) is Bad))
                && certificates(items).len() == 0 && why@ == "no certificate found"@
        },
        _ => false,
    }
}

/// Every certificate of a PEM bundle, as DER. Other items (keys) are ignored; an item that cannot
/// be read, or a bundle without a certificate, is refused.
pub fn certificates_among(items: Vec<PemFound>) -> (r: Result<Vec<Vec<u8>>, TransportError>)
    ensures
        match r {
            Ok(found) => is_bundle(order::views(items@)) && byte_lists(found@) == certificates(
                order::views(items@),
            ),
            Err(e) => refuses_bundle(order::views(items@), e),
        },
{
    let ghost all = order::views(items@);
    let mut found: Vec<Vec<u8>> = Vec::new();
    let mut i: usize = 0;
    proof {
        assert(all.take(0) =~= Seq::empty());
        assert(byte_lists(found@) =~= certificates(all.take(0)));
    }
    while i < items.len()
        invariant
            0 <= i <= items@.len(),
            all == order::views(items@),
            byte_lists(found@) == certificates(all.take(i as int)),
            forall|j: int| 0 <= j < i ==> !((#[trigger] all[j]) is Bad),
        decreases items@.len() - i,
    {
        proof {
            let t = all.take(i + 1);
            assert(t.drop_last() =~= all.take(i as int));
            assert(t.last() == items@[i as int]@);
        }
        match &items[i] {
            PemFound::Certificate(der) => {
                let ghost before = byte_lists(found@);
                found.push(der.clone());
                assert(byte_lists(found@) =~= before.push(der@));
            },
            PemFound::Other => {},
            PemFound::Bad(why) => {
                assert(all[i as int] == PemModel::Bad(why@));
                return Err(TransportError::CaBundle(why.clone()));
            },
        }
        i = i + 1;
    }
    assert(all.take(all.len() as int) =~= all);
    if found.len() == 0 {
        assert(byte_lists(found@).len() == 0);
        return Err(TransportError::CaBundle("no certificate found".to_owned()));
    }
    assert(byte_lists(found@).len() > 0);
    Ok(found)
}

/// How this session's outbound HTTP is dialled.
pub struct ChannelTransport {
    /// Whether plain HTTP is dialled beyond loopback.
    pub plaintext: bool,
    /// The only roots trusted for the session channel, as DER; the public ones where there are none
    /// here.
    pub channel_roots: Option<Vec<Vec<u8>>>,
    /// The only roots trusted for presigned object URLs, as DER.
    pub object_roots: Option<Vec<Vec<u8>>>,
}

/// A character in lower case, as far as it is an ASCII letter.
pub open spec fn lower(c: char) -> char {
    if 'A' <= c <= 'Z' {
        (c as u32 + 32) as char
    } else {
        c
    }
}

/// Whether a host is this machine: `localhost` in any case, or a loopback address.
pub open spec fn is_loopback_host(host: Seq<char>) -> bool {
    let bare = text::without_end(text::without_start(host, '['), ']');
    bare.map_values(|c: char| lower(c)) == "localhost"@ || address::is_loopback_address(bare)
}

/// Whether a text is `localhost`, whatever the case.
fn is_localhost(s: &str) -> (r: bool)
    ensures
        r == (s@.map_values(|c: char| lower(c)) == "localhost"@),
{
    let chars: Vec<char> = text::chars_of(s);
    let want: Vec<char> = text::chars_of("localhost");
    let ghost low = s@.map_values(|c: char| lower(c));
    if chars.len() != want.len() {
        assert(low.len() != want@.len());
        return false;
    }
    proof {
        reveal_strlit("localhost");
    }
    let mut i: usize = 0;
    while i < chars.len()
        invariant
            0 <= i <= chars@.len(),
            chars@.len() == want@.len(),
            chars@ == s@,
            want@ == "localhost"@,
            low == s@.map_values(|c: char| lower(c)),
            forall|j: int| 0 <= j < want@.len() ==> 'a' <= #[trigger] want@[j] <= 'z',
            forall|j: int| 0 <= j < i ==> #[trigger] low[j] == want@[j],
        decreases chars@.len() - i,
    {
        let c: char = chars[i];
        let w: char = want[i];
        assert(low[i as int] == lower(c));
        let same: bool = c == w || ('A' <= c && c <= 'Z' && c as u32 + 32 == w as u32);
        if !same {
            assert(low[i as int] != want@[i as int]);
            return false;
        }
        i = i + 1;
    }
    assert(low =~= want@);
    true
}

/// Whether a host is this machine.
pub fn is_loopback(host: &str) -> (r: bool)
    ensures
        r == is_loopback_host(host@),
{
    let bare: &str = text::trim_end_char(text::trim_start_char(host, '['), ']');
    is_localhost(bare) || address::names_loopback(bare)
}

/// Whether the policy dials a URL: over HTTPS anywhere, over plain HTTP to this machine, or to any
/// host by the explicit exception.
pub open spec fn dials(plaintext: bool, url: Option<UrlModel>) -> bool {
    match url {
        Some(u) => match (u.host, u.scheme) {
            (Some(host), Some(scheme)) => host.len() > 0 && (scheme == "https"@ || (scheme
                == "http"@ && (plaintext || is_loopback_host(host)))),
            _ => false,
        },
        None => false,
    }
}

/// Whether `e` is the refusal of a URL that is not dialled.
pub open spec fn refuses(what: Seq<char>, url: Option<UrlModel>, e: TransportError) -> bool {
    match url {
        Some(u) => if u.host is None || u.host->0.len() == 0 || u.scheme is None {
            e matches TransportError::Malformed { what: w } && w@ == what
        } else if u.scheme->0 == "http"@ {
            e matches TransportError::Plaintext { what: w, host } && w@ == what && host@
                == u.host->0
        } else {
            e matches TransportError::Scheme { what: w, scheme } && w@ == what && scheme@
                == u.scheme->0
        },
        None => e matches TransportError::Malformed { what: w } && w@ == what,
    }
}

impl ChannelTransport {
    /// HTTPS with the bundled public roots; plain HTTP to loopback only.
    #[must_use]
    pub fn verified() -> (r: Self)
        ensures
            !r.plaintext,
            r.channel_roots is None,
            r.object_roots is None,
    {
        ChannelTransport { plaintext: false, channel_roots: None, object_roots: None }
    }

    /// The explicit exception: plain HTTP is dialled to any host. For a private network between the
    /// executor and the channel, and for development.
    #[must_use]
    pub fn allow_plaintext(self, allow: bool) -> (r: Self)
        ensures
            r == (ChannelTransport { plaintext: allow, ..self }),
    {
        let mut r: Self = self;
        r.plaintext = allow;
        r
    }

    /// Trust exactly the certificates in this PEM bundle for the session channel, in place of the
    /// public roots: a channel behind a private CA, and nothing a public CA signs can stand in for
    /// it. Presigned object URLs keep their own roots.
    pub fn with_channel_ca_pem(self, pem: &str) -> (r: Result<Self, TransportError>)
        ensures
            match r {
                Ok(t) => {
                    &&& is_bundle(pem_items(pem@))
                    &&& t == (ChannelTransport { channel_roots: t.channel_roots, ..self })
                    &&& t.channel_roots is Some
                    &&& byte_lists(t.channel_roots->0@) == certificates(pem_items(pem@))
                },
                Err(e) => refuses_bundle(pem_items(pem@), e),
            },
    {
        match certificates_among(read_pem(pem)) {
            Ok(roots) => {
                let mut r: Self = self;
                r.channel_roots = Some(roots);
                Ok(r)
            },
            Err(e) => Err(e),
        }
    }

    /// Trust exactly the certificates in this PEM bundle for presigned object URLs, in place of the
    /// public roots: an object store behind a private CA.
    pub fn with_object_ca_pem(self, pem: &str) -> (r: Result<Self, TransportError>)
        ensures
            match r {
                Ok(t) => {
                    &&& is_bundle(pem_items(pem@))
                    &&& t == (ChannelTransport { object_roots: t.object_roots, ..self })
                    &&& t.object_roots is Some
                    &&& byte_lists(t.object_roots->0@) == certificates(pem_items(pem@))
                },
                Err(e) => refuses_bundle(pem_items(pem@), e),
            },
    {
        match certificates_among(read_pem(pem)) {
            Ok(roots) => {
                let mut r: Self = self;
                r.object_roots = Some(roots);
                Ok(r)
            },
            Err(e) => Err(e),
        }
    }

    /// Whether plain HTTP beyond loopback is dialled.
    #[must_use]
    pub fn plaintext_allowed(&self) -> (r: bool)
        ensures
            r == self.plaintext,
    {
        self.plaintext
    }

    /// Judge the parts of a URL.
    pub fn judge(&self, what: &'static str, url: Option<UrlParts>) -> (r: Result<(), TransportError>)
        ensures
            ({
                let u = match url {
                    Some(p) => Some(p@),
                    None => None,
                };
                match r {
                    Ok(()) => dials(self.plaintext, u),
                    Err(e) => !dials(self.plaintext, u) && refuses(what@, u, e),
                }
            }),
    {
        let parts: UrlParts = match url {
            Some(p) => p,
            None => {
                return Err(TransportError::Malformed { what });
            },
        };
        let host: String = match parts.host {
            Some(h) => h,
            None => {
                return Err(TransportError::Malformed { what });
            },
        };
        if host.as_str().unicode_len() == 0 {
            return Err(TransportError::Malformed { what });
        }
        let scheme: String = match parts.scheme {
            Some(s) => s,
            None => {
                return Err(TransportError::Malformed { what });
            },
        };
        proof {
            reveal_strlit("http");
            reveal_strlit("https");
            assert("http"@.len() != "https"@.len());
        }
        if text::str_eq(scheme.as_str(), "https") {
            return Ok(());
        }
        if text::str_eq(scheme.as_str(), "http") {
            if self.plaintext || is_loopback(host.as_str()) {
                return Ok(());
            }
            return Err(TransportError::Plaintext { what, host });
        }
        Err(TransportError::Scheme { what, scheme })
    }

    /// Refuse a URL this policy does not dial. `what` names its purpose for the error.
    pub fn check(&self, what: &'static str, url: &str) -> (r: Result<(), TransportError>)
        ensures
            match r {
                Ok(()) => dials(self.plaintext, uri_of(url@)),
                Err(e) => !dials(self.plaintext, uri_of(url@)) && refuses(what@, uri_of(url@), e),
            },
    {
        self.judge(what, split_url(url))
    }

    /// Refuse a presigned URL of the object at `key` that this policy does not dial, before any of
    /// its bytes are sent. The refusal tells nothing of the path and query, where the signature is.
    pub fn check_object(&self, key: &str, url: &str) -> (r: Result<(), SinkError>)
        ensures
            match r {
                Ok(()) => dials(self.plaintext, uri_of(url@)),
                Err(SinkError::NoUrl { key: k, reason }) => {
                    &&& !dials(self.plaintext, uri_of(url@))
                    &&& k@ == key@
                    &&& exists|e: TransportError|
                        refuses("an object URL"@, uri_of(url@), e) && reason@ == #[trigger] e.says()
                },
                Err(_) => false,
            },
    {
        match self.check("an object URL", url) {
            Ok(()) => Ok(()),
            Err(e) => Err(SinkError::NoUrl { key: key.to_owned(), reason: e.message() }),
        }
    }
}

/// The policy fails closed: without the exception, what is dialled is HTTPS, or this machine.
pub proof fn law_plain_http_stays_on_this_machine(url: Option<UrlModel>)
    requires
        dials(false, url),
    ensures
        url is Some,
        url->0.scheme == Some("https"@) || (url->0.scheme == Some("http"@) && url->0.host is Some
            && is_loopback_host(url->0.host->0)),
{
}

/// Allowing plain HTTP opens no other scheme, and closes nothing.
pub proof fn law_the_exception_is_about_plain_http_only(url: Option<UrlModel>)
    ensures
        dials(false, url) ==> dials(true, url),
        dials(true, url) && !dials(false, url) ==> url is Some && url->0.scheme == Some("http"@),
{
}

/// What is dialled: https to any host, and plain http to this machine or where that is allowed;
/// everything else is refused, and says what it was.
pub proof fn law_only_https_is_dialled(
    t: ChannelTransport,
    what: &'static str,
    url: Option<UrlParts>,
    r: Result<(), TransportError>,
    local: bool,
    host: &str,
)
    requires
        call_ensures(ChannelTransport::judge, (&t, what, url), r),
        url is Some && url->0.host is Some ==> host@ == url->0.host->0@,
        call_ensures(is_loopback, (host,), local),
    ensures
        url is None ==> r is Err && r->Err_0 is Malformed,
        url matches Some(u) ==> {
            let there = u.host is Some && u.host->0@.len() > 0 && u.scheme is Some;
            &&& !there ==> r is Err && r->Err_0 is Malformed
            &&& there && u.scheme->0@ == "https"@ ==> r is Ok
            &&& there && u.scheme->0@ == "http"@ ==> (r is Ok <==> t.plaintext || local)
            &&& there && u.scheme->0@ == "http"@ && r is Err ==> r->Err_0 is Plaintext
                && r->Err_0->host@ == u.host->0@
            &&& there && u.scheme->0@ != "https"@ && u.scheme->0@ != "http"@ ==> r is Err
                && r->Err_0 is Scheme
        },
{
    reveal_strlit("https");
    reveal_strlit("http");
    assert("https"@.len() != "http"@.len());
}

/// Transport is verified unless plain http was allowed, and each root bundle is its own.
pub proof fn law_transport_is_verified_by_default(
    fresh: ChannelTransport,
    t: ChannelTransport,
    allow: bool,
    r: ChannelTransport,
    allowed: bool,
)
    requires
        call_ensures(ChannelTransport::verified, (), fresh),
        call_ensures(ChannelTransport::allow_plaintext, (t, allow), r),
        call_ensures(ChannelTransport::plaintext_allowed, (&r,), allowed),
    ensures
        !fresh.plaintext && fresh.channel_roots is None && fresh.object_roots is None,
        allowed == allow,
        r.channel_roots == t.channel_roots && r.object_roots == t.object_roots,
{
}

/// A bundle is taken only if all of it can be read and it has a certificate; it then has every
/// certificate, in order.
pub proof fn law_a_bundle_has_every_certificate(
    items: Vec<PemFound>,
    r: Result<Vec<Vec<u8>>, TransportError>,
    i: int,
)
    requires
        call_ensures(certificates_among, (items,), r),
    ensures
        0 <= i < items@.len() && items@[i] is Bad ==> r is Err,
        r matches Ok(found) ==> found@.len() > 0,
        r is Ok && 0 <= i < items@.len() && items@[i] is Certificate ==> byte_lists(
            r->Ok_0@,
        ).contains(items@[i]->Certificate_0@),
        (forall|k: int| 0 <= k < items@.len() ==> !((#[trigger] items@[k]) is Bad)) && 0 <= i
            < items@.len() && items@[i] is Certificate ==> r is Ok,
        r is Err ==> r->Err_0 is CaBundle,
{
    let iv = order::views(items@);
    assert(iv.len() == items@.len());
    assert forall|k: int| 0 <= k < items@.len() implies (iv[k] is Bad <==> items@[k] is Bad) by {
        assert(iv[k] == items@[k]@);
    }
    if 0 <= i < items@.len() && items@[i] is Certificate {
        assert(iv[i] == items@[i]@);
        lemma_certificates(iv, i);
    }
    if (forall|k: int| 0 <= k < items@.len() ==> !((#[trigger] items@[k]) is Bad)) && r is Err {
        assert forall|k: int| 0 <= k < iv.len() implies !((#[trigger] iv[k]) is Bad) by {
            assert(!(items@[k] is Bad));
        }
    }
}

proof fn lemma_certificates(items: Seq<PemModel>, i: int)
    requires
        0 <= i < items.len(),
        items[i] is Certificate,
    ensures
        certificates(items).contains(items[i]->Certificate_0),
    decreases items.len(),
{
    let all = certificates(items);
    let front = certificates(items.drop_last());
    if i < items.len() - 1 {
        lemma_certificates(items.drop_last(), i);
        let k = choose|k: int| 0 <= k < front.len() && front[k] == items[i]->Certificate_0;
        assert(all[k] == front[k]);
    } else {
        assert(all[front.len() as int] == items[i]->Certificate_0);
    }
}

/// This machine is `localhost`, however it is written, and nothing is this machine by a mere prefix:
/// a name that is none and no address is another host.
pub proof fn law_localhost_is_this_machine(host: &str, r: bool)
    requires
        call_ensures(is_loopback, (host,), r),
    ensures
        host@ == "localhost"@ ==> r,
        host@ == "LOCALHOST"@ ==> r,
        r ==> {
            let bare = text::without_end(text::without_start(host@, '['), ']');
            bare.len() == 9 || address::ipv4(bare) is Some || address::ipv6(bare) is Some
        },
{
    reveal_strlit("localhost");
    reveal_strlit("LOCALHOST");
    let h = host@;
    if h == "localhost"@ || h == "LOCALHOST"@ {
        assert(h.len() == 9);
        lemma_plain_ends(h);
        let bare = text::without_end(text::without_start(h, '['), ']');
        assert(bare == h);
        assert(bare.map_values(|c: char| lower(c)) =~= "localhost"@);
    }
    if r {
        let bare = text::without_end(text::without_start(h, '['), ']');
        let low = bare.map_values(|c: char| lower(c));
        assert(low.len() == bare.len());
    }
}

proof fn lemma_plain_ends(h: Seq<char>)
    requires
        h.len() > 0,
        h[0] != '[',
        h.last() != ']',
    ensures
        text::without_start(h, '[') == h,
        text::without_end(h, ']') == h,
{
}

/// A URL is checked by its scheme and host alone, whatever it is for.
pub proof fn law_a_url_is_checked_by_its_parts(
    t: ChannelTransport,
    what: &'static str,
    url: &str,
    parts: Option<UrlParts>,
    judged: Result<(), TransportError>,
    checked: Result<(), TransportError>,
    key: &str,
    object: Result<(), SinkError>,
)
    requires
        uri_of(url@) == match parts {
            Some(p) => Some(p@),
            None => None,
        },
        call_ensures(ChannelTransport::judge, (&t, what, parts), judged),
        call_ensures(ChannelTransport::check, (&t, what, url), checked),
        call_ensures(ChannelTransport::check_object, (&t, key, url), object),
    ensures
        checked is Ok <==> judged is Ok,
        object is Ok <==> judged is Ok,
        object is Err ==> object->Err_0 is NoUrl && object->Err_0->NoUrl_key@ == key@,
{
}

/// Each bundle of roots is for its own side: a channel's is not an object store's.
pub proof fn law_root_bundles_are_kept_apart(
    t: ChannelTransport,
    pem: &str,
    channel: Result<ChannelTransport, TransportError>,
    object: Result<ChannelTransport, TransportError>,
)
    requires
        call_ensures(ChannelTransport::with_channel_ca_pem, (t, pem), channel),
        call_ensures(ChannelTransport::with_object_ca_pem, (t, pem), object),
    ensures
        channel matches Ok(c) ==> c.object_roots == t.object_roots && c.plaintext == t.plaintext
            && c.channel_roots is Some && c.channel_roots->0@.len() > 0,
        object matches Ok(o) ==> o.channel_roots == t.channel_roots && o.plaintext == t.plaintext
            && o.object_roots is Some && o.object_roots->0@.len() > 0,
        channel is Ok <==> object is Ok,
{
    let items = pem_items(pem@);
    if let Ok(c) = channel {
        assert(byte_lists(c.channel_roots->0@).len() == c.channel_roots->0@.len());
    }
    if let Ok(o) = object {
        assert(byte_lists(o.object_roots->0@).len() == o.object_roots->0@.len());
    }
    lemma_certificates_only(items);
}

proof fn lemma_certificates_only(items: Seq<PemModel>)
    ensures
        certificates(items).len() <= items.len(),
    decreases items.len(),
{
    if items.len() > 0 {
        lemma_certificates_only(items.drop_last());
    }
}

} // verus!
