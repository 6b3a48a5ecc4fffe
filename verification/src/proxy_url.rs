//! Which way a proxy's URL says to go.

use url::Host;
use vstd::prelude::*;
use vstd::string::{StrSliceExecFns, StringExecFns};

use crate::config::{configures, url_config, url_sliceable, ConfigView, MtProxyConfig, Reading};
use crate::errors::{ErrorKind, MtProxyError};
use crate::text::{law_every_occurrence_is_replaced, replace, replaced, same_text};

verus! {

/// How long connecting through a proxy may take, in seconds.
pub const CONNECT_TIMEOUT: u64 = 5;

/// `url::ParseError`: why a text is no URL.
#[verifier::external_type_specification]
#[verifier::external_body]
pub struct ExParseError(url::ParseError);

/// Where a proxy is.
pub enum ProxyHost {
    Domain(String),
    Ipv4([u8; 4]),
    Ipv6([u8; 16]),
}

/// What a proxy's URL says.
pub struct ProxyUrl {
    pub scheme: String,
    pub host: Option<ProxyHost>,
    pub port: Option<u16>,
    pub username: String,
    pub password: Option<String>,
}

/// Where a proxy is.
pub enum HostView {
    Domain(Seq<char>),
    Ipv4(Seq<u8>),
    Ipv6(Seq<u8>),
}

/// What a proxy's URL says.
pub struct UrlView {
    pub scheme: Seq<char>,
    pub host: Option<HostView>,
    pub port: Option<u16>,
    pub username: Seq<char>,
    pub password: Option<Seq<char>>,
}

impl View for ProxyHost {
    type V = HostView;

    open spec fn view(&self) -> HostView {
        match self {
            ProxyHost::Domain(domain) => HostView::Domain(domain@),
            ProxyHost::Ipv4(octets) => HostView::Ipv4(octets@),
            ProxyHost::Ipv6(octets) => HostView::Ipv6(octets@),
        }
    }
}

impl View for ProxyUrl {
    type V = UrlView;

    open spec fn view(&self) -> UrlView {
        UrlView {
            scheme: self.scheme@,
            host: match self.host {
                Some(host) => Some(host@),
                None => None,
            },
            port: self.port,
            username: self.username@,
            password: match self.password {
                Some(password) => Some(password@),
                None => None,
            },
        }
    }
}

/// What the URL `text` says, or why it is none.
pub uninterp spec fn parsed_url(text: Seq<char>) -> Result<UrlView, url::ParseError>;

/// `url::Url::parse`, and what `scheme`, `host`, `port`, `username` and `password` give of the
/// result: the contract says only that these are functions of the text, which `parsed_url` names.
#[verifier::external_body]
fn parse_url(text: &str) -> (parsed: Result<ProxyUrl, url::ParseError>)
    ensures
        match parsed {
            Ok(url) => parsed_url(text@) == Ok::<UrlView, url::ParseError>(url@),
            Err(err) => parsed_url(text@) == Err::<UrlView, url::ParseError>(err),
        },
{
    let url = url::Url::parse(text)?;
    Ok(ProxyUrl {
        scheme: url.scheme().to_owned(),
        host: match url.host() {
            Some(Host::Domain(domain)) => Some(ProxyHost::Domain(domain.to_owned())),
            Some(Host::Ipv4(address)) => Some(ProxyHost::Ipv4(address.octets())),
            Some(Host::Ipv6(address)) => Some(ProxyHost::Ipv6(address.octets())),
            None => None,
        },
        port: url.port(),
        username: url.username().to_owned(),
        password: url.password().map(str::to_owned),
    })
}

/// Why there is no way through a proxy.
pub enum ProxyError {
    MtProxy(MtProxyError),
    Url(url::ParseError),
    /// The URL names no host.
    HostMissing(String),
    /// The URL names no port.
    PortMissing(String),
    /// The host has no address.
    AddressMissing(String),
    /// There is no way to talk to such a proxy.
    UnsupportedScheme(String),
    MtProxyTimeout,
    Socks5Timeout,
}

impl ProxyError {
    pub open spec fn spec_kind(self) -> ErrorKind {
        match self {
            ProxyError::MtProxy(err) => err.spec_kind(),
            ProxyError::Url(_) => ErrorKind::InvalidData,
            ProxyError::HostMissing(_) => ErrorKind::NotFound,
            ProxyError::PortMissing(_) => ErrorKind::NotFound,
            ProxyError::AddressMissing(_) => ErrorKind::NotFound,
            ProxyError::UnsupportedScheme(_) => ErrorKind::ConnectionAborted,
            ProxyError::MtProxyTimeout => ErrorKind::TimedOut,
            ProxyError::Socks5Timeout => ErrorKind::TimedOut,
        }
    }

    /// The broad kind of the failure.
    pub fn kind(&self) -> (kind: ErrorKind)
        ensures
            kind == self.spec_kind(),
    {
        match self {
            ProxyError::MtProxy(err) => err.kind(),
            ProxyError::Url(_) => ErrorKind::InvalidData,
            ProxyError::HostMissing(_) => ErrorKind::NotFound,
            ProxyError::PortMissing(_) => ErrorKind::NotFound,
            ProxyError::AddressMissing(_) => ErrorKind::NotFound,
            ProxyError::UnsupportedScheme(_) => ErrorKind::ConnectionAborted,
            ProxyError::MtProxyTimeout => ErrorKind::TimedOut,
            ProxyError::Socks5Timeout => ErrorKind::TimedOut,
        }
    }

    pub open spec fn spec_message(self) -> Option<Seq<char>> {
        match self {
            ProxyError::MtProxy(err) => err.spec_message(),
            ProxyError::Url(_) => None,
            ProxyError::HostMissing(url) => Some("proxy host is missing from url: "@ + url@),
            ProxyError::PortMissing(url) => Some("proxy port is missing from url: "@ + url@),
            ProxyError::AddressMissing(host) => Some(
                "proxy host did not return any ip address: "@ + host@,
            ),
            ProxyError::UnsupportedScheme(scheme) => Some("proxy scheme not supported: "@ + scheme@),
            ProxyError::MtProxyTimeout => Some("mtproxy connect timeout"@),
            ProxyError::Socks5Timeout => Some("socks5 connect timeout"@),
        }
    }

    /// The failure in words; nothing where another library's error has the words.
    pub fn message(&self) -> (message: Option<String>)
        ensures
            match message {
                Some(text) => self.spec_message() == Some(text@),
                None => self.spec_message() is None,
            },
    {
        match self {
            ProxyError::MtProxy(err) => match err.message() {
                Some(text) => Some(text.to_owned()),
                None => None,
            },
            ProxyError::Url(_) => None,
            ProxyError::HostMissing(url) => Some(joined("proxy host is missing from url: ", url)),
            ProxyError::PortMissing(url) => Some(joined("proxy port is missing from url: ", url)),
            ProxyError::AddressMissing(host) => Some(
                joined("proxy host did not return any ip address: ", host),
            ),
            ProxyError::UnsupportedScheme(scheme) => Some(
                joined("proxy scheme not supported: ", scheme),
            ),
            ProxyError::MtProxyTimeout => Some("mtproxy connect timeout".to_owned()),
            ProxyError::Socks5Timeout => Some("socks5 connect timeout".to_owned()),
        }
    }
}

fn joined(head: &str, tail: &String) -> (text: String)
    ensures
        text@ == head@ + tail@,
{
    let mut text: String = head.to_owned();
    text.append(tail.as_str());
    text
}

/// A proxy that is not one of Telegram's own, and who to be to it.
pub struct PlainProxy {
    pub scheme: String,
    pub host: ProxyHost,
    pub port: u16,
    pub username: String,
    pub password: String,
}

/// Which way to go.
pub enum ProxyRoute {
    MtProxy(MtProxyConfig),
    Plain(PlainProxy),
}

/// Whether `found` is the proxy that a URL which says `said` names. A semicolon may be written in
/// a user name as `%3B`.
pub open spec fn is_plain_proxy(
    found: Result<PlainProxy, ProxyError>,
    text: Seq<char>,
    said: UrlView,
) -> bool {
    match (said.host, said.port) {
        (None, _) => found is Err && found->Err_0 is HostMissing && found->Err_0->HostMissing_0@
            == text,
        (_, None) => found is Err && found->Err_0 is PortMissing && found->Err_0->PortMissing_0@
            == text,
        (Some(host), Some(port)) => {
            &&& found is Ok
            &&& found->Ok_0.scheme@ == said.scheme
            &&& found->Ok_0.host@ == host
            &&& found->Ok_0.port == port
            &&& found->Ok_0.username@ == replaced(said.username, "%3B"@, ";"@)
            &&& found->Ok_0.password@ == match said.password {
                Some(password) => password,
                None => seq![],
            }
        },
    }
}

/// The proxy that the URL `text` names, which says `url`.
pub fn plain_proxy(text: &str, url: ProxyUrl) -> (found: Result<PlainProxy, ProxyError>)
    ensures
        is_plain_proxy(found, text@, url@),
{
    let host = match url.host {
        Some(host) => host,
        None => return Err(ProxyError::HostMissing(text.to_owned())),
    };
    let port: u16 = match url.port {
        Some(port) => port,
        None => return Err(ProxyError::PortMissing(text.to_owned())),
    };
    proof {
        reveal_strlit("%3B");
    }
    let username = replace(url.username.as_str(), "%3B", ";");
    let password = match url.password {
        Some(password) => password,
        None => String::new(),
    };
    Ok(PlainProxy { scheme: url.scheme, host, port, username, password })
}

/// Whether `route` is the way that the URL `text` says to go.
pub open spec fn is_route(route: Result<ProxyRoute, ProxyError>, text: Seq<char>) -> bool {
    match url_config(text) {
        Some(reading) => match route {
            Ok(ProxyRoute::MtProxy(config)) => configures(Ok(config), reading),
            Ok(ProxyRoute::Plain(_)) => false,
            Err(ProxyError::MtProxy(err)) => configures(Err(err), reading),
            Err(_) => false,
        },
        None => match parsed_url(text) {
            Err(err) => route == Err::<ProxyRoute, ProxyError>(ProxyError::Url(err)),
            Ok(said) => match route {
                Ok(ProxyRoute::MtProxy(_)) => false,
                Ok(ProxyRoute::Plain(proxy)) => is_plain_proxy(Ok(proxy), text, said),
                Err(err) => is_plain_proxy(Err(err), text, said),
            },
        },
    }
}

/// Which way the URL `text` says to go.
pub fn proxy_route(text: &str) -> (route: Result<ProxyRoute, ProxyError>)
    requires
        url_sliceable(text@),
    ensures
        is_route(route, text@),
{
    match MtProxyConfig::parse(text) {
        Some(Ok(config)) => return Ok(ProxyRoute::MtProxy(config)),
        Some(Err(err)) => return Err(ProxyError::MtProxy(err)),
        None => {},
    }
    match parse_url(text) {
        Ok(url) => match plain_proxy(text, url) {
            Ok(proxy) => Ok(ProxyRoute::Plain(proxy)),
            Err(err) => Err(err),
        },
        Err(err) => Err(ProxyError::Url(err)),
    }
}

/// Which way the URL `text` says to go, where reading it cuts no character in two; nothing where
/// it does.
pub fn proxy_route_sliceable(text: &str) -> (route: Option<Result<ProxyRoute, ProxyError>>)
    ensures
        route is Some <==> url_sliceable(text@),
        route is Some ==> is_route(route->Some_0, text@),
{
    match MtProxyConfig::parse_sliceable(text) {
        Some(_) => Some(proxy_route(text)),
        None => None,
    }
}

/// The first address that a host has, if it has any.
pub fn first_address<A>(host: &str, first: Option<A>) -> (address: Result<A, ProxyError>)
    ensures
        match first {
            Some(found) => address == Ok::<A, ProxyError>(found),
            None => address is Err && address->Err_0 is AddressMissing
                && address->Err_0->AddressMissing_0@ == host@,
        },
{
    match first {
        Some(found) => Ok(found),
        None => Err(ProxyError::AddressMissing(host.to_owned())),
    }
}

/// Who to be to a SOCKS5 proxy.
pub enum Login<'a> {
    Anonymous,
    Password { username: &'a str, password: &'a str },
}

impl PlainProxy {
    /// How to talk to the proxy: only SOCKS5 is supported, with a password if there is a user
    /// name.
    pub fn login(&self) -> (login: Result<Login<'_>, ProxyError>)
        ensures
            if self.scheme@ != "socks5"@ {
                login is Err && login->Err_0 is UnsupportedScheme
                    && login->Err_0->UnsupportedScheme_0@ == self.scheme@
            } else if self.username@.len() == 0 {
                login is Ok && login->Ok_0 is Anonymous
            } else {
                &&& login is Ok
                &&& login->Ok_0 is Password
                &&& login->Ok_0->username@ == self.username@
                &&& login->Ok_0->password@ == self.password@
            },
    {
        if !same_text(self.scheme.as_str(), "socks5") {
            return Err(ProxyError::UnsupportedScheme(self.scheme.as_str().to_owned()));
        }
        if self.username.as_str().unicode_len() == 0 {
            Ok(Login::Anonymous)
        } else {
            Ok(
                Login::Password {
                    username: self.username.as_str(),
                    password: self.password.as_str(),
                },
            )
        }
    }
}

/// Where to go, as plain values: what to contact, at which port.
pub open spec fn contact_of(route: ProxyRoute) -> (HostView, u16) {
    match route {
        ProxyRoute::MtProxy(config) => (HostView::Domain(config.host@), config.port),
        ProxyRoute::Plain(proxy) => (proxy.host@, proxy.port),
    }
}

/// A host that is to be contacted.
pub enum Contact<'a> {
    /// It still has to be looked up.
    Name(&'a str),
    Ipv4([u8; 4]),
    Ipv6([u8; 16]),
}

impl View for Contact<'_> {
    type V = HostView;

    open spec fn view(&self) -> HostView {
        match self {
            Contact::Name(name) => HostView::Domain(name@),
            Contact::Ipv4(octets) => HostView::Ipv4(octets@),
            Contact::Ipv6(octets) => HostView::Ipv6(octets@),
        }
    }
}

impl ProxyRoute {
    /// What to contact, and at which port. Nothing else is contacted.
    pub fn contact(&self) -> (contact: (Contact<'_>, u16))
        ensures
            (contact.0@, contact.1) == contact_of(*self),
    {
        match self {
            ProxyRoute::MtProxy(config) => (Contact::Name(config.host.as_str()), config.port),
            ProxyRoute::Plain(proxy) => {
                let host = match &proxy.host {
                    ProxyHost::Domain(domain) => Contact::Name(domain.as_str()),
                    ProxyHost::Ipv4(octets) => Contact::Ipv4(*octets),
                    ProxyHost::Ipv6(octets) => Contact::Ipv6(*octets),
                };
                (host, proxy.port)
            },
        }
    }
}

/// Whether the two ways are the same.
pub open spec fn same_route(
    one: Result<ProxyRoute, ProxyError>,
    two: Result<ProxyRoute, ProxyError>,
) -> bool {
    match (one, two) {
        (Ok(ProxyRoute::MtProxy(a)), Ok(ProxyRoute::MtProxy(b))) => a@ == b@,
        (Ok(ProxyRoute::Plain(a)), Ok(ProxyRoute::Plain(b))) => {
            &&& a.scheme@ == b.scheme@
            &&& a.host@ == b.host@
            &&& a.port == b.port
            &&& a.username@ == b.username@
            &&& a.password@ == b.password@
        },
        (Err(ProxyError::MtProxy(a)), Err(ProxyError::MtProxy(b))) => a == b,
        (Err(ProxyError::Url(a)), Err(ProxyError::Url(b))) => a == b,
        (Err(ProxyError::HostMissing(a)), Err(ProxyError::HostMissing(b))) => a@ == b@,
        (Err(ProxyError::PortMissing(a)), Err(ProxyError::PortMissing(b))) => a@ == b@,
        _ => false,
    }
}

/// The URL alone decides which way to go; where the connection is to end makes no difference.
pub proof fn law_url_alone_decides(
    text: Seq<char>,
    one: Result<ProxyRoute, ProxyError>,
    two: Result<ProxyRoute, ProxyError>,
)
    requires
        is_route(one, text),
        is_route(two, text),
    ensures
        same_route(one, two),
{
}

/// A proxy of Telegram's own is gone to as its URL says: an error in the URL is the result, and
/// otherwise the URL's host and port are all that is contacted.
pub proof fn law_mtproxy_url_is_followed(
    text: Seq<char>,
    reading: Reading<ConfigView>,
    route: Result<ProxyRoute, ProxyError>,
)
    requires
        url_config(text) == Some(reading),
        is_route(route, text),
    ensures
        match reading {
            Reading::Cut => false,
            Reading::Refused(err) => route == Err::<ProxyRoute, ProxyError>(
                ProxyError::MtProxy(err),
            ),
            Reading::Read(config) => {
                &&& route is Ok
                &&& route->Ok_0 is MtProxy
                &&& route->Ok_0->MtProxy_0@ == config
                &&& contact_of(route->Ok_0) == (HostView::Domain(config.host), config.port)
            },
        },
{
}

/// Any other proxy is gone to as its URL says: the URL's host and port are contacted, under the
/// user name and the password that stand in it. Without a host or a port there is no way to go, and
/// neither is there where the URL is none.
pub proof fn law_plain_url_is_followed(
    text: Seq<char>,
    said: UrlView,
    route: Result<ProxyRoute, ProxyError>,
)
    requires
        url_config(text) is None,
        is_route(route, text),
    ensures
        parsed_url(text) is Err ==> route == Err::<ProxyRoute, ProxyError>(
            ProxyError::Url(parsed_url(text)->Err_0),
        ),
        parsed_url(text) == Ok::<UrlView, url::ParseError>(said) ==> match (said.host, said.port) {
            (Some(host), Some(port)) => {
                &&& route is Ok
                &&& contact_of(route->Ok_0) == (host, port)
                &&& route->Ok_0 is Plain
                &&& route->Ok_0->Plain_0.scheme@ == said.scheme
                &&& !said.username.contains('%') ==> route->Ok_0->Plain_0.username@
                    == said.username
                &&& said.password is Some ==> route->Ok_0->Plain_0.password@
                    == said.password->Some_0
                &&& said.password is None ==> route->Ok_0->Plain_0.password@.len() == 0
            },
            (None, _) => {
                &&& route is Err
                &&& route->Err_0 is HostMissing
                &&& route->Err_0->HostMissing_0@ == text
            },
            (Some(_), None) => {
                &&& route is Err
                &&& route->Err_0 is PortMissing
                &&& route->Err_0->PortMissing_0@ == text
            },
        },
{
    reveal_strlit("%3B");
    assert("%3B"@[0] == '%');
    if !said.username.contains('%') {
        law_every_occurrence_is_replaced(said.username, Seq::empty(), "%3B"@, ";"@);
    }
}

/// A semicolon in a user name may be written as `%3B`: every one that is written so arrives as a
/// semicolon, and what stands around it as it is.
pub proof fn law_semicolons_arrive(
    text: Seq<char>,
    said: UrlView,
    found: Result<PlainProxy, ProxyError>,
    before: Seq<char>,
    after: Seq<char>,
)
    requires
        is_plain_proxy(found, text, said),
        said.host is Some,
        said.port is Some,
        said.username == before + "%3B"@ + after,
        !before.contains('%'),
        !after.contains('%'),
    ensures
        found is Ok,
        found->Ok_0.username@ == before + seq![';'] + after,
{
    reveal_strlit("%3B");
    reveal_strlit(";");
    assert(";"@ =~= seq![';']);
    assert("%3B"@[0] == '%');
    law_every_occurrence_is_replaced(before, after, "%3B"@, ";"@);
    law_every_occurrence_is_replaced(after, Seq::empty(), "%3B"@, ";"@);
}

/// How the I/O layer sees that there is no way through a proxy: what is missing was not found, what
/// took too long timed out, a scheme that is not supported aborts the connection, and all that is
/// wrong with a URL is invalid data.
pub proof fn law_kinds_of_proxy_failures(err: ProxyError)
    ensures
        err is HostMissing || err is PortMissing || err is AddressMissing <==> err.spec_kind()
            == ErrorKind::NotFound,
        err is MtProxyTimeout || err is Socks5Timeout <==> err.spec_kind() == ErrorKind::TimedOut,
        err is UnsupportedScheme <==> err.spec_kind() == ErrorKind::ConnectionAborted,
        err is Url ==> err.spec_kind() == ErrorKind::InvalidData,
        err is MtProxy ==> err.spec_kind() == err->MtProxy_0.spec_kind(),
{
}

} // verus!
