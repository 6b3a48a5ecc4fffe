//! Where a proxy is and how to talk to it, read off its URL.

use base64::Engine;
use vstd::prelude::*;
use vstd::utf8::{
    decode_utf8, encode_utf8, encode_utf8_decode_utf8, encode_utf8_valid_utf8, is_ascii_chars,
    is_ascii_chars_encode_utf8, valid_utf8,
};

use crate::errors::{ErrorKind, MtProxyError};
use crate::octets::slice_copy;
use crate::text::{
    cut_all, cut_first, cut_last, decimal_text, from_utf8, has_char, has_prefix, hex_decode,
    hex_decoded, hex_sliceable, hex_text, is_hex_sliceable, is_percent_sliceable, joined,
    law_cutting_undoes_joining, law_hex_is_read_back, law_percent_encoding_is_read_back,
    law_plain_bytes_stand_for_themselves, law_ports_are_read_back,
    law_texts_are_cut_at_the_separator, law_trimming_takes_off_white_space, lemma_decimal_text,
    lemma_first_index_is, percent_decode, percent_decoded, percent_sliceable, percent_text,
    port_number, port_of, rsplit_once, same_text, split, split_once, strip_prefix, texts, trim,
    trimmed,
};

verus! {

/// How a proxy is talked to.
#[derive(Clone, Debug)]
pub enum MtProxyMode {
    /// Obfuscated packets straight over the connection.
    Obfuscated,
    /// Obfuscated packets inside what looks like TLS with `domain`.
    FakeTls { domain: String },
}

/// A proxy's address, its secret and how it is talked to.
#[derive(Clone, Debug)]
pub struct MtProxyConfig {
    pub host: String,
    pub port: u16,
    pub secret: Vec<u8>,
    pub mode: MtProxyMode,
}

/// The domain that a proxy hides behind, if it hides.
pub open spec fn mode_domain(mode: MtProxyMode) -> Option<Seq<char>> {
    match mode {
        MtProxyMode::Obfuscated => None,
        MtProxyMode::FakeTls { domain } => Some(domain@),
    }
}

/// What a proxy's URL says.
pub struct ConfigView {
    pub host: Seq<char>,
    pub port: u16,
    pub secret: Seq<u8>,
    /// The domain that the proxy hides behind, if it hides.
    pub domain: Option<Seq<char>>,
}

impl View for MtProxyConfig {
    type V = ConfigView;

    open spec fn view(&self) -> ConfigView {
        ConfigView {
            host: self.host@,
            port: self.port,
            secret: self.secret@,
            domain: mode_domain(self.mode),
        }
    }
}

/// What reading something off a text comes to.
pub enum Reading<T> {
    /// The text is not read: a character would be cut in two.
    Cut,
    /// The text is refused.
    Refused(MtProxyError),
    /// The text says this.
    Read(T),
}

/// Whether `got` is the configuration that `reading` calls for.
pub open spec fn configures(
    got: Result<MtProxyConfig, MtProxyError>,
    reading: Reading<ConfigView>,
) -> bool {
    match reading {
        Reading::Cut => false,
        Reading::Refused(err) => got is Err && got->Err_0 == err,
        Reading::Read(value) => got is Ok && got->Ok_0@ == value,
    }
}

/// The bytes that `text` writes in URL-safe base64 without padding, if it is such a text.
pub uninterp spec fn base64_url(text: Seq<char>) -> Option<Seq<u8>>;

/// The bytes that `text` writes in standard base64 with padding, if it is such a text.
pub uninterp spec fn base64_standard(text: Seq<char>) -> Option<Seq<u8>>;

/// `base64::engine::general_purpose::URL_SAFE_NO_PAD.decode`: the contract says only that the
/// result is a function of the text, which `base64_url` names.
#[verifier::external_body]
fn base64_url_decode(value: &str) -> (decoded: Option<Vec<u8>>)
    ensures
        match decoded {
            Some(bytes) => base64_url(value@) == Some(bytes@),
            None => base64_url(value@) is None,
        },
{
    base64::engine::general_purpose::URL_SAFE_NO_PAD.decode(value).ok()
}

/// `base64::engine::general_purpose::STANDARD.decode`: the contract says only that the result is
/// a function of the text, which `base64_standard` names.
#[verifier::external_body]
fn base64_standard_decode(value: &str) -> (decoded: Option<Vec<u8>>)
    ensures
        match decoded {
            Some(bytes) => base64_standard(value@) == Some(bytes@),
            None => base64_standard(value@) is None,
        },
{
    base64::engine::general_purpose::STANDARD.decode(value).ok()
}

/// Whether `secret` is of a kind that proxies have: 16 bytes; those after 0xdd; or those after
/// 0xee and before a domain.
pub open spec fn supported_secret(secret: Seq<u8>) -> bool {
    ||| secret.len() == 16
    ||| secret.len() == 17 && secret[0] == 0xdd
    ||| secret.len() >= 18 && secret[0] == 0xee
}

/// The secret that a trimmed text writes, given what it writes in each notation: in hexadecimal,
/// else in URL-safe base64, else in standard base64.
pub open spec fn chosen_secret(
    hex: Option<Seq<u8>>,
    url: Option<Seq<u8>>,
    standard: Option<Seq<u8>>,
) -> Reading<Seq<u8>> {
    let secret = if hex is Some {
        hex
    } else if url is Some {
        url
    } else {
        standard
    };
    match secret {
        None => Reading::Refused(MtProxyError::InvalidSecret),
        Some(secret) => if supported_secret(secret) {
            Reading::Read(secret)
        } else {
            Reading::Refused(MtProxyError::UnsupportedSecret)
        },
    }
}

/// The secret that `text` writes.
pub open spec fn secret_of(text: Seq<char>) -> Reading<Seq<u8>> {
    let inner = trimmed(text);
    if !hex_sliceable(inner) {
        Reading::Cut
    } else {
        chosen_secret(hex_decoded(inner), base64_url(inner), base64_standard(inner))
    }
}

/// The configuration for a proxy with the given secret. A secret that starts with 0xee names the
/// domain to hide behind after its first 17 bytes.
pub open spec fn config_with(host: Seq<char>, port: u16, secret: Seq<u8>) -> Reading<ConfigView> {
    if secret.len() >= 18 && secret[0] == 0xee {
        let name = secret.skip(17);
        if valid_utf8(name) {
            Reading::Read(ConfigView { host, port, secret, domain: Some(decode_utf8(name)) })
        } else {
            Reading::Refused(MtProxyError::InvalidSecretDomain)
        }
    } else {
        Reading::Read(ConfigView { host, port, secret, domain: None })
    }
}

/// The configuration for a proxy with the secret that `text` writes.
pub open spec fn config_of(host: Seq<char>, port: u16, text: Seq<char>) -> Reading<ConfigView> {
    match secret_of(text) {
        Reading::Cut => Reading::Cut,
        Reading::Refused(err) => Reading::Refused(err),
        Reading::Read(secret) => config_with(host, port, secret),
    }
}

/// Whether `part` of a query sets `key`.
pub open spec fn sets(part: Seq<char>, key: Seq<char>) -> bool {
    cut_first(part, '=') is Some && cut_first(part, '=')->Some_0.0 == key
}

/// What `part` of a query sets its key to.
pub open spec fn value_of(part: Seq<char>) -> Seq<char> {
    cut_first(part, '=')->Some_0.1
}

/// Whether `part` of a query sets the secret; `s` is short for `secret` where `short` says so.
pub open spec fn sets_secret(part: Seq<char>, short: bool) -> bool {
    sets(part, "secret"@) || (short && sets(part, "s"@))
}

/// Whether `part` of a query sets the port to something that is no port.
pub open spec fn bad_port(part: Seq<char>) -> bool {
    sets(part, "port"@) && port_number(value_of(part)) is None
}

/// The host that the last part to set one sets.
pub open spec fn last_host(parts: Seq<Seq<char>>) -> Option<Seq<char>>
    decreases parts.len(),
{
    if parts.len() == 0 {
        None
    } else if sets(parts.last(), "server"@) {
        Some(percent_decoded(value_of(parts.last())))
    } else {
        last_host(parts.drop_last())
    }
}

/// The port that the last part to set one sets.
pub open spec fn last_port(parts: Seq<Seq<char>>) -> Option<u16>
    decreases parts.len(),
{
    if parts.len() == 0 {
        None
    } else if sets(parts.last(), "port"@) {
        port_number(value_of(parts.last()))
    } else {
        last_port(parts.drop_last())
    }
}

/// The secret that the last part to set one sets.
pub open spec fn last_secret(parts: Seq<Seq<char>>, short: bool) -> Option<Seq<char>>
    decreases parts.len(),
{
    if parts.len() == 0 {
        None
    } else if sets_secret(parts.last(), short) {
        Some(percent_decoded(value_of(parts.last())))
    } else {
        last_secret(parts.drop_last(), short)
    }
}

/// Whether decoding the values of a query cuts no character in two. Nothing is decoded after a
/// part with a bad port.
pub open spec fn decodable(parts: Seq<Seq<char>>, short: bool) -> bool {
    forall|i: int|
        #![trigger parts[i]]
        0 <= i < parts.len() && (sets(parts[i], "server"@) || sets_secret(parts[i], short)) && (
        forall|j: int| 0 <= j < i ==> !bad_port(#[trigger] parts[j])) ==> percent_sliceable(
            value_of(parts[i]),
        )
}

/// What a query says of a proxy.
pub struct QueryView {
    pub host: Option<Seq<char>>,
    pub port: Option<u16>,
    pub secret: Option<Seq<char>>,
}

/// What `query` says of a proxy.
pub open spec fn query_of(query: Seq<char>, short: bool) -> Reading<QueryView> {
    let parts = cut_all(query, '&');
    if !decodable(parts, short) {
        Reading::Cut
    } else if exists|i: int| 0 <= i < parts.len() && bad_port(#[trigger] parts[i]) {
        Reading::Refused(MtProxyError::InvalidPort)
    } else {
        Reading::Read(
            QueryView {
                host: last_host(parts),
                port: last_port(parts),
                secret: last_secret(parts, short),
            },
        )
    }
}

/// The configuration that a `tg://proxy?` or `https://t.me/proxy?` URL writes.
pub open spec fn tg_proxy_config(url: Seq<char>) -> Reading<ConfigView> {
    match cut_first(url, '?') {
        None => Reading::Refused(MtProxyError::QueryMissing),
        Some((_, query)) => match query_of(query, false) {
            Reading::Cut => Reading::Cut,
            Reading::Refused(err) => Reading::Refused(err),
            Reading::Read(said) => match (said.host, said.port, said.secret) {
                (None, _, _) => Reading::Refused(MtProxyError::HostMissing),
                (_, None, _) => Reading::Refused(MtProxyError::PortMissing),
                (_, _, None) => Reading::Refused(MtProxyError::SecretMissing),
                (Some(host), Some(port), Some(secret)) => config_of(host, port, secret),
            },
        },
    }
}

/// The host and the port that `endpoint` writes with a colon between them.
pub open spec fn endpoint_of(endpoint: Seq<char>) -> Reading<(Seq<char>, u16)> {
    match cut_last(endpoint, ':') {
        None => Reading::Refused(MtProxyError::EndpointPortMissing),
        Some((host, port)) => match port_number(port) {
            None => Reading::Refused(MtProxyError::InvalidPort),
            Some(port) => Reading::Read((host, port)),
        },
    }
}

/// The configuration that `authority` and what a query says write together: an authority with a
/// colon is the endpoint; one without is the secret, unless the query has one.
pub open spec fn authority_config(authority: Seq<char>, said: QueryView) -> Reading<ConfigView> {
    if authority.contains(':') {
        match endpoint_of(authority) {
            Reading::Cut => Reading::Cut,
            Reading::Refused(err) => Reading::Refused(err),
            Reading::Read((host, port)) => match said.secret {
                None => Reading::Refused(MtProxyError::SecretMissing),
                Some(secret) => config_of(host, port, secret),
            },
        }
    } else {
        match (said.host, said.port) {
            (None, _) => Reading::Refused(MtProxyError::HostMissing),
            (_, None) => Reading::Refused(MtProxyError::PortMissing),
            (Some(host), Some(port)) => config_of(
                host,
                port,
                match said.secret {
                    None => authority,
                    Some(secret) => secret,
                },
            ),
        }
    }
}

/// The configuration that an `mtproxy://` URL writes.
pub open spec fn mtproxy_config(url: Seq<char>) -> Reading<ConfigView> {
    if !has_prefix(url, "mtproxy://"@) {
        Reading::Refused(MtProxyError::InvalidUrl)
    } else {
        let rest = url.skip("mtproxy://"@.len() as int);
        match cut_first(rest, '?') {
            Some((authority, query)) => match query_of(query, true) {
                Reading::Cut => Reading::Cut,
                Reading::Refused(err) => Reading::Refused(err),
                Reading::Read(said) => authority_config(authority, said),
            },
            None => match cut_first(rest, '/') {
                None => Reading::Refused(MtProxyError::SecretMissing),
                Some((endpoint, secret)) => match endpoint_of(endpoint) {
                    Reading::Cut => Reading::Cut,
                    Reading::Refused(err) => Reading::Refused(err),
                    Reading::Read((host, port)) => config_of(host, port, secret),
                },
            },
        }
    }
}

/// Whether `url` has the form of a `tg` proxy link.
pub open spec fn is_tg_proxy(url: Seq<char>) -> bool {
    has_prefix(url, "tg://proxy?"@) || has_prefix(url, "https://t.me/proxy?"@)
}

/// The configuration that `url` writes; nothing if it is not the URL of such a proxy.
pub open spec fn url_config(url: Seq<char>) -> Option<Reading<ConfigView>> {
    if is_tg_proxy(url) {
        Some(tg_proxy_config(url))
    } else if has_prefix(url, "mtproxy://"@) {
        Some(mtproxy_config(url))
    } else {
        None
    }
}

/// Whether `url` can be read without cutting a character in two.
pub open spec fn url_sliceable(url: Seq<char>) -> bool {
    url_config(url) is Some ==> !(url_config(url)->Some_0 is Cut)
}

/// The port that `value` writes.
pub fn parse_port(value: &str) -> (port: Result<u16, MtProxyError>)
    ensures
        match port_number(value@) {
            Some(number) => port is Ok && port->Ok_0 == number,
            None => port is Err && port->Err_0 is InvalidPort,
        },
{
    match port_of(value) {
        Some(port) => Ok(port),
        None => Err(MtProxyError::InvalidPort),
    }
}

/// The host and the port that `endpoint` writes with a colon between them.
pub fn parse_host_port(endpoint: &str) -> (parsed: Result<(String, u16), MtProxyError>)
    ensures
        match endpoint_of(endpoint@) {
            Reading::Cut => false,
            Reading::Refused(err) => parsed is Err && parsed->Err_0 == err,
            Reading::Read((host, port)) => parsed is Ok && parsed->Ok_0.0@ == host
                && parsed->Ok_0.1 == port,
        },
{
    match rsplit_once(endpoint, ':') {
        None => Err(MtProxyError::EndpointPortMissing),
        Some((host, port)) => match parse_port(port) {
            Ok(port) => Ok((host.to_owned(), port)),
            Err(err) => Err(err),
        },
    }
}

/// The secret among what a text writes in each notation.
pub fn choose_secret(hex: Option<Vec<u8>>, url: Option<Vec<u8>>, standard: Option<Vec<u8>>) -> (
    secret: Result<Vec<u8>, MtProxyError>)
    ensures
        match chosen_secret(bytes_in(hex), bytes_in(url), bytes_in(standard)) {
            Reading::Cut => false,
            Reading::Refused(err) => secret is Err && secret->Err_0 == err,
            Reading::Read(bytes) => secret is Ok && secret->Ok_0@ == bytes,
        },
{
    let found: Option<Vec<u8>> = match hex {
        Some(bytes) => Some(bytes),
        None => match url {
            Some(bytes) => Some(bytes),
            None => standard,
        },
    };
    match found {
        None => Err(MtProxyError::InvalidSecret),
        Some(secret) => if secret.len() == 16 || (secret.len() == 17 && secret[0] == 0xdd) || (
        secret.len() >= 18 && secret[0] == 0xee) {
            Ok(secret)
        } else {
            Err(MtProxyError::UnsupportedSecret)
        },
    }
}

/// The bytes that `decoded` holds, if any.
pub open spec fn bytes_in(decoded: Option<Vec<u8>>) -> Option<Seq<u8>> {
    match decoded {
        Some(bytes) => Some(bytes@),
        None => None,
    }
}

/// The secret that `encoded_secret` writes.
pub fn decode_secret(encoded_secret: &str) -> (secret: Result<Vec<u8>, MtProxyError>)
    requires
        hex_sliceable(trimmed(encoded_secret@)),
    ensures
        match secret_of(encoded_secret@) {
            Reading::Cut => false,
            Reading::Refused(err) => secret is Err && secret->Err_0 == err,
            Reading::Read(bytes) => secret is Ok && secret->Ok_0@ == bytes,
        },
{
    let inner = trim(encoded_secret);
    let hex = hex_decode(inner);
    if hex.is_some() {
        return choose_secret(hex, None, None);
    }
    let url = base64_url_decode(inner);
    if url.is_some() {
        return choose_secret(None, url, None);
    }
    choose_secret(None, None, base64_standard_decode(inner))
}

/// What a query says of a proxy.
struct Query {
    host: Option<String>,
    port: Option<u16>,
    secret: Option<String>,
}

spec fn text_in(text: Option<String>) -> Option<Seq<char>> {
    match text {
        Some(text) => Some(text@),
        None => None,
    }
}

/// What one part of a query is about.
#[derive(Clone, Copy, Debug, PartialEq, Eq, Structural)]
pub enum Key {
    Host,
    Port,
    Secret,
    Other,
}

/// What `part` of a query is about.
pub open spec fn key_of(part: Seq<char>, short: bool) -> Key {
    if sets(part, "server"@) {
        Key::Host
    } else if sets(part, "port"@) {
        Key::Port
    } else if sets_secret(part, short) {
        Key::Secret
    } else {
        Key::Other
    }
}

proof fn lemma_keys_differ()
    ensures
        "server"@ != "port"@,
        "server"@ != "secret"@,
        "server"@ != "s"@,
        "port"@ != "secret"@,
        "port"@ != "s"@,
{
    reveal_strlit("server");
    reveal_strlit("port");
    reveal_strlit("secret");
    reveal_strlit("s");
    assert("server"@.len() == 6 && "port"@.len() == 4 && "secret"@.len() == 6 && "s"@.len() == 1);
    assert("server"@[2] == 'r');
    assert("secret"@[2] == 'c');
}

fn read_part<'a>(part: &'a str, short: bool) -> (read: (Key, &'a str))
    ensures
        read.0 == key_of(part@, short),
        read.0 != Key::Other ==> read.1@ == value_of(part@),
{
    match split_once(part, '=') {
        None => (Key::Other, part),
        Some((key, value)) => {
            if same_text(key, "server") {
                (Key::Host, value)
            } else if same_text(key, "port") {
                (Key::Port, value)
            } else if same_text(key, "secret") || (short && same_text(key, "s")) {
                (Key::Secret, value)
            } else {
                (Key::Other, value)
            }
        },
    }
}

fn is_query_sliceable(query: &str, short: bool) -> (sliceable: bool)
    ensures
        sliceable == decodable(cut_all(query@, '&'), short),
{
    let parts: Vec<&str> = split(query, '&');
    let ghost all = cut_all(query@, '&');
    let mut i: usize = 0;
    proof {
        lemma_keys_differ();
    }
    while i < parts.len()
        invariant
            all == texts(parts@),
            all == cut_all(query@, '&'),
            i <= parts@.len(),
            forall|j: int| 0 <= j < i ==> !bad_port(#[trigger] all[j]),
            forall|j: int|
                #![trigger all[j]]
                0 <= j < i && (sets(all[j], "server"@) || sets_secret(all[j], short))
                    ==> percent_sliceable(value_of(all[j])),
            "server"@ != "port"@,
            "port"@ != "secret"@,
            "port"@ != "s"@,
        decreases parts@.len() - i,
    {
        assert(all[i as int] == parts@[i as int]@);
        let (key, value) = read_part(parts[i], short);
        match key {
            Key::Host | Key::Secret => {
                if !is_percent_sliceable(value) {
                    assert(!percent_sliceable(value_of(all[i as int])));
                    return false;
                }
            },
            Key::Port => {
                if port_of(value).is_none() {
                    assert(bad_port(all[i as int]));
                    return true;
                }
            },
            Key::Other => {},
        }
        i += 1;
    }
    true
}

fn read_query(query: &str, short: bool) -> (read: Result<Query, MtProxyError>)
    requires
        decodable(cut_all(query@, '&'), short),
    ensures
        match query_of(query@, short) {
            Reading::Cut => false,
            Reading::Refused(err) => read is Err && read->Err_0 == err,
            Reading::Read(said) => {
                &&& read is Ok
                &&& text_in(read->Ok_0.host) == said.host
                &&& read->Ok_0.port == said.port
                &&& text_in(read->Ok_0.secret) == said.secret
            },
        },
{
    let parts: Vec<&str> = split(query, '&');
    let ghost all = cut_all(query@, '&');
    let mut host: Option<String> = None;
    let mut port: Option<u16> = None;
    let mut secret: Option<String> = None;
    let mut i: usize = 0;
    proof {
        lemma_keys_differ();
    }
    while i < parts.len()
        invariant
            all == texts(parts@),
            all == cut_all(query@, '&'),
            decodable(all, short),
            i <= parts@.len(),
            forall|j: int| 0 <= j < i ==> !bad_port(#[trigger] all[j]),
            text_in(host) == last_host(all.take(i as int)),
            port == last_port(all.take(i as int)),
            text_in(secret) == last_secret(all.take(i as int), short),
            "server"@ != "port"@,
            "server"@ != "secret"@,
            "server"@ != "s"@,
            "port"@ != "secret"@,
            "port"@ != "s"@,
        decreases parts@.len() - i,
    {
        let ghost part = all[i as int];
        assert(part == parts@[i as int]@);
        assert(all.take(i + 1).drop_last() =~= all.take(i as int));
        assert(all.take(i + 1).last() == part);
        let (key, value) = read_part(parts[i], short);
        match key {
            Key::Host => {
                host = Some(percent_decode(value));
            },
            Key::Port => match port_of(value) {
                Some(number) => {
                    port = Some(number);
                },
                None => {
                    assert(bad_port(all[i as int]));
                    return Err(MtProxyError::InvalidPort);
                },
            },
            Key::Secret => {
                secret = Some(percent_decode(value));
            },
            Key::Other => {},
        }
        i += 1;
    }
    assert(all.take(i as int) =~= all);
    Ok(Query { host, port, secret })
}

impl MtProxyConfig {
    /// The configuration that `url` writes; nothing if it is not the URL of such a proxy.
    pub fn parse(url: &str) -> (config: Option<Result<MtProxyConfig, MtProxyError>>)
        requires
            url_sliceable(url@),
        ensures
            match url_config(url@) {
                None => config is None,
                Some(reading) => config is Some && configures(config->Some_0, reading),
            },
    {
        if strip_prefix(url, "tg://proxy?").is_some() || strip_prefix(
            url,
            "https://t.me/proxy?",
        ).is_some() {
            return Some(Self::parse_tg_proxy(url));
        }
        if strip_prefix(url, "mtproxy://").is_some() {
            return Some(Self::parse_mtproxy(url));
        }
        None
    }

    /// Reads `url` where that cuts no character in two; nothing where it does.
    pub fn parse_sliceable(url: &str) -> (config: Option<
        Option<Result<MtProxyConfig, MtProxyError>>,
    >)
        ensures
            config is Some <==> url_sliceable(url@),
            config is Some ==> match url_config(url@) {
                None => config->Some_0 is None,
                Some(reading) => config->Some_0 is Some && configures(
                    config->Some_0->Some_0,
                    reading,
                ),
            },
    {
        let sliceable: bool = if strip_prefix(url, "tg://proxy?").is_some() || strip_prefix(
            url,
            "https://t.me/proxy?",
        ).is_some() {
            is_tg_proxy_sliceable(url)
        } else if strip_prefix(url, "mtproxy://").is_some() {
            is_mtproxy_sliceable(url)
        } else {
            true
        };
        if sliceable {
            Some(Self::parse(url))
        } else {
            None
        }
    }

    /// The configuration that a `tg://proxy?` or `https://t.me/proxy?` URL writes.
    pub fn parse_tg_proxy(url: &str) -> (config: Result<MtProxyConfig, MtProxyError>)
        requires
            !(tg_proxy_config(url@) is Cut),
        ensures
            configures(config, tg_proxy_config(url@)),
    {
        let query = match split_once(url, '?') {
            Some((_, query)) => query,
            None => return Err(MtProxyError::QueryMissing),
        };
        let said = match read_query(query, false) {
            Ok(said) => said,
            Err(err) => return Err(err),
        };
        let host = match said.host {
            Some(host) => host,
            None => return Err(MtProxyError::HostMissing),
        };
        let port = match said.port {
            Some(port) => port,
            None => return Err(MtProxyError::PortMissing),
        };
        let secret = match said.secret {
            Some(secret) => secret,
            None => return Err(MtProxyError::SecretMissing),
        };
        Self::from_parts(host, port, secret.as_str())
    }

    /// The configuration that an `mtproxy://` URL writes.
    pub fn parse_mtproxy(url: &str) -> (config: Result<MtProxyConfig, MtProxyError>)
        requires
            !(mtproxy_config(url@) is Cut),
        ensures
            configures(config, mtproxy_config(url@)),
    {
        let rest = match strip_prefix(url, "mtproxy://") {
            Some(rest) => rest,
            None => return Err(MtProxyError::InvalidUrl),
        };
        if let Some((authority, query)) = split_once(rest, '?') {
            let said = match read_query(query, true) {
                Ok(said) => said,
                Err(err) => return Err(err),
            };
            if has_char(authority, ':') {
                let (host, port) = match parse_host_port(authority) {
                    Ok(endpoint) => endpoint,
                    Err(err) => return Err(err),
                };
                return match said.secret {
                    Some(secret) => Self::from_parts(host, port, secret.as_str()),
                    None => Err(MtProxyError::SecretMissing),
                };
            }
            let host = match said.host {
                Some(host) => host,
                None => return Err(MtProxyError::HostMissing),
            };
            let port = match said.port {
                Some(port) => port,
                None => return Err(MtProxyError::PortMissing),
            };
            return match said.secret {
                Some(secret) => Self::from_parts(host, port, secret.as_str()),
                None => Self::from_parts(host, port, authority),
            };
        }
        let (endpoint, secret) = match split_once(rest, '/') {
            Some(parts) => parts,
            None => return Err(MtProxyError::SecretMissing),
        };
        match parse_host_port(endpoint) {
            Ok((host, port)) => Self::from_parts(host, port, secret),
            Err(err) => Err(err),
        }
    }

    /// The configuration for a proxy with the secret that `encoded_secret` writes.
    pub fn from_parts(host: String, port: u16, encoded_secret: &str) -> (config: Result<
        MtProxyConfig,
        MtProxyError,
    >)
        requires
            hex_sliceable(trimmed(encoded_secret@)),
        ensures
            configures(config, config_of(host@, port, encoded_secret@)),
    {
        let secret = match decode_secret(encoded_secret) {
            Ok(secret) => secret,
            Err(err) => return Err(err),
        };
        let mode = if secret.len() >= 18 && secret[0] == 0xee {
            let name: Vec<u8> = slice_copy(&secret, 17, secret.len());
            assert(name@ =~= secret@.skip(17));
            match from_utf8(name) {
                Some(domain) => MtProxyMode::FakeTls { domain },
                None => return Err(MtProxyError::InvalidSecretDomain),
            }
        } else {
            MtProxyMode::Obfuscated
        };
        Ok(MtProxyConfig { host, port, secret, mode })
    }

    /// The 16 bytes of the secret that the keys are derived from.
    pub fn proxy_secret(&self) -> (secret: Result<[u8; 16], MtProxyError>)
        ensures
            match proxy_secret_of(self.secret@) {
                Some(bytes) => secret is Ok && secret->Ok_0@ == bytes,
                None => secret is Err && secret->Err_0 is InvalidSecretLength,
            },
    {
        let from: usize = if self.secret.len() >= 17 {
            1
        } else if self.secret.len() == 16 {
            0
        } else {
            return Err(MtProxyError::InvalidSecretLength);
        };
        let mut bytes: [u8; 16] = [0u8; 16];
        let mut i: usize = 0;
        while i < 16
            invariant
                i <= 16,
                from <= 1,
                from + 16 <= self.secret@.len(),
                forall|k: int| 0 <= k < i ==> bytes@[k] == self.secret@[from + k],
            decreases 16 - i,
        {
            bytes[i] = self.secret[from + i];
            i += 1;
        }
        assert(bytes@ =~= self.secret@.subrange(from as int, from + 16));
        Ok(bytes)
    }
}

/// The bytes of `secret` that keys are derived from: those after the first where there are 17 or
/// more, all where there are 16.
pub open spec fn proxy_secret_of(secret: Seq<u8>) -> Option<Seq<u8>> {
    if secret.len() >= 17 {
        Some(secret.subrange(1, 17))
    } else if secret.len() == 16 {
        Some(secret)
    } else {
        None
    }
}

fn is_secret_sliceable(encoded_secret: &str) -> (sliceable: bool)
    ensures
        sliceable == hex_sliceable(trimmed(encoded_secret@)),
{
    is_hex_sliceable(trim(encoded_secret))
}

fn is_tg_proxy_sliceable(url: &str) -> (sliceable: bool)
    ensures
        sliceable == !(tg_proxy_config(url@) is Cut),
{
    match split_once(url, '?') {
        None => true,
        Some((_, query)) => {
            if !is_query_sliceable(query, false) {
                return false;
            }
            match read_query(query, false) {
                Ok(Query { host: Some(_), port: Some(_), secret: Some(secret) }) => {
                    is_secret_sliceable(secret.as_str())
                },
                _ => true,
            }
        },
    }
}

fn is_mtproxy_sliceable(url: &str) -> (sliceable: bool)
    ensures
        sliceable == !(mtproxy_config(url@) is Cut),
{
    let rest = match strip_prefix(url, "mtproxy://") {
        Some(rest) => rest,
        None => return true,
    };
    if let Some((authority, query)) = split_once(rest, '?') {
        if !is_query_sliceable(query, true) {
            return false;
        }
        let said = match read_query(query, true) {
            Ok(said) => said,
            Err(_) => return true,
        };
        if has_char(authority, ':') {
            return match (parse_host_port(authority), said.secret) {
                (Ok(_), Some(secret)) => is_secret_sliceable(secret.as_str()),
                _ => true,
            };
        }
        return match (said.host, said.port, said.secret) {
            (Some(_), Some(_), Some(secret)) => is_secret_sliceable(secret.as_str()),
            (Some(_), Some(_), None) => is_secret_sliceable(authority),
            _ => true,
        };
    }
    match split_once(rest, '/') {
        Some((endpoint, secret)) => match parse_host_port(endpoint) {
            Ok(_) => is_secret_sliceable(secret),
            Err(_) => true,
        },
        None => true,
    }
}

/// A secret of a supported kind always has the 16 bytes that keys are derived from, so a
/// configuration that was read always gives them.
pub proof fn law_supported_secret_has_key(secret: Seq<u8>)
    requires
        supported_secret(secret),
    ensures
        proxy_secret_of(secret) is Some,
        proxy_secret_of(secret)->Some_0.len() == 16,
{
}

/// What is read off a URL holds together: the secret is of a supported kind, and a domain to
/// hide behind is there exactly when the secret names one, and is that one.
pub proof fn law_read_config_is_consistent(url: Seq<char>, config: ConfigView)
    requires
        url_config(url) == Some(Reading::Read(config)),
    ensures
        supported_secret(config.secret),
        config.port > 0,
        config.domain is Some <==> config.secret.len() >= 18 && config.secret[0] == 0xee,
        config.domain is Some ==> valid_utf8(config.secret.skip(17)) && config.domain->Some_0
            == decode_utf8(config.secret.skip(17)),
{
    if is_tg_proxy(url) {
        let query = cut_first(url, '?')->Some_0.1;
        lemma_last_port(cut_all(query, '&'));
    } else {
        let rest = url.skip("mtproxy://"@.len() as int);
        if cut_first(rest, '?') is Some {
            lemma_last_port(cut_all(cut_first(rest, '?')->Some_0.1, '&'));
        }
    }
}

proof fn lemma_last_port(parts: Seq<Seq<char>>)
    ensures
        last_port(parts) is Some ==> last_port(parts)->Some_0 > 0,
    decreases parts.len(),
{
    if parts.len() > 0 {
        lemma_last_port(parts.drop_last());
    }
}

/// Whether none of the parts sets the port to something that is no port.
pub open spec fn ports_valid(parts: Seq<Seq<char>>) -> bool {
    forall|i: int| 0 <= i < parts.len() ==> !bad_port(#[trigger] parts[i])
}

/// Whether part `i` says nothing: it is about nothing that counts, or a later part is about the
/// same.
pub open spec fn idle(parts: Seq<Seq<char>>, i: int, short: bool) -> bool {
    key_of(parts[i], short) is Other || exists|j: int|
        i < j < parts.len() && key_of(#[trigger] parts[j], short) == key_of(parts[i], short)
}

/// The parts with part `i` and the one after it swapped.
pub open spec fn swapped(parts: Seq<Seq<char>>, i: int) -> Seq<Seq<char>> {
    parts.update(i, parts[i + 1]).update(i + 1, parts[i])
}

/// Whether the order of part `i` and the one after it makes no difference: they are not both about
/// the same thing that counts.
pub open spec fn commute(parts: Seq<Seq<char>>, i: int, short: bool) -> bool {
    key_of(parts[i], short) != key_of(parts[i + 1], short) || key_of(parts[i], short) is Other
}

/// Whether `edited` is what is left of the parts after one of them that says nothing is dropped,
/// or after two neighbours that are not about the same are swapped.
pub open spec fn is_edit(parts: Seq<Seq<char>>, edited: Seq<Seq<char>>, short: bool) -> bool {
    ||| exists|i: int|
        0 <= i < parts.len() && #[trigger] idle(parts, i, short) && edited == parts.remove(i)
    ||| exists|i: int|
        0 <= i < parts.len() - 1 && #[trigger] commute(parts, i, short) && edited == swapped(
            parts,
            i,
        )
}

proof fn lemma_last_of_both(front: Seq<Seq<char>>, back: Seq<Seq<char>>, short: bool)
    requires
        ports_valid(back),
    ensures
        last_host(front + back) == (if last_host(back) is Some {
            last_host(back)
        } else {
            last_host(front)
        }),
        last_port(front + back) == (if last_port(back) is Some {
            last_port(back)
        } else {
            last_port(front)
        }),
        last_secret(front + back, short) == (if last_secret(back, short) is Some {
            last_secret(back, short)
        } else {
            last_secret(front, short)
        }),
    decreases back.len(),
{
    if back.len() == 0 {
        assert(front + back =~= front);
    } else {
        let less = back.drop_last();
        assert(!bad_port(back[back.len() - 1]));
        assert forall|i: int| 0 <= i < less.len() implies !bad_port(#[trigger] less[i]) by {
            assert(less[i] == back[i]);
        }
        lemma_last_of_both(front, less, short);
        assert((front + back).drop_last() =~= front + less);
        assert((front + back).last() == back.last());
    }
}

proof fn lemma_last_of_one(part: Seq<char>, short: bool)
    requires
        !bad_port(part),
    ensures
        ({
            let parts = seq![part];
            &&& last_host(parts) is Some <==> key_of(part, short) is Host
            &&& last_port(parts) is Some <==> key_of(part, short) is Port
            &&& last_secret(parts, short) is Some <==> key_of(part, short) is Secret
        }),
{
    lemma_keys_differ();
    let parts = seq![part];
    assert(parts.drop_last() =~= Seq::<Seq<char>>::empty());
    assert(parts.last() == part);
    reveal_with_fuel(last_host, 2);
    reveal_with_fuel(last_port, 2);
    reveal_with_fuel(last_secret, 2);
}

proof fn lemma_last_is_set(parts: Seq<Seq<char>>, i: int, short: bool)
    requires
        0 <= i < parts.len(),
        ports_valid(parts),
    ensures
        key_of(parts[i], short) is Host ==> last_host(parts) is Some,
        key_of(parts[i], short) is Port ==> last_port(parts) is Some,
        key_of(parts[i], short) is Secret ==> last_secret(parts, short) is Some,
{
    let front = parts.take(i);
    let one = seq![parts[i]];
    let back = parts.skip(i + 1);
    assert(parts =~= front + (one + back));
    assert(ports_valid(back)) by {
        assert forall|k: int| 0 <= k < back.len() implies !bad_port(#[trigger] back[k]) by {
            assert(back[k] == parts[k + i + 1]);
        }
    }
    assert(ports_valid(one + back)) by {
        assert forall|k: int| 0 <= k < (one + back).len() implies !bad_port(
            #[trigger] (one + back)[k],
        ) by {
            assert((one + back)[k] == parts[k + i]);
        }
    }
    lemma_last_of_one(parts[i], short);
    lemma_last_of_both(one, back, short);
    lemma_last_of_both(front, one + back, short);
}

/// The last part about a thing counts, and nothing else does: dropping a part that is about
/// nothing that counts, or that a later part about the same follows, and swapping neighbours that
/// are about different things, leave what the parts say as it is.
pub proof fn law_only_last_parts_count(
    parts: Seq<Seq<char>>,
    edited: Seq<Seq<char>>,
    short: bool,
)
    requires
        is_edit(parts, edited, short),
        ports_valid(parts),
    ensures
        last_host(edited) == last_host(parts),
        last_port(edited) == last_port(parts),
        last_secret(edited, short) == last_secret(parts, short),
        ports_valid(edited),
        decodable(parts, short) ==> decodable(edited, short),
{
    assert forall|k: int| 0 <= k < edited.len() implies !bad_port(#[trigger] edited[k]) by {
        lemma_edit_keeps(parts, edited, short, k);
        let m = choose|m: int| 0 <= m < parts.len() && edited[k] == #[trigger] parts[m];
        assert(!bad_port(parts[m]));
    }
    if decodable(parts, short) {
        assert forall|k: int|
            #![trigger edited[k]]
            0 <= k < edited.len() && (sets(edited[k], "server"@) || sets_secret(
                edited[k],
                short,
            )) implies percent_sliceable(value_of(edited[k])) by {
            lemma_edit_keeps(parts, edited, short, k);
            let m = choose|m: int| 0 <= m < parts.len() && edited[k] == #[trigger] parts[m];
            assert(edited[k] == parts[m]);
        }
    }
    if exists|i: int|
        0 <= i < parts.len() && #[trigger] idle(parts, i, short) && edited == parts.remove(i) {
        let i = choose|i: int|
            0 <= i < parts.len() && #[trigger] idle(parts, i, short) && edited == parts.remove(i);
        lemma_dropping(parts, i, short);
    } else {
        let i = choose|i: int|
            0 <= i < parts.len() - 1 && #[trigger] commute(parts, i, short) && edited == swapped(
                parts,
                i,
            );
        lemma_swapping(parts, i, short);
    }
}

proof fn lemma_dropping(parts: Seq<Seq<char>>, i: int, short: bool)
    requires
        0 <= i < parts.len(),
        idle(parts, i, short),
        ports_valid(parts),
    ensures
        last_host(parts.remove(i)) == last_host(parts),
        last_port(parts.remove(i)) == last_port(parts),
        last_secret(parts.remove(i), short) == last_secret(parts, short),
{
    let front = parts.take(i);
    let one = seq![parts[i]];
    let back = parts.skip(i + 1);
    lemma_tail_ports_valid(parts, i);
    lemma_tail_ports_valid(parts, i + 1);
    assert(parts.skip(i) =~= one + back);
    assert(parts =~= front + (one + back));
    assert(parts.remove(i) =~= front + back);
    lemma_last_of_one(parts[i], short);
    lemma_last_of_both(one, back, short);
    lemma_last_of_both(front, one + back, short);
    lemma_last_of_both(front, back, short);
    if !(key_of(parts[i], short) is Other) {
        let j = choose|j: int|
            i < j < parts.len() && key_of(#[trigger] parts[j], short) == key_of(parts[i], short);
        assert(back[j - i - 1] == parts[j]);
        lemma_last_is_set(back, j - i - 1, short);
    }
}

proof fn lemma_swapping(parts: Seq<Seq<char>>, i: int, short: bool)
    requires
        0 <= i < parts.len() - 1,
        commute(parts, i, short),
        ports_valid(parts),
    ensures
        last_host(swapped(parts, i)) == last_host(parts),
        last_port(swapped(parts, i)) == last_port(parts),
        last_secret(swapped(parts, i), short) == last_secret(parts, short),
{
    let front = parts.take(i);
    let one = seq![parts[i]];
    let two = seq![parts[i + 1]];
    let back = parts.skip(i + 2);
    lemma_tail_ports_valid(parts, i);
    lemma_tail_ports_valid(parts, i + 1);
    lemma_tail_ports_valid(parts, i + 2);
    assert(parts.skip(i + 1) =~= two + back);
    assert(parts.skip(i) =~= one + (two + back));
    assert(parts =~= front + (one + (two + back)));
    assert(swapped(parts, i) =~= front + (two + (one + back)));
    assert(!bad_port(parts[i]) && !bad_port(parts[i + 1]));
    assert(ports_valid(one + back)) by {
        assert forall|k: int| 0 <= k < (one + back).len() implies !bad_port(
            #[trigger] (one + back)[k],
        ) by {
            assert((one + back)[k] == if k == 0 {
                parts[i]
            } else {
                parts[i + 1 + k]
            });
        }
    }
    assert(ports_valid(two + (one + back))) by {
        assert forall|k: int| 0 <= k < (two + (one + back)).len() implies !bad_port(
            #[trigger] (two + (one + back))[k],
        ) by {
            assert((two + (one + back))[k] == if k == 0 {
                parts[i + 1]
            } else if k == 1 {
                parts[i]
            } else {
                parts[i + k]
            });
        }
    }
    lemma_last_of_one(parts[i], short);
    lemma_last_of_one(parts[i + 1], short);
    lemma_last_of_both(two, back, short);
    lemma_last_of_both(one, two + back, short);
    lemma_last_of_both(front, one + (two + back), short);
    lemma_last_of_both(one, back, short);
    lemma_last_of_both(two, one + back, short);
    lemma_last_of_both(front, two + (one + back), short);
}

proof fn lemma_tail_ports_valid(parts: Seq<Seq<char>>, from: int)
    requires
        0 <= from <= parts.len(),
        ports_valid(parts),
    ensures
        ports_valid(parts.skip(from)),
{
    let tail = parts.skip(from);
    assert forall|k: int| 0 <= k < tail.len() implies !bad_port(#[trigger] tail[k]) by {
        assert(tail[k] == parts[from + k]);
    }
}

proof fn lemma_query_of_joined(parts: Seq<Seq<char>>, short: bool)
    requires
        writable(parts, short),
    ensures
        query_of(joined(parts, '&'), short) == Reading::Read(
            QueryView {
                host: last_host(parts),
                port: last_port(parts),
                secret: last_secret(parts, short),
            },
        ),
{
    let query = joined(parts, '&');
    let found = cut_all(query, '&');
    if parts.len() > 0 {
        law_cutting_undoes_joining(parts, '&');
    } else {
        let nothing = Seq::<char>::empty();
        assert(found =~= seq![nothing]);
        assert(found.drop_last() =~= parts);
        assert(cut_first(nothing, '=') is None);
        assert(found[0] == nothing);
        assert(!sets(nothing, "server"@) && !sets(nothing, "port"@) && !sets_secret(nothing, short));
        reveal_with_fuel(last_host, 2);
        reveal_with_fuel(last_port, 2);
        reveal_with_fuel(last_secret, 2);
    }
    assert forall|i: int| 0 <= i < found.len() implies !bad_port(#[trigger] found[i]) by {}
}

/// Whether the parts can be written one after the other in a query, without a port that is none
/// and without cutting a character in two.
pub open spec fn writable(parts: Seq<Seq<char>>, short: bool) -> bool {
    &&& forall|i: int| 0 <= i < parts.len() ==> !(#[trigger] parts[i]).contains('&')
    &&& ports_valid(parts)
    &&& decodable(parts, short)
}

/// The order of the parts of a link, parts that are about nothing that counts, and parts that a
/// later one overrides make no difference: after any number of edits the link is still read as the
/// same configuration, or is refused for the same reason, which is always that its data is
/// invalid.
pub proof fn law_link_edits_make_no_difference(edits: Seq<Seq<Seq<char>>>)
    requires
        edits.len() > 0,
        writable(edits[0], false),
        forall|i: int|
            0 <= i < edits.len() - 1 ==> is_edit(#[trigger] edits[i], edits[i + 1], false),
    ensures
        writable(edits.last(), false),
        ({
            let first = tg_proxy_config("tg://proxy?"@ + joined(edits[0], '&'));
            let last = tg_proxy_config("tg://proxy?"@ + joined(edits.last(), '&'));
            &&& first == last
            &&& first is Refused ==> first->Refused_0.spec_kind() == ErrorKind::InvalidData
        }),
    decreases edits.len(),
{
    if edits.len() > 1 {
        let before = edits.drop_last();
        assert forall|i: int| 0 <= i < before.len() - 1 implies is_edit(
            #[trigger] before[i],
            before[i + 1],
            false,
        ) by {
            assert(is_edit(edits[i], edits[i + 1], false));
        }
        law_link_edits_make_no_difference(before);
        assert(is_edit(edits[edits.len() - 2], edits[edits.len() - 1], false));
        lemma_link_edit(before.last(), edits.last());
    } else {
        lemma_query_of_joined(edits[0], false);
        lemma_link_query(joined(edits[0], '&'));
    }
}

proof fn lemma_link_edit(parts: Seq<Seq<char>>, edited: Seq<Seq<char>>)
    requires
        is_edit(parts, edited, false),
        writable(parts, false),
    ensures
        writable(edited, false),
        tg_proxy_config("tg://proxy?"@ + joined(parts, '&')) == tg_proxy_config(
            "tg://proxy?"@ + joined(edited, '&'),
        ),
{
    law_only_last_parts_count(parts, edited, false);
    assert forall|k: int| 0 <= k < edited.len() implies !(#[trigger] edited[k]).contains('&') by {
        lemma_edit_keeps(parts, edited, false, k);
        let m = choose|m: int| 0 <= m < parts.len() && edited[k] == #[trigger] parts[m];
        assert(!parts[m].contains('&'));
    }
    lemma_query_of_joined(parts, false);
    lemma_query_of_joined(edited, false);
    lemma_link_query(joined(parts, '&'));
    lemma_link_query(joined(edited, '&'));
}

proof fn lemma_edit_keeps(
    parts: Seq<Seq<char>>,
    edited: Seq<Seq<char>>,
    short: bool,
    k: int,
)
    requires
        is_edit(parts, edited, short),
        0 <= k < edited.len(),
    ensures
        exists|m: int| 0 <= m < parts.len() && edited[k] == #[trigger] parts[m],
{
    if exists|i: int|
        0 <= i < parts.len() && #[trigger] idle(parts, i, short) && edited == parts.remove(i) {
        let i = choose|i: int|
            0 <= i < parts.len() && #[trigger] idle(parts, i, short) && edited == parts.remove(i);
        let m = if k < i {
            k
        } else {
            k + 1
        };
        assert(edited[k] == parts[m]);
    } else {
        let i = choose|i: int|
            0 <= i < parts.len() - 1 && #[trigger] commute(parts, i, short) && edited == swapped(
                parts,
                i,
            );
        let m = if k == i {
            i + 1
        } else if k == i + 1 {
            i
        } else {
            k
        };
        assert(edited[k] == parts[m]);
    }
}

proof fn lemma_link_query(query: Seq<char>)
    ensures
        cut_first("tg://proxy?"@ + query, '?') is Some,
        cut_first("tg://proxy?"@ + query, '?')->Some_0.1 == query,
{
    let link = "tg://proxy?"@ + query;
    reveal_strlit("tg://proxy?");
    assert("tg://proxy?"@.len() == 11);
    assert forall|k: int| 0 <= k < 10 implies link[k] != '?' by {
        assert(link[k] == "tg://proxy?"@[k]);
    }
    assert(link[10] == "tg://proxy?"@[10]);
    lemma_first_index_is(link, '?', 10);
    assert(link.skip(11) =~= query);
}

/// What a URL that names a proxy with this secret has to be read as: 16 bytes, perhaps after 0xdd,
/// are a secret as they are; those after 0xee name a domain to hide behind; and no others are
/// secrets.
pub open spec fn proxy_called_for(host: Seq<char>, port: u16, secret: Seq<u8>) -> Reading<
    ConfigView,
> {
    let domain = secret.skip(17);
    if secret.len() == 16 || (secret.len() == 17 && secret[0] == 0xdd) {
        Reading::Read(ConfigView { host, port, secret, domain: None })
    } else if secret.len() < 18 || secret[0] != 0xee {
        Reading::Refused(MtProxyError::UnsupportedSecret)
    } else if !valid_utf8(domain) {
        Reading::Refused(MtProxyError::InvalidSecretDomain)
    } else {
        Reading::Read(ConfigView { host, port, secret, domain: Some(decode_utf8(domain)) })
    }
}

/// One part of a query: that `key` is `value`.
pub open spec fn assigned(key: Seq<char>, value: Seq<char>) -> Seq<char> {
    key + seq!['='] + value
}

/// Whether there are only hexadecimal digits, in lower case, and percent signs in `text`.
pub open spec fn is_hex_or_percent(text: Seq<char>) -> bool {
    forall|i: int|
        0 <= i < text.len() ==> '0' <= #[trigger] text[i] <= '9' || 'a' <= text[i] <= 'f' || text[i]
            == '%'
}

proof fn lemma_written_chars(bytes: Seq<u8>, n: nat)
    ensures
        is_hex_or_percent(hex_text(bytes)),
        !hex_text(bytes).contains('%'),
        is_hex_or_percent(percent_text(bytes)),
        is_hex_or_percent(decimal_text(n)),
{
    lemma_decimal_text(n);
}

proof fn lemma_config_of_hex(host: Seq<char>, port: u16, secret: Seq<u8>)
    ensures
        config_of(host, port, hex_text(secret)) == proxy_called_for(host, port, secret),
        percent_sliceable(hex_text(secret)),
        percent_decoded(hex_text(secret)) == hex_text(secret),
{
    let text = hex_text(secret);
    let nothing = Seq::<char>::empty();
    lemma_written_chars(secret, 0);
    law_hex_is_read_back(secret);
    law_trimming_takes_off_white_space(nothing, text, nothing);
    assert(nothing + text + nothing =~= text);
    assert(is_ascii_chars(text));
    is_ascii_chars_encode_utf8(text);
    encode_utf8_valid_utf8(text);
    encode_utf8_decode_utf8(text);
    let bytes = encode_utf8(text);
    assert forall|i: int| 0 <= i < bytes.len() implies #[trigger] bytes[i] != 0x25 && bytes[i]
        != 0x2b by {
        assert(bytes[i] == text[i] as u8);
        assert(text.contains(text[i]));
    }
    law_plain_bytes_stand_for_themselves(bytes);
}

proof fn lemma_assigned(key: Seq<char>, value: Seq<char>)
    requires
        !key.contains('='),
    ensures
        cut_first(assigned(key, value), '=') == Some((key, value)),
        !key.contains('&') && !value.contains('&') ==> !assigned(key, value).contains('&'),
{
    law_texts_are_cut_at_the_separator(key, value, '=');
    if !key.contains('&') && !value.contains('&') {
        let part = assigned(key, value);
        assert forall|i: int| 0 <= i < part.len() implies part[i] != '&' by {
            if i < key.len() {
                assert(part[i] == key[i]);
                assert(key.contains(key[i]));
            } else if i > key.len() {
                assert(part[i] == value[i - key.len() - 1]);
                assert(value.contains(value[i - key.len() - 1]));
            }
        }
    }
}

proof fn lemma_plain_keys()
    ensures
        !"server"@.contains('=') && !"server"@.contains('&'),
        !"port"@.contains('=') && !"port"@.contains('&'),
        !"secret"@.contains('=') && !"secret"@.contains('&'),
        !"s"@.contains('=') && !"s"@.contains('&'),
{
    reveal_strlit("server");
    reveal_strlit("port");
    reveal_strlit("secret");
    reveal_strlit("s");
}

/// The part of a query that names `host`, which may hold anything.
pub open spec fn server_part(host: Seq<char>) -> Seq<char> {
    assigned("server"@, percent_text(encode_utf8(host)))
}

/// The part of a query that names `port`.
pub open spec fn port_part(port: u16) -> Seq<char> {
    assigned("port"@, decimal_text(port as nat))
}

proof fn lemma_parts(host: Seq<char>, port: u16, secret: Seq<u8>)
    requires
        port > 0,
    ensures
        ({
            let part = server_part(host);
            &&& sets(part, "server"@) && !sets(part, "port"@) && !sets_secret(part, true)
            &&& percent_sliceable(value_of(part)) && percent_decoded(value_of(part)) == host
            &&& !bad_port(part) && !part.contains('&')
        }),
        ({
            let part = port_part(port);
            &&& sets(part, "port"@) && !sets(part, "server"@) && !sets_secret(part, true)
            &&& port_number(value_of(part)) == Some(port)
            &&& !bad_port(part) && !part.contains('&')
        }),
        forall|key: Seq<char>|
            key == "secret"@ || key == "s"@ ==> {
                let part = #[trigger] assigned(key, hex_text(secret));
                &&& sets(part, key) && !sets(part, "server"@) && !sets(part, "port"@)
                &&& key == "s"@ ==> !sets(part, "secret"@)
                &&& value_of(part) == hex_text(secret)
                &&& !bad_port(part) && !part.contains('&')
            },
{
    let encoded = percent_text(encode_utf8(host));
    lemma_keys_differ();
    lemma_plain_keys();
    lemma_written_chars(encode_utf8(host), port as nat);
    lemma_written_chars(secret, port as nat);
    assert(!encoded.contains('&') && !decimal_text(port as nat).contains('&') && !hex_text(
        secret,
    ).contains('&'));
    lemma_assigned("server"@, encoded);
    lemma_assigned("port"@, decimal_text(port as nat));
    lemma_assigned("secret"@, hex_text(secret));
    lemma_assigned("s"@, hex_text(secret));
    law_percent_encoding_is_read_back(host);
    law_ports_are_read_back(port as nat, Seq::empty(), 0);
    reveal_strlit("secret");
    reveal_strlit("s");
    assert("secret"@.len() != "s"@.len());
}

proof fn lemma_query_of_parts(
    host: Seq<char>,
    port: u16,
    key: Seq<char>,
    secret: Seq<u8>,
    short: bool,
)
    requires
        port > 0,
        key == "secret"@ || (short && key == "s"@),
    ensures
        ({
            let named = seq![server_part(host), port_part(port)];
            let kept = seq![assigned(key, hex_text(secret))];
            &&& query_of(joined(named + kept, '&'), short) == Reading::Read(
                QueryView { host: Some(host), port: Some(port), secret: Some(hex_text(secret)) },
            )
            &&& query_of(joined(named, '&'), short) == Reading::Read(
                QueryView { host: Some(host), port: Some(port), secret: None },
            )
            &&& query_of(joined(kept, '&'), short) == Reading::Read(
                QueryView { host: None, port: None, secret: Some(hex_text(secret)) },
            )
        }),
{
    let named = seq![server_part(host), port_part(port)];
    let kept = seq![assigned(key, hex_text(secret))];
    let all = named + kept;
    lemma_keys_differ();
    lemma_parts(host, port, secret);
    lemma_config_of_hex(host, port, secret);
    assert(all =~= seq![server_part(host), port_part(port), assigned(key, hex_text(secret))]);
    assert(ports_valid(all) && ports_valid(named) && ports_valid(kept));
    assert(decodable(all, short) && decodable(named, short) && decodable(kept, short));
    lemma_query_of_joined(all, short);
    lemma_query_of_joined(named, short);
    lemma_query_of_joined(kept, short);
    assert(all.drop_last() =~= named);
    assert(named.drop_last() =~= seq![server_part(host)]);
    assert(seq![server_part(host)].drop_last() =~= Seq::<Seq<char>>::empty());
    assert(kept.drop_last() =~= Seq::<Seq<char>>::empty());
    reveal_with_fuel(last_host, 4);
    reveal_with_fuel(last_port, 4);
    reveal_with_fuel(last_secret, 4);
}

/// A proxy is read back from a link that names it, in either of the two forms of a link, whatever
/// its host, its port and its secret are; a secret that is none is refused.
pub proof fn law_links_are_read_back(host: Seq<char>, port: u16, secret: Seq<u8>)
    requires
        port > 0,
    ensures
        ({
            let query = joined(
                seq![server_part(host), port_part(port)] + seq![
                    assigned("secret"@, hex_text(secret)),
                ],
                '&',
            );
            let called_for = Some(proxy_called_for(host, port, secret));
            &&& url_config("tg://proxy?"@ + query) == called_for
            &&& url_config("https://t.me/proxy?"@ + query) == called_for
        }),
{
    let query = joined(
        seq![server_part(host), port_part(port)] + seq![assigned("secret"@, hex_text(secret))],
        '&',
    );
    lemma_query_of_parts(host, port, "secret"@, secret, false);
    lemma_config_of_hex(host, port, secret);
    lemma_link_query(query);
    let short = "tg://proxy?"@ + query;
    assert(short.take("tg://proxy?"@.len() as int) =~= "tg://proxy?"@);
    let long = "https://t.me/proxy?"@ + query;
    assert(long.take("https://t.me/proxy?"@.len() as int) =~= "https://t.me/proxy?"@);
    reveal_strlit("https://t.me/proxy?");
    assert("https://t.me/proxy?"@.len() == 19);
    assert forall|k: int| 0 <= k < 18 implies long[k] != '?' by {
        assert(long[k] == "https://t.me/proxy?"@[k]);
    }
    assert(long[18] == "https://t.me/proxy?"@[18]);
    lemma_first_index_is(long, '?', 18);
    assert(long.skip(19) =~= query);
}

proof fn lemma_mtproxy_url(rest: Seq<char>)
    ensures
        url_config("mtproxy://"@ + rest) == Some(mtproxy_config("mtproxy://"@ + rest)),
        has_prefix("mtproxy://"@ + rest, "mtproxy://"@),
        ("mtproxy://"@ + rest).skip("mtproxy://"@.len() as int) == rest,
{
    let url = "mtproxy://"@ + rest;
    reveal_strlit("mtproxy://");
    reveal_strlit("tg://proxy?");
    reveal_strlit("https://t.me/proxy?");
    assert(url.take("mtproxy://"@.len() as int) =~= "mtproxy://"@);
    assert(url.skip("mtproxy://"@.len() as int) =~= rest);
    assert(url[0] == 'm');
    if has_prefix(url, "tg://proxy?"@) {
        assert(url.take("tg://proxy?"@.len() as int)[0] == 't');
    }
    if has_prefix(url, "https://t.me/proxy?"@) {
        assert(url.take("https://t.me/proxy?"@.len() as int)[0] == 'h');
    }
}

proof fn lemma_endpoint(host: Seq<char>, port: u16)
    requires
        port > 0,
    ensures
        ({
            let endpoint = host + seq![':'] + decimal_text(port as nat);
            &&& endpoint_of(endpoint) == Reading::Read((host, port))
            &&& endpoint.contains(':')
            &&& !host.contains('?') ==> !endpoint.contains('?')
            &&& !host.contains('/') ==> !endpoint.contains('/')
        }),
{
    let digits = decimal_text(port as nat);
    let endpoint = host + seq![':'] + digits;
    lemma_decimal_text(port as nat);
    assert(!digits.contains(':'));
    law_texts_are_cut_at_the_separator(host, digits, ':');
    law_ports_are_read_back(port as nat, Seq::empty(), 0);
    assert(endpoint[host.len() as int] == ':');
    assert forall|c: char| (c == '?' || c == '/') && !host.contains(c) implies !(
    #[trigger] endpoint.contains(c)) by {
        assert forall|k: int| 0 <= k < endpoint.len() implies endpoint[k] != c by {
            if k < host.len() {
                assert(endpoint[k] == host[k]);
                assert(host.contains(host[k]));
            } else if k > host.len() {
                assert(endpoint[k] == digits[k - host.len() - 1]);
            }
        }
    }
}

/// A proxy is read back from a URL of the other scheme in every one of its forms: with the secret
/// after the host and the port, with the secret in a query, under either name, and with only the
/// secret before a query that says the rest.
pub proof fn law_mtproxy_urls_are_read_back(
    host: Seq<char>,
    port: u16,
    secret: Seq<u8>,
    any: Seq<char>,
)
    requires
        port > 0,
        !any.contains('?'),
        !any.contains(':'),
    ensures
        ({
            let scheme = "mtproxy://"@;
            let endpoint = host + seq![':'] + decimal_text(port as nat);
            let kept = seq![assigned("secret"@, hex_text(secret))];
            let brief = seq![assigned("s"@, hex_text(secret))];
            let named = seq![server_part(host), port_part(port)];
            let called_for = Some(proxy_called_for(host, port, secret));
            &&& !host.contains('?') && !host.contains('/') ==> url_config(
                scheme + (endpoint + seq!['/'] + hex_text(secret)),
            ) == called_for
            &&& !host.contains('?') ==> url_config(
                scheme + (endpoint + seq!['?'] + joined(kept, '&')),
            ) == called_for
            &&& !host.contains('?') ==> url_config(
                scheme + (endpoint + seq!['?'] + joined(brief, '&')),
            ) == called_for
            &&& url_config(scheme + (hex_text(secret) + seq!['?'] + joined(named, '&')))
                == called_for
            &&& url_config(scheme + (any + seq!['?'] + joined(named + kept, '&'))) == called_for
        }),
{
    let endpoint = host + seq![':'] + decimal_text(port as nat);
    let hex = hex_text(secret);
    let kept = seq![assigned("secret"@, hex)];
    let brief = seq![assigned("s"@, hex)];
    let named = seq![server_part(host), port_part(port)];
    lemma_endpoint(host, port);
    lemma_config_of_hex(host, port, secret);
    lemma_query_of_parts(host, port, "secret"@, secret, true);
    lemma_query_of_parts(host, port, "s"@, secret, true);
    lemma_written_chars(secret, 0);
    assert(!hex.contains('?') && !hex.contains(':'));
    if !host.contains('?') {
        lemma_mtproxy_query(endpoint, joined(kept, '&'));
        lemma_mtproxy_query(endpoint, joined(brief, '&'));
        if !host.contains('/') {
            lemma_mtproxy_path(endpoint, hex);
        }
    }
    lemma_mtproxy_query(hex, joined(named, '&'));
    lemma_mtproxy_query(any, joined(named + kept, '&'));
}

proof fn lemma_mtproxy_query(authority: Seq<char>, query: Seq<char>)
    requires
        !authority.contains('?'),
    ensures
        url_config("mtproxy://"@ + (authority + seq!['?'] + query)) == Some(
            match query_of(query, true) {
                Reading::Cut => Reading::Cut,
                Reading::Refused(err) => Reading::Refused(err),
                Reading::Read(said) => authority_config(authority, said),
            },
        ),
{
    lemma_mtproxy_url(authority + seq!['?'] + query);
    law_texts_are_cut_at_the_separator(authority, query, '?');
}

proof fn lemma_mtproxy_path(endpoint: Seq<char>, secret: Seq<char>)
    requires
        !endpoint.contains('?'),
        !endpoint.contains('/'),
        !secret.contains('?'),
    ensures
        url_config("mtproxy://"@ + (endpoint + seq!['/'] + secret)) == Some(
            match endpoint_of(endpoint) {
                Reading::Cut => Reading::Cut,
                Reading::Refused(err) => Reading::Refused(err),
                Reading::Read((host, port)) => config_of(host, port, secret),
            },
        ),
{
    let plain = endpoint + seq!['/'] + secret;
    lemma_mtproxy_url(plain);
    law_texts_are_cut_at_the_separator(endpoint, secret, '/');
    assert forall|k: int| 0 <= k < plain.len() implies plain[k] != '?' by {
        if k < endpoint.len() {
            assert(plain[k] == endpoint[k]);
            assert(endpoint.contains(endpoint[k]));
        } else if k > endpoint.len() {
            assert(plain[k] == secret[k - endpoint.len() - 1]);
            assert(secret.contains(secret[k - endpoint.len() - 1]));
        }
    }
    assert(!plain.contains('?'));
    law_texts_are_cut_at_the_separator(plain, plain, '?');
}

/// Keys are derived from the 16 bytes of a secret, whether they stand alone or after a tag and
/// perhaps before a domain.
pub proof fn law_key_bytes_of_a_secret(tag: u8, key: Seq<u8>, domain: Seq<u8>)
    requires
        key.len() == 16,
    ensures
        proxy_secret_of(key) == Some(key),
        proxy_secret_of(seq![tag] + key + domain) == Some(key),
        forall|secret: Seq<u8>| secret.len() < 16 ==> #[trigger] proxy_secret_of(secret) is None,
{
    assert((seq![tag] + key + domain).subrange(1, 17) =~= key);
}

/// A link that leaves something out is refused for that: for the host before all else, then for the
/// port, then for the secret. One that names something that is no port is refused for the port,
/// whatever else it says before.
pub proof fn law_incomplete_links_are_refused(
    host: Seq<char>,
    port: u16,
    secret: Seq<u8>,
    bad: Seq<char>,
)
    requires
        port > 0,
        port_number(bad) is None,
        !bad.contains('&'),
    ensures
        ({
            let link = "tg://proxy?"@;
            let server = server_part(host);
            let number = port_part(port);
            let kept = assigned("secret"@, hex_text(secret));
            let wrong = assigned("port"@, bad);
            &&& tg_proxy_config(link + joined(seq![number, kept], '&')) == Reading::<
                ConfigView,
            >::Refused(MtProxyError::HostMissing)
            &&& tg_proxy_config(link + joined(seq![server, kept], '&')) == Reading::<
                ConfigView,
            >::Refused(MtProxyError::PortMissing)
            &&& tg_proxy_config(link + joined(seq![server, number], '&')) == Reading::<
                ConfigView,
            >::Refused(MtProxyError::SecretMissing)
            &&& tg_proxy_config(link + joined(seq![server, kept, wrong], '&')) == Reading::<
                ConfigView,
            >::Refused(MtProxyError::InvalidPort)
        }),
{
    let server = server_part(host);
    let number = port_part(port);
    let kept = assigned("secret"@, hex_text(secret));
    let wrong = assigned("port"@, bad);
    lemma_keys_differ();
    lemma_plain_keys();
    lemma_parts(host, port, secret);
    lemma_config_of_hex(host, port, secret);
    lemma_assigned("port"@, bad);
    lemma_two_parts(number, kept);
    lemma_two_parts(server, kept);
    lemma_two_parts(server, number);
    let mistaken = seq![server, kept, wrong];
    law_cutting_undoes_joining(mistaken, '&');
    lemma_link_query(joined(mistaken, '&'));
    assert(bad_port(mistaken[2]));
    assert(decodable(mistaken, false));
}

proof fn lemma_two_parts(one: Seq<char>, two: Seq<char>)
    requires
        !one.contains('&') && !two.contains('&'),
        !bad_port(one) && !bad_port(two),
        sets(one, "server"@) || sets_secret(one, false) ==> percent_sliceable(value_of(one)),
        sets(two, "server"@) || sets_secret(two, false) ==> percent_sliceable(value_of(two)),
        !sets(one, "server"@) || !sets(two, "server"@),
        !sets(one, "port"@) || !sets(two, "port"@),
        !sets_secret(one, false) || !sets_secret(two, false),
    ensures
        ({
            let read = tg_proxy_config("tg://proxy?"@ + joined(seq![one, two], '&'));
            if !sets(one, "server"@) && !sets(two, "server"@) {
                read == Reading::<ConfigView>::Refused(MtProxyError::HostMissing)
            } else if !sets(one, "port"@) && !sets(two, "port"@) {
                read == Reading::<ConfigView>::Refused(MtProxyError::PortMissing)
            } else if !sets_secret(one, false) && !sets_secret(two, false) {
                read == Reading::<ConfigView>::Refused(MtProxyError::SecretMissing)
            } else {
                true
            }
        }),
{
    let parts = seq![one, two];
    assert(writable(parts, false));
    lemma_query_of_joined(parts, false);
    lemma_link_query(joined(parts, '&'));
    assert(parts.drop_last() =~= seq![one]);
    assert(seq![one].drop_last() =~= Seq::<Seq<char>>::empty());
    reveal_with_fuel(last_host, 3);
    reveal_with_fuel(last_port, 3);
    reveal_with_fuel(last_secret, 3);
}

} // verus!
