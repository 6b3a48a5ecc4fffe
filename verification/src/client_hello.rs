//! The TLS client hello that a connection through a fake-TLS proxy opens with.

use vstd::prelude::*;
use vstd::slice::slice_subrange;
use vstd::utf8::encode_utf8;

use crate::digest::{hmac, hmac_sha256};
use crate::errors::MtProxyError;
use crate::octets::{append, be_bytes, le_bytes, le_u32, lemma_be_bytes_len, push_zeros, zeros};
use crate::random::{unix_time, Draw, Draws};
use crate::tls_record::push_u16;

verus! {

/// The length of every client hello.
pub const TLS_REQUEST_LENGTH: usize = 517;

/// The longest domain that still fits into a client hello.
pub const MAX_HELLO_DOMAIN: usize = 216;

/// Where the client random stands in a hello.
pub const RANDOM_START: usize = 11;

/// Where the client random ends in a hello.
pub const RANDOM_END: usize = 43;

/// Where the server name stands in a hello.
pub const DOMAIN_START: usize = 129;

/// The record and handshake headers and the protocol version.
pub const HELLO_HEAD: [u8; 11] = [
    0x16, 0x03, 0x01, 0x02, 0x00, 0x01, 0x00, 0x01, 0xfc, 0x03, 0x03,
];

/// The length of the session identifier.
pub const SESSION_HEAD: [u8; 1] = [0x20];

/// The length of the list of cipher suites.
pub const CIPHER_SUITES_HEAD: [u8; 2] = [0x00, 0x22];

/// The cipher suites after the grease one, the compression methods and the length of the
/// extensions.
pub const CIPHER_SUITES: [u8; 36] = [
    0x13, 0x01, 0x13, 0x02, 0x13, 0x03, 0xc0, 0x2b, 0xc0, 0x2f, 0xc0, 0x2c, 0xc0, 0x30, 0xcc, 0xa9,
    0xcc, 0xa8, 0xc0, 0x13, 0xc0, 0x14, 0x00, 0x9c, 0x00, 0x9d, 0x00, 0x2f, 0x00, 0x35, 0x00, 0x0a,
    0x01, 0x00, 0x01, 0x91,
];

/// The end of the first grease extension and the tag of the server name.
pub const SERVER_NAME_HEAD: [u8; 4] = [0x00, 0x00, 0x00, 0x00];

/// The type of the name in the server name extension.
pub const HOST_NAME: [u8; 1] = [0x00];

/// Extended master secret, renegotiation info, and the head of the supported groups.
pub const GROUPS_HEAD: [u8; 15] = [
    0x00, 0x17, 0x00, 0x00, 0xff, 0x01, 0x00, 0x01, 0x00, 0x00, 0x0a, 0x00, 0x0a, 0x00, 0x08,
];

/// The supported groups after the grease one, up to the head of the key shares.
pub const GROUPS: [u8; 77] = [
    0x00, 0x1d, 0x00, 0x17, 0x00, 0x18, 0x00, 0x0b, 0x00, 0x02, 0x01, 0x00, 0x00, 0x23, 0x00, 0x00,
    0x00, 0x10, 0x00, 0x0e, 0x00, 0x0c, 0x02, 0x68, 0x32, 0x08, 0x68, 0x74, 0x74, 0x70, 0x2f, 0x31,
    0x2e, 0x31, 0x00, 0x05, 0x00, 0x05, 0x01, 0x00, 0x00, 0x00, 0x00, 0x00, 0x0d, 0x00, 0x14, 0x00,
    0x12, 0x04, 0x03, 0x08, 0x04, 0x04, 0x01, 0x05, 0x03, 0x08, 0x05, 0x05, 0x01, 0x08, 0x06, 0x06,
    0x01, 0x02, 0x01, 0x00, 0x12, 0x00, 0x00, 0x00, 0x33, 0x00, 0x2b, 0x00, 0x29,
];

/// The grease key share and the head of the real one.
pub const KEY_SHARE_HEAD: [u8; 7] = [0x00, 0x01, 0x00, 0x00, 0x1d, 0x00, 0x20];

/// The key exchange modes and the head of the supported versions.
pub const VERSIONS_HEAD: [u8; 11] = [
    0x00, 0x2d, 0x00, 0x02, 0x01, 0x01, 0x00, 0x2b, 0x00, 0x0b, 0x0a,
];

/// The supported versions after the grease one, and certificate compression.
pub const VERSIONS: [u8; 15] = [
    0x03, 0x04, 0x03, 0x03, 0x03, 0x02, 0x03, 0x01, 0x00, 0x1b, 0x00, 0x03, 0x02, 0x00, 0x02,
];

/// The end of the last grease extension and the tag of the padding.
pub const PADDING_HEAD: [u8; 5] = [0x00, 0x01, 0x00, 0x00, 0x15];

/// A random byte brought to the form that grease values have.
pub open spec fn grease(raw: u8) -> u8 {
    ((raw & 0xf0) + 0x0a) as u8
}

/// The grease values that seven random bytes give; of each pair the second is changed where it
/// would repeat the first.
pub open spec fn greases(raw: Seq<u8>) -> Seq<u8> {
    Seq::new(
        7,
        |i: int|
            if i % 2 == 1 && grease(raw[i]) == grease(raw[i - 1]) {
                grease(raw[i]) ^ 0x10
            } else {
                grease(raw[i])
            },
    )
}

/// A grease value as it is written: twice.
pub open spec fn twice(value: u8) -> Seq<u8> {
    seq![value, value]
}

/// A client hello up to its padding, with zeros for the client random.
pub open spec fn hello_start(
    domain: Seq<u8>,
    g: Seq<u8>,
    session: Seq<u8>,
    share: Seq<u8>,
) -> Seq<u8> {
    let d = domain.len();
    HELLO_HEAD@ + zeros(32) + SESSION_HEAD@ + session + CIPHER_SUITES_HEAD@ + twice(g[0])
        + CIPHER_SUITES@ + twice(g[2]) + SERVER_NAME_HEAD@ + be_bytes(d + 5, 2) + be_bytes(d + 3, 2)
        + HOST_NAME@ + be_bytes(d, 2) + domain + GROUPS_HEAD@ + twice(g[4]) + GROUPS@ + twice(g[4])
        + KEY_SHARE_HEAD@ + share + VERSIONS_HEAD@ + twice(g[6]) + VERSIONS@ + twice(g[3])
        + PADDING_HEAD@
}

/// A client hello with zeros for the client random, padded to its full length.
pub open spec fn unsigned_hello(
    domain: Seq<u8>,
    g: Seq<u8>,
    session: Seq<u8>,
    share: Seq<u8>,
) -> Seq<u8> {
    let start = hello_start(domain, g, session, share);
    let padding = (TLS_REQUEST_LENGTH - 2 - start.len()) as nat;
    start + be_bytes(padding, 2) + zeros(padding)
}

/// A code with the time worked into its last four bytes.
pub open spec fn stamp(mac: Seq<u8>, time: u32) -> Seq<u8> {
    Seq::new(
        32,
        |i: int|
            if i < 28 {
                mac[i]
            } else {
                mac[i] ^ le_bytes(time as nat, 4)[i - 28]
            },
    )
}

/// `hello` with zeros for its client random.
pub open spec fn without_random(hello: Seq<u8>) -> Seq<u8> {
    hello.take(RANDOM_START as int) + zeros(32) + hello.skip(RANDOM_END as int)
}

/// `hello` with its time-stamped code as its client random.
pub open spec fn signed(hello: Seq<u8>, secret: Seq<u8>, time: u32) -> Seq<u8> {
    hello.take(RANDOM_START as int) + stamp(hmac(secret, hello)@, time) + hello.skip(
        RANDOM_END as int,
    )
}

/// The client hello for `domain` under `secret`, given the random bytes and the time that go
/// into it.
pub open spec fn client_hello_bytes(
    domain: Seq<u8>,
    secret: Seq<u8>,
    raw_greases: Seq<u8>,
    session: Seq<u8>,
    share: Seq<u8>,
    time: u32,
) -> Seq<u8> {
    signed(unsigned_hello(domain, greases(raw_greases), session, share), secret, time)
}

/// How many random bytes each draw for a client hello asks for: the bytes of the grease values
/// first, then the client random, the session identifier and the key share.
pub open spec fn hello_draw_len(draw: int) -> nat {
    if draw == 0 {
        7
    } else {
        32
    }
}

/// Whether `hello` is what these draws come to at this time: the client hello for `domain` under
/// `secret` made of them, or the error of the first draw that failed. The client random that was
/// drawn is not used, for the code takes its place. That the domain does not fit is noticed after
/// the draws.
pub open spec fn is_drawn_hello(
    hello: Result<Vec<u8>, MtProxyError>,
    draws: Seq<Draw>,
    domain: Seq<u8>,
    secret: Seq<u8>,
    time: u32,
) -> bool {
    &&& 1 <= draws.len() <= 4
    &&& forall|i: int|
        0 <= i < draws.len() ==> (#[trigger] draws[i]).bytes.len() == hello_draw_len(i)
    &&& forall|i: int| 0 <= i < draws.len() - 1 ==> (#[trigger] draws[i]).filled is Ok
    &&& match draws.last().filled {
        Err(err) => err is Random && hello == Err::<Vec<u8>, MtProxyError>(err),
        Ok(()) => {
            &&& draws.len() == 4
            &&& match hello {
                Ok(bytes) => domain.len() <= MAX_HELLO_DOMAIN && bytes@ == client_hello_bytes(
                    domain,
                    secret,
                    draws[0].bytes,
                    draws[2].bytes,
                    draws[3].bytes,
                    time,
                ),
                Err(err) => domain.len() > MAX_HELLO_DOMAIN && err is TlsDomainTooLong,
            }
        },
    }
}

/// Appends `grease` twice.
pub fn push_grease_value(out: &mut Vec<u8>, grease: u8)
    ensures
        final(out)@ == old(out)@ + twice(grease),
{
    out.push(grease);
    out.push(grease);
    assert(out@ =~= old(out)@ + twice(grease));
}

fn grease_values(raw: &[u8; 7]) -> (values: [u8; 7])
    ensures
        values@ == greases(raw@),
{
    let mut values: [u8; 7] = [0u8; 7];
    let mut i: usize = 0;
    while i < 7
        invariant
            i <= 7,
            forall|k: int| 0 <= k < i ==> values@[k] == grease(raw@[k]),
        decreases 7 - i,
    {
        let byte: u8 = raw[i];
        assert((byte & 0xf0) <= 0xf0) by (bit_vector);
        values[i] = (byte & 0xf0) + 0x0a;
        i += 1;
    }
    let mut j: usize = 1;
    while j < 7
        invariant
            j % 2 == 1,
            j <= 7,
            forall|k: int| 0 <= k < j ==> values@[k] == greases(raw@)[k],
            forall|k: int| j <= k < 7 ==> values@[k] == grease(raw@[k]),
        decreases 7 - j,
    {
        if values[j] == values[j - 1] {
            let changed: u8 = values[j] ^ 0x10;
            values[j] = changed;
        }
        assert(values@[j as int] == greases(raw@)[j as int]);
        assert(j + 1 < 7 ==> values@[j + 1] == greases(raw@)[j + 1]);
        j += 2;
    }
    assert(values@ =~= greases(raw@));
    values
}

proof fn lemma_hello_start_len(domain: Seq<u8>, g: Seq<u8>, session: Seq<u8>, share: Seq<u8>)
    requires
        session.len() == 32,
        share.len() == 32,
    ensures
        hello_start(domain, g, session, share).len() == 299 + domain.len(),
{
    lemma_be_bytes_len(domain.len() + 5, 2);
    lemma_be_bytes_len(domain.len() + 3, 2);
    lemma_be_bytes_len(domain.len(), 2);
}

/// The client hello for `domain` under `secret`, from the random bytes and the time that go into
/// it. A domain that does not fit is refused.
pub fn client_hello(
    domain: &str,
    secret: &[u8; 16],
    raw_greases: &[u8; 7],
    session: &[u8],
    share: &[u8],
    time: u32,
) -> (hello: Result<Vec<u8>, MtProxyError>)
    requires
        session@.len() == 32,
        share@.len() == 32,
    ensures
        match hello {
            Ok(bytes) => encode_utf8(domain@).len() <= MAX_HELLO_DOMAIN && bytes@
                == client_hello_bytes(
                encode_utf8(domain@),
                secret@,
                raw_greases@,
                session@,
                share@,
                time,
            ),
            Err(err) => encode_utf8(domain@).len() > MAX_HELLO_DOMAIN && err is TlsDomainTooLong,
        },
{
    let name = domain.as_bytes();
    if name.len() > MAX_HELLO_DOMAIN {
        return Err(MtProxyError::TlsDomainTooLong);
    }
    let g: [u8; 7] = grease_values(raw_greases);
    let mut out: Vec<u8> = Vec::new();
    append(&mut out, &HELLO_HEAD);
    push_zeros(&mut out, 32);
    append(&mut out, &SESSION_HEAD);
    append(&mut out, session);
    append(&mut out, &CIPHER_SUITES_HEAD);
    push_grease_value(&mut out, g[0]);
    append(&mut out, &CIPHER_SUITES);
    push_grease_value(&mut out, g[2]);
    append(&mut out, &SERVER_NAME_HEAD);
    push_u16(&mut out, name.len() + 5);
    push_u16(&mut out, name.len() + 3);
    append(&mut out, &HOST_NAME);
    push_u16(&mut out, name.len());
    append(&mut out, name);
    append(&mut out, &GROUPS_HEAD);
    push_grease_value(&mut out, g[4]);
    append(&mut out, &GROUPS);
    push_grease_value(&mut out, g[4]);
    append(&mut out, &KEY_SHARE_HEAD);
    append(&mut out, share);
    append(&mut out, &VERSIONS_HEAD);
    push_grease_value(&mut out, g[6]);
    append(&mut out, &VERSIONS);
    push_grease_value(&mut out, g[3]);
    append(&mut out, &PADDING_HEAD);
    proof {
        assert(Seq::<u8>::empty() + HELLO_HEAD@ =~= HELLO_HEAD@);
        assert(out@ == hello_start(name@, g@, session@, share@));
        lemma_hello_start_len(name@, g@, session@, share@);
    }

    let padding: usize = TLS_REQUEST_LENGTH - 2 - out.len();
    push_u16(&mut out, padding);
    push_zeros(&mut out, padding);
    let ghost unsigned = out@;
    assert(unsigned == unsigned_hello(name@, greases(raw_greases@), session@, share@));
    proof {
        lemma_be_bytes_len(padding as nat, 2);
    }

    let mac: [u8; 32] = hmac_sha256(secret, &out);
    let stamped_time: [u8; 4] = le_u32(time);
    let mut i: usize = 0;
    while i < 32
        invariant
            i <= 32,
            unsigned.len() == TLS_REQUEST_LENGTH == out@.len(),
            stamped_time@ == le_bytes(time as nat, 4),
            forall|k: int|
                0 <= k < out@.len() ==> out@[k] == if RANDOM_START <= k < RANDOM_START + i {
                    stamp(mac@, time)[k - RANDOM_START]
                } else {
                    unsigned[k]
                },
        decreases 32 - i,
    {
        let byte: u8 = if i < 28 {
            mac[i]
        } else {
            mac[i] ^ stamped_time[i - 28]
        };
        out[RANDOM_START + i] = byte;
        i += 1;
    }
    assert(out@ =~= signed(unsigned, secret@, time));
    Ok(out)
}

/// A client hello for `domain` under `secret` at `time`, with fresh random bytes.
pub fn draw_client_hello(
    draws: &mut Draws,
    domain: &str,
    secret: &[u8; 16],
    time: u32,
) -> (hello: Result<Vec<u8>, MtProxyError>)
    ensures
        old(draws).made().len() <= final(draws).made().len(),
        final(draws).made().take(old(draws).made().len() as int) == old(draws).made(),
        is_drawn_hello(
            hello,
            final(draws).made().skip(old(draws).made().len() as int),
            encode_utf8(domain@),
            secret@,
            time,
        ),
{
    let ghost start = draws.made().len() as int;
    let mut raw_greases: [u8; 7] = [0u8; 7];
    let filled = draws.draw(&mut raw_greases);
    assert(draws.made().take(start) =~= old(draws).made());
    match filled {
        Ok(()) => {},
        Err(err) => return Err(err),
    }
    let mut drawn: Vec<u8> = Vec::new();
    let filled = draws.push(&mut drawn, 32);
    assert(draws.made().take(start) =~= old(draws).made());
    match filled {
        Ok(()) => {},
        Err(err) => return Err(err),
    }
    let filled = draws.push(&mut drawn, 32);
    let ghost second = drawn@;
    assert(draws.made().take(start) =~= old(draws).made());
    match filled {
        Ok(()) => {},
        Err(err) => return Err(err),
    }
    let filled = draws.push(&mut drawn, 32);
    assert(draws.made().take(start) =~= old(draws).made());
    match filled {
        Ok(()) => {},
        Err(err) => return Err(err),
    }
    let session = slice_subrange(&drawn, 32, 64);
    let share = slice_subrange(&drawn, 64, 96);
    proof {
        assert(drawn@.take(64) == second);
        assert(session@ =~= second.skip(32));
        assert(share@ =~= drawn@.skip(64));
    }
    client_hello(domain, secret, &raw_greases, session, share, time)
}

/// A fresh client hello for `domain` under `secret`.
pub fn make_tls_client_hello(domain: &str, secret: &[u8; 16]) -> (hello: Result<
    Vec<u8>,
    MtProxyError,
>)
    ensures
        exists|draws: Seq<Draw>, time: u32| #[trigger]
            is_drawn_hello(hello, draws, encode_utf8(domain@), secret@, time),
{
    let mut draws: Draws = Draws::new();
    let time: u32 = unix_time();
    let hello = draw_client_hello(&mut draws, domain, secret, time);
    assert(draws.made().skip(0) =~= draws.made());
    assert(is_drawn_hello(hello, draws.made(), encode_utf8(domain@), secret@, time));
    hello
}

/// As long as the random source does not fail, there is a hello for every domain that fits.
pub proof fn law_hello_comes_back(
    hello: Result<Vec<u8>, MtProxyError>,
    draws: Seq<Draw>,
    domain: Seq<u8>,
    secret: Seq<u8>,
    time: u32,
)
    requires
        is_drawn_hello(hello, draws, domain, secret, time),
        forall|i: int| 0 <= i < draws.len() ==> (#[trigger] draws[i]).filled is Ok,
        domain.len() <= MAX_HELLO_DOMAIN,
    ensures
        hello is Ok,
        hello->Ok_0@.len() == TLS_REQUEST_LENGTH,
{
    assert(draws[draws.len() - 1].filled is Ok);
    assert(draws[2].bytes.len() == 32 && draws[3].bytes.len() == 32);
    law_client_hello_shape(
        domain,
        secret,
        draws[0].bytes,
        draws[2].bytes,
        draws[3].bytes,
        time,
    );
}

proof fn lemma_unsigned_hello(domain: Seq<u8>, g: Seq<u8>, session: Seq<u8>, share: Seq<u8>)
    requires
        domain.len() <= MAX_HELLO_DOMAIN,
        session.len() == 32,
        share.len() == 32,
    ensures
        ({
            let hello = unsigned_hello(domain, g, session, share);
            &&& hello.len() == TLS_REQUEST_LENGTH
            &&& without_random(hello) == hello
            &&& hello.subrange(DOMAIN_START as int, DOMAIN_START + domain.len()) == domain
        }),
{
    let d = domain.len();
    lemma_hello_start_len(domain, g, session, share);
    lemma_be_bytes_len((TLS_REQUEST_LENGTH - 2 - 299 - d) as nat, 2);
    lemma_be_bytes_len(d + 5, 2);
    lemma_be_bytes_len(d + 3, 2);
    lemma_be_bytes_len(d, 2);
    let hello = unsigned_hello(domain, g, session, share);
    let before = HELLO_HEAD@ + zeros(32) + SESSION_HEAD@ + session + CIPHER_SUITES_HEAD@ + twice(
        g[0],
    ) + CIPHER_SUITES@ + twice(g[2]) + SERVER_NAME_HEAD@ + be_bytes(d + 5, 2) + be_bytes(d + 3, 2)
        + HOST_NAME@ + be_bytes(d, 2);
    assert(before.len() == DOMAIN_START);
    assert(hello.take(129 + d as int) =~= before + domain);
    assert(hello.subrange(DOMAIN_START as int, DOMAIN_START + d) =~= domain);
    let opening = HELLO_HEAD@ + zeros(32);
    assert(before.take(43) =~= opening);
    assert(hello.take(43) =~= opening);
    assert(without_random(hello) =~= hello);
}

/// A client hello is always of the same length and carries the domain as its server name.
pub proof fn law_client_hello_shape(
    domain: Seq<u8>,
    secret: Seq<u8>,
    raw_greases: Seq<u8>,
    session: Seq<u8>,
    share: Seq<u8>,
    time: u32,
)
    requires
        domain.len() <= MAX_HELLO_DOMAIN,
        session.len() == 32,
        share.len() == 32,
    ensures
        ({
            let hello = client_hello_bytes(domain, secret, raw_greases, session, share, time);
            &&& hello.len() == TLS_REQUEST_LENGTH
            &&& hello.take(RANDOM_START as int) == HELLO_HEAD@
            &&& hello.subrange(DOMAIN_START as int, DOMAIN_START + domain.len()) == domain
        }),
{
    let unsigned = unsigned_hello(domain, greases(raw_greases), session, share);
    let hello = client_hello_bytes(domain, secret, raw_greases, session, share, time);
    lemma_unsigned_hello(domain, greases(raw_greases), session, share);
    let from = DOMAIN_START as int;
    let to = DOMAIN_START + domain.len();
    assert(hello.subrange(from, to) =~= unsigned.subrange(from, to));
    assert(without_random(unsigned).take(11) =~= unsigned.take(11));
    lemma_hello_start_len(domain, greases(raw_greases), session, share);
    assert(unsigned.take(11) =~= HELLO_HEAD@);
    assert(hello.take(11) =~= HELLO_HEAD@);
}

/// The client random of a hello is the code of the hello with zeros in its place: the first 28
/// bytes as they are, the last four XORed with the time. A holder of the secret can so check the
/// hello and read the time off it.
pub proof fn law_client_hello_is_signed(
    domain: Seq<u8>,
    secret: Seq<u8>,
    raw_greases: Seq<u8>,
    session: Seq<u8>,
    share: Seq<u8>,
    time: u32,
)
    requires
        domain.len() <= MAX_HELLO_DOMAIN,
        session.len() == 32,
        share.len() == 32,
    ensures
        ({
            let hello = client_hello_bytes(domain, secret, raw_greases, session, share, time);
            let mac = hmac(secret, without_random(hello))@;
            &&& hello.subrange(11, 39) == mac.take(28)
            &&& forall|k: int|
                0 <= k < 4 ==> #[trigger] hello[39 + k] ^ mac[28 + k] == le_bytes(time as nat, 4)[k]
        }),
{
    let unsigned = unsigned_hello(domain, greases(raw_greases), session, share);
    let hello = client_hello_bytes(domain, secret, raw_greases, session, share, time);
    lemma_unsigned_hello(domain, greases(raw_greases), session, share);
    let mac = hmac(secret, unsigned)@;
    assert(without_random(hello) =~= without_random(unsigned));
    assert(hello.subrange(11, 39) =~= mac.take(28));
    assert forall|k: int| 0 <= k < 4 implies #[trigger] hello[39 + k] ^ mac[28 + k] == le_bytes(
        time as nat,
        4,
    )[k] by {
        let m = mac[28 + k];
        let t = le_bytes(time as nat, 4)[k];
        assert(hello[39 + k] == m ^ t);
        assert((m ^ t) ^ m == t) by (bit_vector);
    }
}

/// Every grease value has 0xa as its low half, and the two of a pair differ.
pub proof fn law_greases(raw: Seq<u8>)
    ensures
        forall|i: int| 0 <= i < 7 ==> #[trigger] greases(raw)[i] & 0x0f == 0x0a,
        forall|i: int|
            0 <= i < 3 ==> #[trigger] greases(raw)[2 * i] != greases(raw)[2 * i + 1],
{
    assert forall|i: int| 0 <= i < 7 implies #[trigger] greases(raw)[i] & 0x0f == 0x0a by {
        let r = raw[i];
        assert((((r & 0xf0) + 0x0a) as u8) & 0x0f == 0x0a) by (bit_vector);
        assert(((((r & 0xf0) + 0x0a) as u8) ^ 0x10) & 0x0f == 0x0a) by (bit_vector);
    }
    assert forall|i: int| 0 <= i < 3 implies #[trigger] greases(raw)[2 * i] != greases(raw)[2 * i
        + 1] by {
        let g = grease(raw[2 * i + 1]);
        assert((2 * i + 1) % 2 == 1 && (2 * i) % 2 == 0);
        assert(g ^ 0x10 != g) by (bit_vector);
    }
}

#[verifier::spinoff_prover]
proof fn lemma_hello_places(domain: Seq<u8>, g: Seq<u8>, session: Seq<u8>, share: Seq<u8>)
    requires
        domain.len() <= MAX_HELLO_DOMAIN,
        session.len() == 32,
        share.len() == 32,
    ensures
        ({
            let hello = unsigned_hello(domain, g, session, share);
            let d = domain.len() as int;
            &&& hello[43] == 32
            &&& hello.subrange(44, 76) == session
            &&& hello[78] == hello[79] == g[0]
            &&& hello[122] * 256 + hello[123] == d + 5
            &&& hello[124] * 256 + hello[125] == d + 3
            &&& hello[127] * 256 + hello[128] == d
            &&& hello.subrange(232 + d, 264 + d) == share
            &&& hello[299 + d] * 256 + hello[300 + d] == 216 - d
            &&& forall|k: int| 301 + d <= k < 517 ==> #[trigger] hello[k] == 0
        }),
{
    let d = domain.len();
    let n = d as int;
    lemma_hello_start_len(domain, g, session, share);
    lemma_be_bytes_len(d + 5, 2);
    lemma_be_bytes_len(d + 3, 2);
    lemma_be_bytes_len(d, 2);
    let hello = unsigned_hello(domain, g, session, share);
    let start = hello_start(domain, g, session, share);
    let one = HELLO_HEAD@ + zeros(32) + SESSION_HEAD@;
    let two = one + session;
    let three = two + CIPHER_SUITES_HEAD@ + twice(g[0]);
    let naming = three + CIPHER_SUITES@ + twice(g[2]) + SERVER_NAME_HEAD@;
    let listing = naming + be_bytes(d + 5, 2) + be_bytes(d + 3, 2);
    let four = listing + HOST_NAME@;
    let five = four + be_bytes(d, 2);
    let six = five + domain + GROUPS_HEAD@ + twice(g[4]) + GROUPS@ + twice(g[4])
        + KEY_SHARE_HEAD@;
    let seven = six + share;
    assert(start == seven + VERSIONS_HEAD@ + twice(g[6]) + VERSIONS@ + twice(g[3]) + PADDING_HEAD@);
    assert(one.len() == 44 && two.len() == 76 && three.len() == 80 && four.len() == 127);
    assert(five.len() == 129 && six.len() == 232 + d && seven.len() == 264 + d);
    assert(hello.take(264 + n) =~= seven);
    assert(seven.subrange(232 + n, 264 + n) =~= share);
    assert(hello.subrange(232 + n, 264 + n) =~= hello.take(264 + n).subrange(232 + n, 264 + n));
    assert(seven.take(129) =~= five);
    assert(hello.take(129) =~= hello.take(264 + n).take(129));
    assert(five.take(80) =~= three);
    assert(hello.take(80) =~= hello.take(129).take(80));
    assert(three.subrange(44, 76) =~= session);
    assert(hello.subrange(44, 76) =~= hello.take(80).subrange(44, 76));
    assert(hello[43] == hello.take(80)[43] && three[43] == one[43]);
    assert(hello[78] == hello.take(80)[78] && hello[79] == hello.take(80)[79]);
    assert(three[78] == g[0] && three[79] == g[0]);
    reveal_with_fuel(be_bytes, 3);
    assert(be_bytes(d, 2) =~= seq![((d / 256) % 256) as u8, (d % 256) as u8]);
    assert(hello[127] == hello.take(129)[127] && hello[128] == hello.take(129)[128]);
    assert(five[127] == be_bytes(d, 2)[0] && five[128] == be_bytes(d, 2)[1]);
    assert(be_bytes(d + 5, 2) =~= seq![(((d + 5) / 256) % 256) as u8, ((d + 5) % 256) as u8]);
    assert(be_bytes(d + 3, 2) =~= seq![(((d + 3) / 256) % 256) as u8, ((d + 3) % 256) as u8]);
    assert(naming.len() == 122 && listing.len() == 126);
    assert(five.take(126) =~= listing);
    assert(hello.take(126) =~= hello.take(129).take(126));
    assert(hello[122] == hello.take(126)[122] && hello[123] == hello.take(126)[123]);
    assert(hello[124] == hello.take(126)[124] && hello[125] == hello.take(126)[125]);
    assert(listing[122] == be_bytes(d + 5, 2)[0] && listing[123] == be_bytes(d + 5, 2)[1]);
    assert(listing[124] == be_bytes(d + 3, 2)[0] && listing[125] == be_bytes(d + 3, 2)[1]);
    let padding = (216 - d) as nat;
    assert(hello == start + be_bytes(padding, 2) + zeros(padding));
    assert(be_bytes(padding, 2) =~= seq![((padding / 256) % 256) as u8, (padding % 256) as u8]);
    assert(hello[299 + n] == be_bytes(padding, 2)[0] && hello[300 + n] == be_bytes(padding, 2)[1]);
}

proof fn lemma_signed_places(
    domain: Seq<u8>,
    secret: Seq<u8>,
    raw_greases: Seq<u8>,
    session: Seq<u8>,
    share: Seq<u8>,
    time: u32,
)
    requires
        domain.len() <= MAX_HELLO_DOMAIN,
        session.len() == 32,
        share.len() == 32,
    ensures
        ({
            let hello = client_hello_bytes(domain, secret, raw_greases, session, share, time);
            let blank = hello.take(11) + Seq::new(32, |i: int| 0u8) + hello.skip(43);
            let code = hmac(secret, blank)@;
            &&& hello.subrange(11, 39) == code.take(28)
            &&& hello[39] ^ code[28] == time % 0x100
            &&& hello[40] ^ code[29] == time / 0x100 % 0x100
            &&& hello[41] ^ code[30] == time / 0x1_0000 % 0x100
            &&& hello[42] ^ code[31] == time / 0x100_0000
        }),
{
    let hello = client_hello_bytes(domain, secret, raw_greases, session, share, time);
    let blank = hello.take(11) + Seq::new(32, |i: int| 0u8) + hello.skip(43);
    law_client_hello_is_signed(domain, secret, raw_greases, session, share, time);
    assert(Seq::new(32, |i: int| 0u8) =~= zeros(32));
    assert(without_random(hello) == blank);
    let stamped = le_bytes(time as nat, 4);
    let code = hmac(secret, blank)@;
    reveal_with_fuel(le_bytes, 5);
    let (first, second, third, fourth) = (0int, 1int, 2int, 3int);
    assert(hello[39 + first] ^ code[28 + first] == stamped[first]);
    assert(hello[39 + second] ^ code[28 + second] == stamped[second]);
    assert(hello[39 + third] ^ code[28 + third] == stamped[third]);
    assert(hello[39 + fourth] ^ code[28 + fourth] == stamped[fourth]);
}

/// What was drawn for a hello and the time it was made at are in it, each in its place, and the
/// client random is the code of all the rest with the time worked into its end.
pub proof fn law_drawn_hello_holds_its_draws(
    bytes: Vec<u8>,
    draws: Seq<Draw>,
    domain: Seq<u8>,
    secret: Seq<u8>,
    time: u32,
)
    requires
        is_drawn_hello(Ok(bytes), draws, domain, secret, time),
    ensures
        ({
            let hello = bytes@;
            let d = domain.len() as int;
            let raw = draws[0].bytes[0];
            let blank = hello.take(11) + Seq::new(32, |i: int| 0u8) + hello.skip(43);
            let code = hmac(secret, blank)@;
            &&& draws.len() == 4
            &&& draws[0].bytes.len() == 7
            &&& hello.len() == 517
            &&& hello.take(11) == seq![
                0x16u8,
                0x03u8,
                0x01u8,
                0x02u8,
                0x00u8,
                0x01u8,
                0x00u8,
                0x01u8,
                0xfcu8,
                0x03u8,
                0x03u8,
            ]
            &&& hello[43] == 32
            &&& hello.subrange(44, 76) == draws[2].bytes
            &&& hello[78] == hello[79] == (raw & 0xf0) + 0x0a
            &&& hello[122] * 256 + hello[123] == d + 5
            &&& hello[124] * 256 + hello[125] == d + 3
            &&& hello[127] * 256 + hello[128] == d
            &&& hello.subrange(129, 129 + d) == domain
            &&& hello.subrange(232 + d, 264 + d) == draws[3].bytes
            &&& hello[299 + d] * 256 + hello[300 + d] == 216 - d
            &&& forall|k: int| 301 + d <= k < 517 ==> #[trigger] hello[k] == 0
            &&& hello.subrange(11, 39) == code.take(28)
            &&& hello[39] ^ code[28] == time % 0x100
            &&& hello[40] ^ code[29] == time / 0x100 % 0x100
            &&& hello[41] ^ code[30] == time / 0x1_0000 % 0x100
            &&& hello[42] ^ code[31] == time / 0x100_0000
        }),
{
    let hello = bytes@;
    let d = domain.len() as int;
    let session = draws[2].bytes;
    let share = draws[3].bytes;
    let g = greases(draws[0].bytes);
    assert(draws[0].bytes.len() == 7 && session.len() == 32 && share.len() == 32);
    law_client_hello_shape(domain, secret, draws[0].bytes, session, share, time);
    lemma_unsigned_hello(domain, g, session, share);
    lemma_hello_places(domain, g, session, share);
    let unsigned = unsigned_hello(domain, g, session, share);
    assert(hello == signed(unsigned, secret, time));
    assert(hello.skip(43) =~= unsigned.skip(43));
    assert forall|k: int| 43 <= k < 517 implies #[trigger] hello[k] == unsigned[k] by {
        assert(hello[k] == hello.skip(43)[k - 43]);
    }
    assert(hello.subrange(44, 76) =~= unsigned.subrange(44, 76));
    assert(hello.subrange(232 + d, 264 + d) =~= unsigned.subrange(232 + d, 264 + d));
    assert(HELLO_HEAD@ =~= seq![
        0x16u8,
        0x03u8,
        0x01u8,
        0x02u8,
        0x00u8,
        0x01u8,
        0x00u8,
        0x01u8,
        0xfcu8,
        0x03u8,
        0x03u8,
    ]);
    let raw = draws[0].bytes[0];
    assert((raw & 0xf0) <= 0xf0) by (bit_vector);
    lemma_signed_places(domain, secret, draws[0].bytes, session, share, time);
}

} // verus!
