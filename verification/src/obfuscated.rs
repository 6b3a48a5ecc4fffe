//! The header that opens an obfuscated connection and the ciphers of both directions.

use vstd::prelude::*;
use vstd::slice::slice_subrange;

use crate::aes_ctr::{ctr, law_ctr_is_its_own_inverse, law_ctr_streams, AesCtr};
use crate::digest::{fixed_proxy_key, proxy_key, sha256};
use crate::errors::MtProxyError;
use crate::octets::{be_nat, le_bytes, le_i16, same_bytes, twos_complement_16};
use crate::random::{Draw, Draws};

verus! {

/// The tag of the intermediate transport.
pub const INTERMEDIATE_TAG: [u8; 4] = [0xee, 0xee, 0xee, 0xee];

/// The tag of the padded intermediate transport.
pub const PADDED_TAG: [u8; 4] = [0xdd, 0xdd, 0xdd, 0xdd];

/// The start of an HTTP `HEAD` request.
pub const HTTP_HEAD: [u8; 4] = [0x48, 0x45, 0x41, 0x44];

/// The start of an HTTP `POST` request.
pub const HTTP_POST: [u8; 4] = [0x50, 0x4f, 0x53, 0x54];

/// The start of an HTTP `GET` request.
pub const HTTP_GET: [u8; 4] = [0x47, 0x45, 0x54, 0x20];

/// The start of an HTTP `OPTIONS` request.
pub const HTTP_OPTIONS: [u8; 4] = [0x4f, 0x50, 0x54, 0x49];

/// The tag of the abridged transport.
pub const ABRIDGED_TAG: u8 = 0xef;

/// Whether a header may start with these bytes: not like an HTTP request, nor like a connection
/// of an unobfuscated transport.
pub open spec fn usable(start: Seq<u8>) -> bool {
    let first = start.take(4);
    &&& start[0] != ABRIDGED_TAG
    &&& first != HTTP_HEAD@
    &&& first != HTTP_POST@
    &&& first != HTTP_GET@
    &&& first != HTTP_OPTIONS@
    &&& first != INTERMEDIATE_TAG@
    &&& first != PADDED_TAG@
    &&& start.subrange(4, 8) != seq![0u8, 0u8, 0u8, 0u8]
}

/// The header in the clear: random bytes, the transport's tag at 56 and, unless it is zero, the
/// data centre at 60.
pub open spec fn clear_header(random: Seq<u8>, dc_id: i16) -> Seq<u8> {
    let dc = if dc_id != 0 {
        le_bytes(twos_complement_16(dc_id), 2)
    } else {
        random.subrange(60, 62)
    };
    random.take(56) + INTERMEDIATE_TAG@ + dc + random.skip(62)
}

/// The key that a header holds for the direction in which it is read.
pub open spec fn header_key(header: Seq<u8>, secret: Seq<u8>) -> Seq<u8> {
    proxy_key(header.subrange(8, 40), secret)@
}

/// Where in the key stream the direction in which the header is read starts.
pub open spec fn header_position(header: Seq<u8>) -> nat {
    16 * be_nat(header.subrange(40, 56))
}

/// The header as it is sent: all but the last eight bytes in the clear, those encrypted in their
/// place.
pub open spec fn sent_header(clear: Seq<u8>, secret: Seq<u8>) -> Seq<u8> {
    clear.take(56) + ctr(header_key(clear, secret), header_position(clear), clear).skip(56)
}

fn is_usable(random: &[u8; 64]) -> (ok: bool)
    ensures
        ok == usable(random@),
{
    let first = slice_subrange(random, 0, 4);
    let second = slice_subrange(random, 4, 8);
    let zero: [u8; 4] = [0u8; 4];
    proof {
        assert(first@ =~= random@.take(4));
        assert(zero@ =~= seq![0u8, 0u8, 0u8, 0u8]);
    }
    random[0] != ABRIDGED_TAG && !same_bytes(first, &HTTP_HEAD) && !same_bytes(first, &HTTP_POST)
        && !same_bytes(first, &HTTP_GET) && !same_bytes(first, &HTTP_OPTIONS) && !same_bytes(
        first,
        &INTERMEDIATE_TAG,
    ) && !same_bytes(first, &PADDED_TAG) && !same_bytes(second, &zero)
}

fn key_and_iv(header: &[u8; 64]) -> (parts: ([u8; 32], [u8; 16]))
    ensures
        parts.0@ == header@.subrange(8, 40),
        parts.1@ == header@.subrange(40, 56),
{
    let mut key: [u8; 32] = [0u8; 32];
    let mut iv: [u8; 16] = [0u8; 16];
    let mut i: usize = 0;
    while i < 32
        invariant
            i <= 32,
            forall|k: int| 0 <= k < i ==> key@[k] == header@[8 + k],
        decreases 32 - i,
    {
        key[i] = header[8 + i];
        i += 1;
    }
    let mut j: usize = 0;
    while j < 16
        invariant
            j <= 16,
            forall|k: int| 0 <= k < j ==> iv@[k] == header@[40 + k],
        decreases 16 - j,
    {
        iv[j] = header[40 + j];
        j += 1;
    }
    assert(key@ =~= header@.subrange(8, 40));
    assert(iv@ =~= header@.subrange(40, 56));
    (key, iv)
}

fn cipher_of(header: &[u8; 64], secret: &[u8; 16]) -> (cipher: AesCtr)
    ensures
        cipher.key() == header_key(header@, secret@),
        cipher.position() == header_position(header@),
{
    let (key, iv) = key_and_iv(header);
    let fixed: [u8; 32] = fixed_proxy_key(key, secret);
    AesCtr::new(&fixed, &iv)
}

/// Whether `made` is the header made of `random`, with the cipher for reading and the cipher for
/// writing.
pub open spec fn is_header_of(
    made: (Vec<u8>, AesCtr, AesCtr),
    random: Seq<u8>,
    secret: Seq<u8>,
    dc_id: i16,
) -> bool {
    let clear = clear_header(random, dc_id);
    &&& made.0@ == sent_header(clear, secret)
    &&& made.1.key() == header_key(clear.reverse(), secret)
    &&& made.1.position() == header_position(clear.reverse())
    &&& made.2.key() == header_key(clear, secret)
    &&& made.2.position() == header_position(clear) + 64
}

/// The header made of `random`, the cipher for reading and the cipher for writing. The reading
/// side's key comes from the header read backwards; the writing cipher has the whole header
/// behind it.
pub fn obfuscated_header(random: &[u8; 64], secret: &[u8; 16], dc_id: i16) -> (made: (
    Vec<u8>,
    AesCtr,
    AesCtr,
))
    ensures
        is_header_of(made, random@, secret@, dc_id),
{
    let ghost clear = clear_header(random@, dc_id);
    let mut header: [u8; 64] = *random;
    header[56] = 0xee;
    header[57] = 0xee;
    header[58] = 0xee;
    header[59] = 0xee;
    if dc_id != 0 {
        let dc: [u8; 2] = le_i16(dc_id);
        header[60] = dc[0];
        header[61] = dc[1];
    }
    assert(header@ =~= clear);

    let mut reversed: [u8; 64] = [0u8; 64];
    let mut i: usize = 0;
    while i < 64
        invariant
            i <= 64,
            forall|k: int| 0 <= k < i ==> reversed@[k] == header@[63 - k],
        decreases 64 - i,
    {
        reversed[i] = header[63 - i];
        i += 1;
    }
    assert(reversed@ =~= clear.reverse());

    let read_cipher = cipher_of(&reversed, secret);
    let mut write_cipher = cipher_of(&header, secret);
    let mut encrypted: [u8; 64] = header;
    write_cipher.apply(&mut encrypted);
    let mut sent: Vec<u8> = Vec::new();
    let mut j: usize = 0;
    while j < 64
        invariant
            j <= 64,
            sent@.len() == j,
            forall|k: int| 0 <= k < j ==> sent@[k] == if k < 56 {
                header@[k]
            } else {
                encrypted@[k]
            },
        decreases 64 - j,
    {
        sent.push(
            if j < 56 {
                header[j]
            } else {
                encrypted[j]
            },
        );
        j += 1;
    }
    assert(sent@ =~= sent_header(clear, secret@));
    (sent, read_cipher, write_cipher)
}

/// Whether a draw brought bytes that no header may start with.
pub open spec fn refused(draw: Draw) -> bool {
    draw.filled is Ok && draw.bytes.len() == 64 && !usable(draw.bytes)
}

/// Whether every one of the draws brought bytes that no header may start with.
pub open spec fn all_refused(draws: Seq<Draw>) -> bool {
    forall|i: int| 0 <= i < draws.len() ==> refused(#[trigger] draws[i])
}

/// Whether `made` is what these draws come to: the header made of the first usable bytes, or the
/// error of the first draw that failed. A source that offers no usable bytes in 2^64 - 1 draws is
/// given up on.
pub open spec fn is_drawn_header(
    made: Result<(Vec<u8>, AesCtr, AesCtr), MtProxyError>,
    draws: Seq<Draw>,
    secret: Seq<u8>,
    dc_id: i16,
) -> bool {
    match made {
        Ok(header) => {
            &&& draws.len() > 0
            &&& all_refused(draws.drop_last())
            &&& draws.last().filled is Ok
            &&& draws.last().bytes.len() == 64
            &&& usable(draws.last().bytes)
            &&& is_header_of(header, draws.last().bytes, secret, dc_id)
        },
        Err(MtProxyError::RandomRejected) => draws.len() == u64::MAX && all_refused(draws),
        Err(err) => {
            &&& err is Random
            &&& draws.len() > 0
            &&& all_refused(draws.drop_last())
            &&& draws.last().filled == Err::<(), MtProxyError>(err)
        },
    }
}

/// A fresh header with its ciphers. Draws until the random bytes are usable.
pub fn draw_header(draws: &mut Draws, secret: &[u8; 16], dc_id: i16) -> (made: Result<
    (Vec<u8>, AesCtr, AesCtr),
    MtProxyError,
>)
    ensures
        old(draws).made().len() <= final(draws).made().len(),
        final(draws).made().take(old(draws).made().len() as int) == old(draws).made(),
        is_drawn_header(
            made,
            final(draws).made().skip(old(draws).made().len() as int),
            secret@,
            dc_id,
        ),
{
    let ghost start = draws.made();
    let ghost mut new: Seq<Draw> = Seq::empty();
    let mut left: u64 = u64::MAX;
    assert(draws.made() =~= start + new);
    while left > 0
        invariant
            start == old(draws).made(),
            draws.made() == start + new,
            new.len() + left == u64::MAX,
            all_refused(new),
        decreases left,
    {
        let mut random: [u8; 64] = [0u8; 64];
        let filled = draws.draw(&mut random);
        let ghost draw = Draw { bytes: random@, filled };
        assert(new.push(draw).drop_last() =~= new);
        proof {
            new = new.push(draw);
        }
        assert(draws.made() =~= start + new);
        assert(draws.made().skip(start.len() as int) =~= new);
        assert(draws.made().take(start.len() as int) =~= start);
        match filled {
            Ok(()) => {},
            Err(err) => return Err(err),
        }
        if is_usable(&random) {
            return Ok(obfuscated_header(&random, secret, dc_id));
        }
        left -= 1;
    }
    assert(draws.made().skip(start.len() as int) =~= new);
    assert(draws.made().take(start.len() as int) =~= start);
    Err(MtProxyError::RandomRejected)
}

/// A fresh header with its ciphers. What the draws from the random source come to is said by
/// `draw_header`.
pub fn make_obfuscated_header(secret: &[u8; 16], dc_id: i16) -> (made: Result<
    (Vec<u8>, AesCtr, AesCtr),
    MtProxyError,
>)
    ensures
        exists|draws: Seq<Draw>| #[trigger] is_drawn_header(made, draws, secret@, dc_id),
{
    let mut draws: Draws = Draws::new();
    let made = draw_header(&mut draws, secret, dc_id);
    assert(draws.made().skip(0) =~= draws.made());
    assert(is_drawn_header(made, draws.made(), secret@, dc_id));
    made
}

/// As long as the random source does not fail, a header comes back, unless 2^64 - 1 draws in a row
/// were refused; and it carries the transport's tag and the data centre.
pub proof fn law_header_comes_back(
    made: Result<(Vec<u8>, AesCtr, AesCtr), MtProxyError>,
    draws: Seq<Draw>,
    secret: Seq<u8>,
    dc_id: i16,
)
    requires
        is_drawn_header(made, draws, secret, dc_id),
        forall|i: int| 0 <= i < draws.len() ==> (#[trigger] draws[i]).filled is Ok,
        draws.len() < u64::MAX,
    ensures
        made is Ok,
        ({
            let sent = made->Ok_0.0@;
            let opened = ctr(header_key(sent, secret), header_position(sent) + 56, sent.skip(56));
            &&& sent.len() == 64
            &&& opened.take(4) == INTERMEDIATE_TAG@
            &&& dc_id != 0 ==> opened.subrange(4, 6) == le_bytes(twos_complement_16(dc_id), 2)
        }),
{
    if made is Err {
        assert(draws[draws.len() - 1].filled is Ok);
    } else {
        law_header_carries_dc_id(draws.last().bytes, secret, dc_id);
    }
}

/// What a proxy needs is in the header it receives: with its secret it derives the client's
/// writing key from the clear part, and decrypting the last eight bytes with it gives the
/// transport's tag and the data centre.
pub proof fn law_header_carries_dc_id(random: Seq<u8>, secret: Seq<u8>, dc_id: i16)
    requires
        random.len() == 64,
    ensures
        ({
            let sent = sent_header(clear_header(random, dc_id), secret);
            let opened = ctr(header_key(sent, secret), header_position(sent) + 56, sent.skip(56));
            &&& sent.len() == 64
            &&& opened.take(4) == INTERMEDIATE_TAG@
            &&& dc_id != 0 ==> opened.subrange(4, 6) == le_bytes(twos_complement_16(dc_id), 2)
        }),
{
    let clear = clear_header(random, dc_id);
    reveal_with_fuel(le_bytes, 3);
    assert(clear.len() == 64);
    let key = header_key(clear, secret);
    let position = header_position(clear);
    let sent = sent_header(clear, secret);
    assert(sent.subrange(8, 40) =~= clear.subrange(8, 40));
    assert(sent.subrange(40, 56) =~= clear.subrange(40, 56));
    let tail = clear.skip(56);
    assert(sent.skip(56) =~= ctr(key, position + 56, tail));
    law_ctr_is_its_own_inverse(key, position + 56, tail);
    let opened = ctr(key, position + 56, sent.skip(56));
    assert(opened == tail);
    assert(tail.take(4) =~= INTERMEDIATE_TAG@);
    if dc_id != 0 {
        assert(tail.subrange(4, 6) =~= le_bytes(twos_complement_16(dc_id), 2));
    }
}

/// A header that is sent is never taken for an HTTP request or for another transport.
pub proof fn law_sent_header_is_usable(random: Seq<u8>, secret: Seq<u8>, dc_id: i16)
    requires
        random.len() == 64,
        usable(random),
    ensures
        usable(sent_header(clear_header(random, dc_id), secret)),
{
    let clear = clear_header(random, dc_id);
    let sent = sent_header(clear, secret);
    assert(sent.take(4) =~= random.take(4));
    assert(sent.subrange(4, 8) =~= random.subrange(4, 8));
}

/// Both ends derive the same keys, and the same places in the key streams, for both directions:
/// the client from the header in the clear, the proxy from the header it receives.
pub proof fn law_both_ends_agree(random: Seq<u8>, secret: Seq<u8>, dc_id: i16)
    requires
        random.len() == 64,
    ensures
        ({
            let clear = clear_header(random, dc_id);
            let sent = sent_header(clear, secret);
            &&& header_key(sent, secret) == header_key(clear, secret)
            &&& header_position(sent) == header_position(clear)
            &&& header_key(sent.reverse(), secret) == header_key(clear.reverse(), secret)
            &&& header_position(sent.reverse()) == header_position(clear.reverse())
        }),
{
    let clear = clear_header(random, dc_id);
    let sent = sent_header(clear, secret);
    reveal_with_fuel(le_bytes, 3);
    assert(clear.len() == 64);
    assert(sent.subrange(8, 40) =~= clear.subrange(8, 40));
    assert(sent.subrange(40, 56) =~= clear.subrange(40, 56));
    assert(sent.reverse().subrange(8, 40) =~= clear.reverse().subrange(8, 40));
    assert(sent.reverse().subrange(40, 56) =~= clear.reverse().subrange(40, 56));
}

/// The header opens the stream that follows it: with the secret, the proxy finds the key in bytes 8
/// to 40 and the start of the key stream in bytes 40 to 56, and what it decrypts from the last
/// eight bytes on is the transport's tag, the data centre and everything that is written later. For
/// the other direction it finds them in the header read backwards, and what it encrypts so the
/// client can read.
pub proof fn law_header_opens_the_stream(
    made: (Vec<u8>, AesCtr, AesCtr),
    random: Seq<u8>,
    secret: Seq<u8>,
    dc_id: i16,
    written: Seq<u8>,
)
    requires
        random.len() == 64,
        is_header_of(made, random, secret, dc_id),
    ensures
        ({
            let sent = made.0@;
            let back = sent.reverse();
            let key = sha256(sent.subrange(8, 40) + secret)@;
            let start = 16 * be_nat(sent.subrange(40, 56));
            let stream = sent.skip(56) + ctr(made.2.key(), made.2.position(), written);
            let opened = ctr(key, start + 56, stream);
            &&& sent.len() == 64
            &&& sent.take(56) == random.take(56)
            &&& opened.take(4) == seq![0xeeu8, 0xeeu8, 0xeeu8, 0xeeu8]
            &&& opened[4] + 256 * opened[5] == if dc_id != 0 {
                dc_id as int % 0x1_0000
            } else {
                random[60] + 256 * random[61]
            }
            &&& opened.subrange(6, 8) == random.skip(62)
            &&& opened.skip(8) == written
            &&& made.1.key() == sha256(back.subrange(8, 40) + secret)@
            &&& made.1.position() == 16 * be_nat(back.subrange(40, 56))
        }),
{
    let clear = clear_header(random, dc_id);
    let sent = made.0@;
    reveal_with_fuel(le_bytes, 3);
    assert(clear.len() == 64);
    law_both_ends_agree(random, secret, dc_id);
    let key = header_key(sent, secret);
    let start = header_position(sent);
    let tail = clear.skip(56);
    assert(sent.skip(56) =~= ctr(key, start + 56, tail));
    let later = ctr(key, start + 64, written);
    assert(tail.len() == 8);
    law_ctr_streams(key, start + 56, tail, written);
    assert(sent.skip(56) + later == ctr(key, start + 56, tail + written));
    law_ctr_is_its_own_inverse(key, start + 56, tail + written);
    let opened = tail + written;
    assert(sent.take(56) =~= random.take(56));
    assert(opened.take(4) =~= seq![0xeeu8, 0xeeu8, 0xeeu8, 0xeeu8]);
    assert(opened.subrange(6, 8) =~= random.skip(62));
    assert(opened.skip(8) =~= written);
    assert(opened[4] == clear[60] && opened[5] == clear[61]);
    if dc_id != 0 {
        let dc = le_bytes(twos_complement_16(dc_id), 2);
        assert(clear[60] == dc[0] && clear[61] == dc[1]);
    } else {
        assert(clear[60] == random[60] && clear[61] == random[61]);
    }
}

/// What no header may start with, and nothing else is refused: the first byte of the abridged
/// transport, the first four bytes of an HTTP request or of another transport, and four zeros after
/// those.
pub proof fn law_what_a_header_may_not_start_with(start: Seq<u8>)
    requires
        start.len() >= 8,
    ensures
        usable(start) <==> {
            let first = start.take(4);
            &&& start[0] != 0xef
            &&& first != seq![0x48u8, 0x45u8, 0x41u8, 0x44u8]
            &&& first != seq![0x50u8, 0x4fu8, 0x53u8, 0x54u8]
            &&& first != seq![0x47u8, 0x45u8, 0x54u8, 0x20u8]
            &&& first != seq![0x4fu8, 0x50u8, 0x54u8, 0x49u8]
            &&& first != seq![0xeeu8, 0xeeu8, 0xeeu8, 0xeeu8]
            &&& first != seq![0xddu8, 0xddu8, 0xddu8, 0xddu8]
            &&& !(start[4] == 0 && start[5] == 0 && start[6] == 0 && start[7] == 0)
        },
{
    assert(HTTP_HEAD@ =~= seq![0x48u8, 0x45u8, 0x41u8, 0x44u8]);
    assert(HTTP_POST@ =~= seq![0x50u8, 0x4fu8, 0x53u8, 0x54u8]);
    assert(HTTP_GET@ =~= seq![0x47u8, 0x45u8, 0x54u8, 0x20u8]);
    assert(HTTP_OPTIONS@ =~= seq![0x4fu8, 0x50u8, 0x54u8, 0x49u8]);
    assert(INTERMEDIATE_TAG@ =~= seq![0xeeu8, 0xeeu8, 0xeeu8, 0xeeu8]);
    assert(PADDED_TAG@ =~= seq![0xddu8, 0xddu8, 0xddu8, 0xddu8]);
    let second = start.subrange(4, 8);
    assert(second[0] == start[4] && second[1] == start[5] && second[2] == start[6] && second[3]
        == start[7]);
    if start[4] == 0 && start[5] == 0 && start[6] == 0 && start[7] == 0 {
        assert(second =~= seq![0u8, 0u8, 0u8, 0u8]);
    }
}

/// The first draw that may be used is used, and no further one is made: all draws before the last
/// brought 64 bytes that no header may start with, and the last one made the header or failed. What
/// is sent never starts like an HTTP request or another transport.
pub proof fn law_first_usable_draw_is_used(
    made: Result<(Vec<u8>, AesCtr, AesCtr), MtProxyError>,
    draws: Seq<Draw>,
    secret: Seq<u8>,
    dc_id: i16,
    k: int,
)
    requires
        is_drawn_header(made, draws, secret, dc_id),
        draws.len() < u64::MAX,
    ensures
        draws.len() > 0,
        0 <= k < draws.len() - 1 ==> draws[k].filled is Ok && draws[k].bytes.len() == 64 && !usable(
            draws[k].bytes,
        ),
        match draws.last().filled {
            Err(err) => made == Err::<(Vec<u8>, AesCtr, AesCtr), MtProxyError>(err),
            Ok(()) => {
                &&& made is Ok
                &&& draws.last().bytes.len() == 64
                &&& usable(draws.last().bytes)
                &&& usable(made->Ok_0.0@)
                &&& made->Ok_0.0@.take(56) == draws.last().bytes.take(56)
            },
        },
{
    let front = draws.drop_last();
    if 0 <= k < front.len() {
        assert(refused(front[k]));
        assert(front[k] == draws[k]);
    }
    if let Ok(header) = made {
        let random = draws.last().bytes;
        law_sent_header_is_usable(random, secret, dc_id);
        law_header_opens_the_stream(header, random, secret, dc_id, Seq::empty());
    }
}

} // verus!
