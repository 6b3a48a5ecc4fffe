//! TLS records: cutting a byte stream into them and taking it out of them again.

use std::collections::VecDeque;
use vstd::prelude::*;
use vstd::slice::slice_subrange;

use crate::aes_ctr::{ctr, law_ctr_streams, AesCtr};
use crate::errors::MtProxyError;
use crate::octets::{append, be_bytes, same_bytes, slice_copy};

verus! {

/// The most application data that one record carries.
pub const MAX_TLS_PACKET_LENGTH: usize = 2878;

/// The head of an application data record, before its length.
pub const APPLICATION_DATA: [u8; 3] = [0x17, 0x03, 0x03];

/// The record that goes before the first application data.
pub const CHANGE_CIPHER_SPEC: [u8; 6] = [0x14, 0x03, 0x03, 0x00, 0x01, 0x01];

/// One application data record.
pub open spec fn record(payload: Seq<u8>) -> Seq<u8> {
    APPLICATION_DATA@ + be_bytes(payload.len(), 2) + payload
}

/// `data` as application data records, each but the last as full as it may be.
pub open spec fn records(data: Seq<u8>) -> Seq<u8>
    decreases data.len(),
{
    if data.len() == 0 {
        seq![]
    } else if data.len() <= MAX_TLS_PACKET_LENGTH {
        record(data)
    } else {
        record(data.take(MAX_TLS_PACKET_LENGTH as int)) + records(
            data.skip(MAX_TLS_PACKET_LENGTH as int),
        )
    }
}

/// The number that two bytes write, most significant first.
pub open spec fn be_u16(high: u8, low: u8) -> nat {
    (high * 256 + low) as nat
}

/// What the records at the front of some raw bytes hold.
pub struct Unwrapped {
    /// The payloads of the complete records, one after the other.
    pub payload: Seq<u8>,
    /// The raw bytes after the last complete record.
    pub rest: Seq<u8>,
    /// Whether `rest` may still become a record.
    pub valid: bool,
}

/// Takes the complete application data records off the front of `raw`.
pub open spec fn unwrap_records(raw: Seq<u8>) -> Unwrapped
    decreases raw.len(),
{
    if raw.len() < 5 {
        Unwrapped { payload: seq![], rest: raw, valid: true }
    } else if raw.take(3) != APPLICATION_DATA@ {
        Unwrapped { payload: seq![], rest: raw, valid: false }
    } else {
        let end = 5 + be_u16(raw[3], raw[4]);
        if raw.len() < end {
            Unwrapped { payload: seq![], rest: raw, valid: true }
        } else {
            let after = unwrap_records(raw.skip(end as int));
            Unwrapped { payload: raw.subrange(5, end as int) + after.payload, ..after }
        }
    }
}

/// Appends the low 16 bits of `value` to `out`, most significant byte first.
pub fn push_u16(out: &mut Vec<u8>, value: usize)
    ensures
        final(out)@ == old(out)@ + be_bytes(value as nat, 2),
{
    let high: u8 = ((value / 256) % 256) as u8;
    let low: u8 = (value % 256) as u8;
    out.push(high);
    out.push(low);
    proof {
        reveal_with_fuel(be_bytes, 3);
        assert(be_bytes(value as nat, 2) =~= seq![high, low]);
        assert(out@ =~= old(out)@ + be_bytes(value as nat, 2));
    }
}

/// Wraps `data` into TLS records; the very first write is preceded by a change-cipher-spec
/// record.
pub fn wrap_tls_records(data: &[u8], first_write: &mut bool) -> (out: Vec<u8>)
    ensures
        out@ == (if *old(first_write) {
            CHANGE_CIPHER_SPEC@
        } else {
            seq![]
        }) + records(data@),
        !*final(first_write),
{
    let mut out: Vec<u8> = Vec::new();
    if *first_write {
        append(&mut out, &CHANGE_CIPHER_SPEC);
        *first_write = false;
    }
    let ghost head = out@;
    let mut from: usize = 0;
    assert(data@.skip(0) =~= data@);
    assert(out@ + records(data@) =~= head + records(data@));
    while from < data.len()
        invariant
            from <= data@.len(),
            out@ + records(data@.skip(from as int)) == head + records(data@),
        decreases data@.len() - from,
    {
        let ghost left = data@.skip(from as int);
        let ghost before = out@;
        let to: usize = if data.len() - from > MAX_TLS_PACKET_LENGTH {
            from + MAX_TLS_PACKET_LENGTH
        } else {
            data.len()
        };
        let chunk = slice_subrange(data, from, to);
        append(&mut out, &APPLICATION_DATA);
        push_u16(&mut out, chunk.len());
        append(&mut out, chunk);
        proof {
            assert(left.take(to - from) =~= chunk@);
            assert(left.skip(to - from) =~= data@.skip(to as int));
            assert(out@ =~= before + record(chunk@));
            if left.len() <= MAX_TLS_PACKET_LENGTH {
                assert(chunk@ =~= left);
            }
            assert(records(left) =~= record(chunk@) + records(data@.skip(to as int)));
            assert(out@ + records(data@.skip(to as int)) =~= before + records(left));
        }
        from = to;
    }
    assert(data@.skip(from as int).len() == 0);
    assert(out@ =~= head + records(data@));
    out
}

/// Moves what `raw` holds in complete records, decrypted, to the end of `plain`, and leaves the
/// rest in `raw`.
pub fn parse_tls_records(
    raw: &mut Vec<u8>,
    plain: &mut VecDeque<u8>,
    cipher: &mut AesCtr,
) -> (parsed: Result<(), MtProxyError>)
    ensures
        ({
            let found = unwrap_records(old(raw)@);
            &&& parsed is Ok <==> found.valid
            &&& parsed is Err ==> parsed->Err_0 is InvalidTlsRecord
            &&& final(raw)@ == found.rest
            &&& final(plain)@ == old(plain)@ + ctr(
                old(cipher).key(),
                old(cipher).position(),
                found.payload,
            )
            &&& final(cipher).key() == old(cipher).key()
            &&& final(cipher).position() == old(cipher).position() + found.payload.len()
        }),
{
    let ghost key = cipher.key();
    let ghost start = cipher.position();
    let ghost whole = unwrap_records(raw@);
    let ghost mut done: Seq<u8> = seq![];
    assert(plain@ =~= old(plain)@ + ctr(key, start, done));
    assert(whole.payload =~= done + unwrap_records(raw@).payload);
    loop
        invariant
            whole == unwrap_records(old(raw)@),
            whole.payload == done + unwrap_records(raw@).payload,
            whole.rest == unwrap_records(raw@).rest,
            whole.valid == unwrap_records(raw@).valid,
            key == old(cipher).key(),
            start == old(cipher).position(),
            cipher.key() == key,
            cipher.position() == start + done.len(),
            plain@ == old(plain)@ + ctr(key, start, done),
        decreases raw@.len(),
    {
        if raw.len() < 5 {
            assert(done =~= whole.payload);
            return Ok(());
        }
        if !same_bytes(slice_subrange(raw, 0, 3), &APPLICATION_DATA) {
            assert(raw@.subrange(0, 3) =~= raw@.take(3));
            assert(done =~= whole.payload);
            return Err(MtProxyError::InvalidTlsRecord);
        }
        assert(raw@.subrange(0, 3) =~= raw@.take(3));
        let len: usize = raw[3] as usize * 256 + raw[4] as usize;
        if raw.len() < 5 + len {
            assert(done =~= whole.payload);
            return Ok(());
        }
        let end: usize = 5 + len;
        let ghost before = raw@;
        let mut payload: Vec<u8> = slice_copy(raw, 5, end);
        let ghost found = payload@;
        cipher.apply(&mut payload);
        let mut i: usize = 0;
        let ghost plain_before = plain@;
        while i < payload.len()
            invariant
                i <= payload@.len(),
                plain@ == plain_before + payload@.take(i as int),
            decreases payload@.len() - i,
        {
            plain.push_back(payload[i]);
            i += 1;
            assert(plain@ =~= plain_before + payload@.take(i as int));
        }
        let tail = raw.split_off(end);
        *raw = tail;
        proof {
            assert(payload@.take(i as int) =~= payload@);
            assert(raw@ =~= before.skip(end as int));
            law_ctr_streams(key, start, done, found);
            assert(whole.payload =~= (done + found) + unwrap_records(raw@).payload);
            assert(plain@ =~= old(plain)@ + ctr(key, start, done + found));
            done = done + found;
        }
    }
}

/// Moves up to `room` bytes from the front of `plain` into the result.
pub fn drain_plain(plain: &mut VecDeque<u8>, room: usize) -> (chunk: Vec<u8>)
    ensures
        ({
            let len = if room < old(plain)@.len() {
                room as int
            } else {
                old(plain)@.len() as int
            };
            chunk@ == old(plain)@.take(len) && final(plain)@ == old(plain)@.skip(len)
        }),
{
    let mut chunk: Vec<u8> = Vec::new();
    let ghost start = plain@;
    assert(start.skip(0) =~= start);
    while chunk.len() < room && plain.len() > 0
        invariant
            chunk@.len() <= room,
            chunk@.len() <= start.len(),
            chunk@ == start.take(chunk@.len() as int),
            plain@ == start.skip(chunk@.len() as int),
        decreases plain@.len(),
    {
        let ghost before = chunk@;
        if let Some(byte) = plain.pop_front() {
            chunk.push(byte);
        }
        assert(chunk@ =~= start.take(before.len() as int + 1));
        assert(plain@ =~= start.skip(before.len() as int + 1));
    }
    chunk
}

proof fn lemma_unwrap_one(payload: Seq<u8>, tail: Seq<u8>)
    requires
        payload.len() <= 0xffff,
    ensures
        ({
            let after = unwrap_records(tail);
            unwrap_records(record(payload) + tail) == (Unwrapped {
                payload: payload + after.payload,
                ..after
            })
        }),
{
    let n = payload.len();
    let raw = record(payload) + tail;
    reveal_with_fuel(be_bytes, 3);
    let head = be_bytes(n, 2);
    assert(head =~= seq![((n / 256) % 256) as u8, (n % 256) as u8]);
    assert(raw.take(3) =~= APPLICATION_DATA@);
    assert(raw[3] == head[0] && raw[4] == head[1]);
    assert(be_u16(raw[3], raw[4]) == n);
    assert(raw.subrange(5, 5 + n as int) =~= payload);
    assert(raw.skip(5 + n as int) =~= tail);
}

/// Unwrapping undoes wrapping: the records that carry some data hold that data, all of it, and
/// nothing is left over.
#[verifier::spinoff_prover]
pub proof fn law_unwrap_undoes_wrap(data: Seq<u8>)
    ensures
        unwrap_records(records(data)) == (Unwrapped {
            payload: data,
            rest: seq![],
            valid: true,
        }),
    decreases data.len(),
{
    let max = MAX_TLS_PACKET_LENGTH as int;
    let nothing = Seq::<u8>::empty();
    if data.len() == 0 {
        assert(records(data) =~= nothing);
        assert(data =~= nothing);
    } else if data.len() <= max {
        lemma_unwrap_one(data, nothing);
        assert(record(data) + nothing =~= record(data));
        assert(data + nothing =~= data);
        assert(records(data) == record(data));
        assert(unwrap_records(nothing).payload =~= nothing);
    } else {
        let first = data.take(max);
        let second = data.skip(max);
        law_unwrap_undoes_wrap(second);
        lemma_unwrap_one(first, records(second));
        assert(first + second =~= data);
        assert(records(data) == record(first) + records(second));
    }
}

/// Raw bytes may arrive in any pieces: unwrapping what has arrived and then the leftover with
/// what follows gives the same payload, the same leftover and the same verdict as unwrapping all
/// at once.
pub proof fn law_unwrap_streams(first: Seq<u8>, second: Seq<u8>)
    requires
        unwrap_records(first).valid,
    ensures
        ({
            let early = unwrap_records(first);
            let late = unwrap_records(early.rest + second);
            unwrap_records(first + second) == (Unwrapped {
                payload: early.payload + late.payload,
                ..late
            })
        }),
    decreases first.len(),
{
    let whole = first + second;
    let nothing = Seq::<u8>::empty();
    assert(nothing + unwrap_records(whole).payload =~= unwrap_records(whole).payload);
    if first.len() >= 5 {
        let end = 5 + be_u16(first[3], first[4]);
        assert(whole.take(3) =~= first.take(3));
        if first.len() >= end {
            let rest = first.skip(end as int);
            law_unwrap_streams(rest, second);
            assert(whole.skip(end as int) =~= rest + second);
            assert(whole.subrange(5, end as int) =~= first.subrange(5, end as int));
            let inner = unwrap_records(rest);
            let late = unwrap_records(inner.rest + second);
            assert(first.subrange(5, end as int) + (inner.payload + late.payload) =~= (
            first.subrange(5, end as int) + inner.payload) + late.payload);
        }
    }
}

/// Once the raw bytes have turned out not to be records, no further bytes repair them.
pub proof fn law_unwrap_stays_invalid(first: Seq<u8>, second: Seq<u8>)
    requires
        !unwrap_records(first).valid,
    ensures
        !unwrap_records(first + second).valid,
        unwrap_records(first + second).payload == unwrap_records(first).payload,
    decreases first.len(),
{
    let whole = first + second;
    assert(whole.take(3) =~= first.take(3));
    if first.take(3) == APPLICATION_DATA@ {
        let end = 5 + be_u16(first[3], first[4]);
        law_unwrap_stays_invalid(first.skip(end as int), second);
        assert(whole.skip(end as int) =~= first.skip(end as int) + second);
        assert(whole.subrange(5, end as int) =~= first.subrange(5, end as int));
    }
}

/// How much longer data gets in records: by five bytes for every 2878 bytes of it or part of them.
/// Every record has the head of application data and, but for the last, is as full as it may be.
pub proof fn law_records_are_as_full_as_they_may_be(data: Seq<u8>)
    ensures
        records(data).len() == data.len() + 5 * ((data.len() + 2877) / 2878),
        data.len() > 0 ==> records(data).take(3) == seq![0x17u8, 0x03u8, 0x03u8],
        data.len() > 0 ==> records(data)[3] * 256 + records(data)[4] == if data.len() < 2878 {
            data.len() as int
        } else {
            2878
        },
        data.len() > 2878 ==> records(data).skip(2883) == records(data.skip(2878)),
    decreases data.len(),
{
    if data.len() > 0 {
        let n = if data.len() < 2878 {
            data.len()
        } else {
            2878
        };
        let first = data.take(n as int);
        reveal_with_fuel(be_bytes, 3);
        assert(be_bytes(n, 2) =~= seq![((n / 256) % 256) as u8, (n % 256) as u8]);
        assert(APPLICATION_DATA@ =~= seq![0x17u8, 0x03u8, 0x03u8]);
        let one = record(first);
        assert(first.len() == n);
        assert(one.take(3) =~= APPLICATION_DATA@);
        assert(one[3] == be_bytes(n, 2)[0] && one[4] == be_bytes(n, 2)[1]);
        if data.len() <= 2878 {
            assert(first =~= data);
        } else {
            let rest = records(data.skip(2878));
            law_records_are_as_full_as_they_may_be(data.skip(2878));
            assert(records(data) == one + rest);
            assert((one + rest).take(3) =~= one.take(3));
            assert((one + rest).skip(2883) =~= rest);
        }
    }
}

/// A record of application data gives what it holds, however much that is, and what follows it is
/// looked at next. Part of a record gives nothing yet.
pub proof fn law_record_gives_what_it_holds(payload: Seq<u8>, tail: Seq<u8>, k: int)
    requires
        payload.len() <= 0xffff,
    ensures
        ({
            let head = seq![
                0x17u8,
                0x03u8,
                0x03u8,
                (payload.len() / 256) as u8,
                (payload.len() % 256) as u8,
            ];
            let whole = head + payload;
            let found = unwrap_records(whole + tail);
            let after = unwrap_records(tail);
            &&& found.payload == payload + after.payload
            &&& found.rest == after.rest
            &&& found.valid == after.valid
            &&& 0 <= k < whole.len() ==> {
                let part = unwrap_records(whole.take(k));
                part.valid && part.payload.len() == 0 && part.rest == whole.take(k)
            }
        }),
{
    let n = payload.len();
    let head = seq![0x17u8, 0x03u8, 0x03u8, (n / 256) as u8, (n % 256) as u8];
    let whole = head + payload;
    reveal_with_fuel(be_bytes, 3);
    assert(be_bytes(n, 2) =~= seq![((n / 256) % 256) as u8, (n % 256) as u8]);
    assert(whole =~= record(payload));
    lemma_unwrap_one(payload, tail);
    if 5 <= k < whole.len() {
        let part = whole.take(k);
        assert(part.take(3) =~= APPLICATION_DATA@);
        assert(part[3] == head[3] && part[4] == head[4]);
    }
}

/// What does not start like application data is no record, as soon as a head is there; before that,
/// nothing is said of it.
pub proof fn law_other_records_are_invalid(raw: Seq<u8>)
    ensures
        raw.len() >= 5 && raw.take(3) != seq![0x17u8, 0x03u8, 0x03u8] ==> {
            let found = unwrap_records(raw);
            !found.valid && found.payload.len() == 0 && found.rest == raw
        },
        raw.len() < 5 ==> {
            let found = unwrap_records(raw);
            found.valid && found.payload.len() == 0 && found.rest == raw
        },
{
    assert(APPLICATION_DATA@ =~= seq![0x17u8, 0x03u8, 0x03u8]);
}

} // verus!
