//! The handshake with a fake-TLS proxy: our hello, the proxy's answer, and the check of it.

use vstd::prelude::*;
use vstd::slice::slice_subrange;
use vstd::utf8::encode_utf8;

use crate::client_hello::{
    draw_client_hello, is_drawn_hello, law_client_hello_shape, law_hello_comes_back, without_random,
    RANDOM_END, RANDOM_START,
};
use crate::digest::{hmac, hmac_sha256};
use crate::errors::MtProxyError;
use crate::octets::{append, push_zeros, same_bytes, slice_copy, zeros};
use crate::random::{unix_time, Draw, Draws};
use crate::tls_record::be_u16;

verus! {

/// The longest domain that a fake-TLS proxy is asked for.
pub const MAX_DOMAIN: usize = 182;

/// The head of the server hello record.
pub const SERVER_HELLO: [u8; 3] = [0x16, 0x03, 0x03];

/// The change-cipher-spec record and the head of the application data after the server hello.
pub const SERVER_FINISH: [u8; 9] = [0x14, 0x03, 0x03, 0x00, 0x01, 0x01, 0x17, 0x03, 0x03];

/// How far some bytes go towards a given message.
pub enum Extent {
    /// Not all of it is there.
    Partial,
    /// It is something else.
    Invalid,
    /// It is there and ends at this offset.
    Complete(nat),
}

/// How far `data` from `offset` on goes towards `prefix`, a two-byte length and that many bytes.
pub open spec fn section(data: Seq<u8>, offset: nat, prefix: Seq<u8>) -> Extent {
    let body = offset + prefix.len() + 2;
    if data.len() < body {
        Extent::Partial
    } else if data.subrange(offset as int, (offset + prefix.len()) as int) != prefix {
        Extent::Invalid
    } else {
        let end = body + be_u16(data[body - 2], data[body - 1]);
        if data.len() < end {
            Extent::Partial
        } else {
            Extent::Complete(end)
        }
    }
}

/// How far `data` goes towards the proxy's answer to a hello.
pub open spec fn hello_response(data: Seq<u8>) -> Extent {
    match section(data, 0, SERVER_HELLO@) {
        Extent::Complete(offset) => section(data, offset, SERVER_FINISH@),
        early => early,
    }
}

fn section_end(data: &[u8], offset: usize, prefix: &[u8]) -> (end: Result<
    Option<usize>,
    MtProxyError,
>)
    requires
        offset <= data@.len(),
        prefix@.len() <= 16,
    ensures
        match section(data@, offset as nat, prefix@) {
            Extent::Partial => end == Ok::<Option<usize>, MtProxyError>(None),
            Extent::Invalid => end is Err && end->Err_0 is InvalidHelloResponse,
            Extent::Complete(n) => end is Ok && end->Ok_0 is Some && end->Ok_0->Some_0 == n && n
                <= data@.len(),
        },
{
    if data.len() - offset < prefix.len() + 2 {
        return Ok(None);
    }
    let length_at: usize = offset + prefix.len();
    if !same_bytes(slice_subrange(data, offset, length_at), prefix) {
        return Err(MtProxyError::InvalidHelloResponse);
    }
    let len: usize = data[length_at] as usize * 256 + data[length_at + 1] as usize;
    if data.len() - (length_at + 2) < len {
        return Ok(None);
    }
    Ok(Some(length_at + 2 + len))
}

/// Where the proxy's answer at the front of `data` ends; nothing while it is incomplete.
pub fn fake_tls_hello_response_len(data: &[u8]) -> (len: Result<Option<usize>, MtProxyError>)
    ensures
        match hello_response(data@) {
            Extent::Partial => len == Ok::<Option<usize>, MtProxyError>(None),
            Extent::Invalid => len is Err && len->Err_0 is InvalidHelloResponse,
            Extent::Complete(n) => len is Ok && len->Ok_0 is Some && len->Ok_0->Some_0 == n && n
                <= data@.len(),
        },
{
    match section_end(data, 0, &SERVER_HELLO) {
        Ok(Some(offset)) => section_end(data, offset, &SERVER_FINISH),
        Ok(None) => Ok(None),
        Err(err) => Err(err),
    }
}

/// The code that the answer `response` to a hello with the random `hello_random` must carry.
pub open spec fn response_code(
    secret: Seq<u8>,
    hello_random: Seq<u8>,
    response: Seq<u8>,
) -> Seq<u8> {
    hmac(secret, hello_random + without_random(response))@
}

/// Why `response`, of which the first `consumed` bytes are the answer, is refused; nothing if it
/// is accepted.
pub open spec fn response_fault(
    secret: Seq<u8>,
    hello_random: Seq<u8>,
    response: Seq<u8>,
    consumed: nat,
) -> Option<MtProxyError> {
    let answer = response.take(consumed as int);
    if consumed < RANDOM_END {
        Some(MtProxyError::HelloResponseTooShort)
    } else if response_code(secret, hello_random, answer) != answer.subrange(
        RANDOM_START as int,
        RANDOM_END as int,
    ) {
        Some(MtProxyError::HelloHashMismatch)
    } else if consumed != response.len() {
        Some(MtProxyError::HelloTrailingData)
    } else {
        None
    }
}

/// What all that has arrived of the proxy's answer comes to: whether the handshake is done, or why
/// it failed.
pub open spec fn verdict(secret: Seq<u8>, hello_random: Seq<u8>, response: Seq<u8>) -> Result<
    bool,
    MtProxyError,
> {
    match hello_response(response) {
        Extent::Partial => Ok(false),
        Extent::Invalid => Err(MtProxyError::InvalidHelloResponse),
        Extent::Complete(consumed) => match response_fault(
            secret,
            hello_random,
            response,
            consumed,
        ) {
            None => Ok(true),
            Some(fault) => Err(fault),
        },
    }
}

/// Checks the proxy's answer: long enough, with the right code, and nothing after it.
pub fn check_hello_response(
    secret: &[u8; 16],
    hello_random: &[u8],
    response: &[u8],
    consumed: usize,
) -> (checked: Result<(), MtProxyError>)
    requires
        consumed <= response@.len(),
    ensures
        match response_fault(secret@, hello_random@, response@, consumed as nat) {
            None => checked is Ok,
            Some(fault) => checked is Err && checked->Err_0 == fault,
        },
{
    if consumed < RANDOM_END {
        return Err(MtProxyError::HelloResponseTooShort);
    }
    let ghost answer = response@.take(consumed as int);
    let response_random = slice_subrange(response, RANDOM_START, RANDOM_END);
    let mut input: Vec<u8> = Vec::new();
    append(&mut input, hello_random);
    append(&mut input, slice_subrange(response, 0, RANDOM_START));
    push_zeros(&mut input, 32);
    append(&mut input, slice_subrange(response, RANDOM_END, consumed));
    proof {
        assert(answer.take(11) =~= response@.subrange(0, 11));
        assert(answer.skip(43) =~= response@.subrange(43, consumed as int));
        assert(input@ =~= hello_random@ + without_random(answer));
        assert(answer.subrange(11, 43) =~= response_random@);
    }
    let code: [u8; 32] = hmac_sha256(secret, &input);
    if !same_bytes(&code, response_random) {
        return Err(MtProxyError::HelloHashMismatch);
    }
    if consumed != response.len() {
        return Err(MtProxyError::HelloTrailingData);
    }
    Ok(())
}

/// A handshake whose hello is on its way and whose answer has not fully arrived.
pub struct FakeTlsHandshake {
    secret: [u8; 16],
    hello_random: Vec<u8>,
    response: Vec<u8>,
}

/// Whether a fake-TLS proxy is asked for `domain`.
pub open spec fn askable(domain: Seq<u8>) -> bool {
    0 < domain.len() <= MAX_DOMAIN
}

/// Whether `started` is what opening a handshake comes to with these draws at this time: the
/// hello that they give and a handshake that remembers its random, or the error of the first
/// draw that failed. Nothing is drawn for a domain that no proxy is asked for.
pub open spec fn is_started(
    started: Result<(FakeTlsHandshake, Vec<u8>), MtProxyError>,
    draws: Seq<Draw>,
    domain: Seq<u8>,
    secret: Seq<u8>,
    time: u32,
) -> bool {
    if !askable(domain) {
        &&& draws.len() == 0
        &&& started is Err
        &&& started->Err_0 is InvalidTlsDomain
    } else {
        match started {
            Ok((handshake, hello)) => {
                &&& is_drawn_hello(Ok(hello), draws, domain, secret, time)
                &&& handshake.secret() == secret
                &&& handshake.hello_random() == hello@.subrange(
                    RANDOM_START as int,
                    RANDOM_END as int,
                )
                &&& handshake.response() == Seq::<u8>::empty()
            },
            Err(err) => is_drawn_hello(Err(err), draws, domain, secret, time),
        }
    }
}

impl FakeTlsHandshake {
    /// The proxy secret.
    pub closed spec fn secret(self) -> Seq<u8> {
        self.secret@
    }

    /// The client random of the hello that was sent.
    pub closed spec fn hello_random(self) -> Seq<u8> {
        self.hello_random@
    }

    /// What has arrived of the answer.
    pub closed spec fn response(self) -> Seq<u8> {
        self.response@
    }

    /// Opens a handshake for `domain` at `time`; the bytes are the hello to send. A domain that
    /// no proxy is asked for is refused before anything is drawn.
    pub fn start_with(draws: &mut Draws, domain: &str, secret: &[u8; 16], time: u32) -> (started:
        Result<(FakeTlsHandshake, Vec<u8>), MtProxyError>)
        ensures
            old(draws).made().len() <= final(draws).made().len(),
            final(draws).made().take(old(draws).made().len() as int) == old(draws).made(),
            !askable(encode_utf8(domain@)) ==> *final(draws) == *old(draws),
            is_started(
                started,
                final(draws).made().skip(old(draws).made().len() as int),
                encode_utf8(domain@),
                secret@,
                time,
            ),
    {
        let name = domain.as_bytes();
        if name.len() == 0 || name.len() > MAX_DOMAIN {
            assert(draws.made().take(draws.made().len() as int) =~= draws.made());
            return Err(MtProxyError::InvalidTlsDomain);
        }
        let ghost start = draws.made().len() as int;
        let drawn = draw_client_hello(draws, domain, secret, time);
        let ghost made = draws.made().skip(start);
        match drawn {
            Ok(hello) => {
                proof {
                    assert(is_drawn_hello(Ok(hello), made, name@, secret@, time));
                    assert(made[2].bytes.len() == 32 && made[3].bytes.len() == 32);
                    law_client_hello_shape(
                        name@,
                        secret@,
                        made[0].bytes,
                        made[2].bytes,
                        made[3].bytes,
                        time,
                    );
                }
                let hello_random: Vec<u8> = slice_copy(&hello, RANDOM_START, RANDOM_END);
                Ok((FakeTlsHandshake { secret: *secret, hello_random, response: Vec::new() }, hello))
            },
            Err(err) => Err(err),
        }
    }

    /// Opens a handshake for `domain`; the bytes are the hello to send.
    pub fn start(domain: &str, secret: &[u8; 16]) -> (started: Result<
        (FakeTlsHandshake, Vec<u8>),
        MtProxyError,
    >)
        ensures
            exists|draws: Seq<Draw>, time: u32| #[trigger]
                is_started(started, draws, encode_utf8(domain@), secret@, time),
    {
        let mut draws: Draws = Draws::new();
        let time: u32 = unix_time();
        let started = FakeTlsHandshake::start_with(&mut draws, domain, secret, time);
        assert(draws.made().skip(0) =~= draws.made());
        assert(is_started(started, draws.made(), encode_utf8(domain@), secret@, time));
        started
    }

    /// Takes in what one read brought; an empty read means that the proxy hung up. The result is
    /// whether the handshake is done.
    pub fn on_read(&mut self, bytes: &[u8]) -> (done: Result<bool, MtProxyError>)
        ensures
            final(self).secret() == old(self).secret(),
            final(self).hello_random() == old(self).hello_random(),
            final(self).response() == old(self).response() + bytes@,
            bytes@.len() == 0 ==> done is Err && done->Err_0 is HelloClosed,
            bytes@.len() > 0 ==> done == verdict(
                old(self).secret(),
                old(self).hello_random(),
                old(self).response() + bytes@,
            ),
            bytes@.len() > 0 ==> match hello_response(old(self).response() + bytes@) {
                Extent::Partial => done == Ok::<bool, MtProxyError>(false),
                Extent::Invalid => done is Err && done->Err_0 is InvalidHelloResponse,
                Extent::Complete(consumed) => match response_fault(
                    old(self).secret(),
                    old(self).hello_random(),
                    old(self).response() + bytes@,
                    consumed,
                ) {
                    None => done == Ok::<bool, MtProxyError>(true),
                    Some(fault) => done is Err && done->Err_0 == fault,
                },
            },
    {
        if bytes.len() == 0 {
            assert(self.response@ =~= self.response@ + bytes@);
            return Err(MtProxyError::HelloClosed);
        }
        append(&mut self.response, bytes);
        match fake_tls_hello_response_len(&self.response) {
            Ok(Some(consumed)) => {
                match check_hello_response(
                    &self.secret,
                    &self.hello_random,
                    &self.response,
                    consumed,
                ) {
                    Ok(()) => Ok(true),
                    Err(err) => Err(err),
                }
            },
            Ok(None) => Ok(false),
            Err(err) => Err(err),
        }
    }
}

/// More bytes never change a verdict on the answer: what was complete stays complete and ends at
/// the same place, and what was invalid stays invalid.
pub proof fn law_hello_response_verdict_is_stable(data: Seq<u8>, more: Seq<u8>)
    ensures
        !(hello_response(data) is Partial) ==> hello_response(data + more) == hello_response(data),
{
    lemma_section_is_stable(data, more, 0, SERVER_HELLO@);
    match section(data, 0, SERVER_HELLO@) {
        Extent::Complete(offset) => {
            lemma_section_is_stable(data, more, offset, SERVER_FINISH@);
        },
        _ => {},
    }
}

proof fn lemma_section_is_stable(data: Seq<u8>, more: Seq<u8>, offset: nat, prefix: Seq<u8>)
    ensures
        !(section(data, offset, prefix) is Partial) ==> section(data + more, offset, prefix)
            == section(data, offset, prefix),
{
    let whole = data + more;
    if data.len() >= offset + prefix.len() + 2 {
        assert(whole.subrange(offset as int, (offset + prefix.len()) as int) =~= data.subrange(
            offset as int,
            (offset + prefix.len()) as int,
        ));
    }
}

/// An answer made by a holder of the secret is accepted: put the code of the hello's random and
/// the answer with zeros for its random in the place of that random, and nothing is found wrong.
pub proof fn law_genuine_response_is_accepted(
    secret: Seq<u8>,
    hello_random: Seq<u8>,
    answer: Seq<u8>,
)
    requires
        answer.len() >= RANDOM_END,
    ensures
        ({
            let signed = answer.take(RANDOM_START as int) + response_code(
                secret,
                hello_random,
                answer,
            ) + answer.skip(RANDOM_END as int);
            response_fault(secret, hello_random, signed, signed.len()) is None
        }),
{
    let signed = answer.take(RANDOM_START as int) + response_code(secret, hello_random, answer)
        + answer.skip(RANDOM_END as int);
    assert(signed.take(signed.len() as int) =~= signed);
    assert(without_random(signed) =~= without_random(answer));
    assert(signed.subrange(11, 43) =~= response_code(secret, hello_random, answer));
}

/// A proxy's answer as it is laid out: the server hello record with `hello` in it, the
/// change-cipher-spec record, and a record of application data with `data` in it. A length is two
/// bytes, the more significant one first.
pub open spec fn laid_out_answer(hello: Seq<u8>, data: Seq<u8>) -> Seq<u8> {
    let hello_len = seq![(hello.len() / 256) as u8, (hello.len() % 256) as u8];
    let data_len = seq![(data.len() / 256) as u8, (data.len() % 256) as u8];
    let finish = seq![0x14u8, 0x03u8, 0x03u8, 0x00u8, 0x01u8, 0x01u8, 0x17u8, 0x03u8, 0x03u8];
    (seq![0x16u8, 0x03u8, 0x03u8] + hello_len) + hello + (finish + data_len + data)
}

proof fn lemma_laid_out_answer(hello: Seq<u8>, data: Seq<u8>)
    requires
        hello.len() <= 0xffff,
        data.len() <= 0xffff,
    ensures
        ({
            let answer = laid_out_answer(hello, data);
            let n = hello.len() as int;
            &&& answer.len() == 16 + n + data.len()
            &&& answer.take(3) == SERVER_HELLO@
            &&& be_u16(answer[3], answer[4]) == n
            &&& answer.subrange(5, 5 + n) == hello
            &&& answer.subrange(5 + n, 14 + n) == SERVER_FINISH@
            &&& be_u16(answer[14 + n], answer[15 + n]) == data.len()
            &&& answer.skip(16 + n) == data
        }),
{
    let answer = laid_out_answer(hello, data);
    let n = hello.len() as int;
    assert(answer.take(3) =~= SERVER_HELLO@);
    assert(answer.subrange(5, 5 + n) =~= hello);
    assert(answer.subrange(5 + n, 14 + n) =~= SERVER_FINISH@);
    assert(answer.skip(16 + n) =~= data);
    assert(answer[3] == (n / 256) as u8 && answer[4] == (n % 256) as u8);
    assert(answer[14 + n] == (data.len() / 256) as u8 && answer[15 + n] == (data.len() % 256) as u8);
}

/// Whatever the two records hold, an answer that is laid out as it should be ends where it ends:
/// no proper prefix of it is complete, and none is refused.
pub proof fn law_answer_ends_where_it_ends(hello: Seq<u8>, data: Seq<u8>, k: int)
    requires
        hello.len() <= 0xffff,
        data.len() <= 0xffff,
    ensures
        ({
            let answer = laid_out_answer(hello, data);
            &&& hello_response(answer) == Extent::Complete(answer.len())
            &&& 0 <= k < answer.len() ==> hello_response(answer.take(k)) is Partial
        }),
{
    let answer = laid_out_answer(hello, data);
    let n = hello.len() as int;
    lemma_laid_out_answer(hello, data);
    assert(answer.subrange(0, 3) =~= answer.take(3));
    assert(section(answer, 0, SERVER_HELLO@) == Extent::Complete((5 + n) as nat));
    assert(section(answer, (5 + n) as nat, SERVER_FINISH@) == Extent::Complete(answer.len()));
    if 0 <= k < answer.len() {
        let part = answer.take(k);
        if k >= 5 {
            assert(part.subrange(0, 3) =~= answer.take(3));
            if k >= 5 + n {
                assert(section(part, 0, SERVER_HELLO@) == Extent::Complete((5 + n) as nat));
                if k >= 16 + n {
                    assert(part.subrange(5 + n, 14 + n) =~= answer.subrange(5 + n, 14 + n));
                }
            }
        }
    }
}

/// The code that a holder of the secret puts into the answer with these records: that of the
/// hello's random and the answer with zeros for the code.
pub open spec fn genuine_code(
    secret: Seq<u8>,
    hello_random: Seq<u8>,
    hello: Seq<u8>,
    data: Seq<u8>,
) -> Seq<u8> {
    let blank = hello.take(6) + Seq::new(32, |i: int| 0u8) + hello.skip(38);
    hmac(secret, hello_random + laid_out_answer(blank, data))@
}

proof fn lemma_blanked(head: Seq<u8>, hello: Seq<u8>, tail: Seq<u8>)
    requires
        head.len() == 5,
        hello.len() >= 38,
    ensures
        ({
            let blank = hello.take(6) + Seq::new(32, |i: int| 0u8) + hello.skip(38);
            &&& blank.len() == hello.len()
            &&& without_random(head + hello + tail) == head + blank + tail
            &&& (head + hello + tail).subrange(11, 43) == hello.subrange(6, 38)
        }),
{
    let whole = head + hello + tail;
    let nothing = Seq::new(32, |i: int| 0u8);
    let blank = hello.take(6) + nothing + hello.skip(38);
    assert(nothing =~= zeros(32));
    assert(whole.take(11) =~= head + hello.take(6));
    assert(whole.skip(43) =~= hello.skip(38) + tail);
    assert(without_random(whole) =~= head + blank + tail);
    assert(whole.subrange(11, 43) =~= hello.subrange(6, 38));
}

proof fn lemma_code_of_answer(
    secret: Seq<u8>,
    hello_random: Seq<u8>,
    hello: Seq<u8>,
    data: Seq<u8>,
)
    requires
        38 <= hello.len() <= 0xffff,
        data.len() <= 0xffff,
    ensures
        ({
            let answer = laid_out_answer(hello, data);
            &&& answer.subrange(11, 43) == hello.subrange(6, 38)
            &&& response_code(secret, hello_random, answer) == genuine_code(
                secret,
                hello_random,
                hello,
                data,
            )
        }),
{
    let head = seq![0x16u8, 0x03u8, 0x03u8] + seq![
        (hello.len() / 256) as u8,
        (hello.len() % 256) as u8,
    ];
    let finish = seq![0x14u8, 0x03u8, 0x03u8, 0x00u8, 0x01u8, 0x01u8, 0x17u8, 0x03u8, 0x03u8];
    let tail = finish + seq![(data.len() / 256) as u8, (data.len() % 256) as u8] + data;
    lemma_blanked(head, hello, tail);
}

proof fn lemma_verdict(
    secret: Seq<u8>,
    hello_random: Seq<u8>,
    answer: Seq<u8>,
    more: Seq<u8>,
)
    requires
        hello_response(answer) == Extent::Complete(answer.len()),
        answer.len() >= RANDOM_END,
    ensures
        verdict(secret, hello_random, answer + more) == if response_code(
            secret,
            hello_random,
            answer,
        ) != answer.subrange(11, 43) {
            Err::<bool, MtProxyError>(MtProxyError::HelloHashMismatch)
        } else if more.len() > 0 {
            Err(MtProxyError::HelloTrailingData)
        } else {
            Ok(true)
        },
{
    law_hello_response_verdict_is_stable(answer, more);
    assert((answer + more).take(answer.len() as int) =~= answer);
}

/// A genuine answer ends the handshake once all of it has arrived, however it was cut up on the
/// way, and never before; with something after it, it is refused.
pub proof fn law_genuine_answer_ends_the_handshake(
    secret: Seq<u8>,
    hello_random: Seq<u8>,
    hello: Seq<u8>,
    data: Seq<u8>,
    k: int,
    more: Seq<u8>,
)
    requires
        38 <= hello.len() <= 0xffff,
        data.len() <= 0xffff,
        hello.subrange(6, 38) == genuine_code(secret, hello_random, hello, data),
        more.len() > 0,
    ensures
        ({
            let answer = laid_out_answer(hello, data);
            &&& verdict(secret, hello_random, answer) == Ok::<bool, MtProxyError>(true)
            &&& 0 <= k < answer.len() ==> verdict(secret, hello_random, answer.take(k)) == Ok::<
                bool,
                MtProxyError,
            >(false)
            &&& verdict(secret, hello_random, answer + more) == Err::<bool, MtProxyError>(
                MtProxyError::HelloTrailingData,
            )
        }),
{
    let answer = laid_out_answer(hello, data);
    law_answer_ends_where_it_ends(hello, data, k);
    lemma_laid_out_answer(hello, data);
    lemma_code_of_answer(secret, hello_random, hello, data);
    lemma_verdict(secret, hello_random, answer, more);
    lemma_verdict(secret, hello_random, answer, Seq::empty());
    assert(answer + Seq::<u8>::empty() =~= answer);
}

/// An answer that is laid out as it should be but does not carry the code of a holder of the secret
/// is refused, whatever follows it.
pub proof fn law_forged_answer_is_refused(
    secret: Seq<u8>,
    hello_random: Seq<u8>,
    hello: Seq<u8>,
    data: Seq<u8>,
    more: Seq<u8>,
)
    requires
        38 <= hello.len() <= 0xffff,
        data.len() <= 0xffff,
        hello.subrange(6, 38) != genuine_code(secret, hello_random, hello, data),
    ensures
        verdict(secret, hello_random, laid_out_answer(hello, data) + more) == Err::<
            bool,
            MtProxyError,
        >(MtProxyError::HelloHashMismatch),
{
    let answer = laid_out_answer(hello, data);
    law_answer_ends_where_it_ends(hello, data, 0);
    lemma_laid_out_answer(hello, data);
    lemma_code_of_answer(secret, hello_random, hello, data);
    lemma_verdict(secret, hello_random, answer, more);
}

/// The handshake is done only with a genuine answer and nothing after it: one that is laid out as it
/// should be, and that carries the code of a holder of the secret.
pub proof fn law_only_genuine_answers_are_accepted(
    secret: Seq<u8>,
    hello_random: Seq<u8>,
    response: Seq<u8>,
)
    requires
        verdict(secret, hello_random, response) == Ok::<bool, MtProxyError>(true),
    ensures
        ({
            let n = be_u16(response[3], response[4]) as int;
            let blank = response.take(11) + Seq::new(32, |i: int| 0u8) + response.skip(43);
            &&& response.len() >= 43
            &&& response.take(3) == seq![0x16u8, 0x03u8, 0x03u8]
            &&& response.len() >= 16 + n
            &&& response.subrange(5 + n, 14 + n) == seq![
                0x14u8,
                0x03u8,
                0x03u8,
                0x00u8,
                0x01u8,
                0x01u8,
                0x17u8,
                0x03u8,
                0x03u8,
            ]
            &&& response.len() == 16 + n + response[14 + n] * 256 + response[15 + n]
            &&& response.subrange(11, 43) == hmac(secret, hello_random + blank)@
        }),
{
    let n = be_u16(response[3], response[4]) as int;
    let blank = response.take(11) + Seq::new(32, |i: int| 0u8) + response.skip(43);
    assert(response.take(response.len() as int) =~= response);
    assert(response.subrange(0, 3) =~= response.take(3));
    assert(SERVER_HELLO@ =~= seq![0x16u8, 0x03u8, 0x03u8]);
    assert(SERVER_FINISH@ =~= seq![
        0x14u8,
        0x03u8,
        0x03u8,
        0x00u8,
        0x01u8,
        0x01u8,
        0x17u8,
        0x03u8,
        0x03u8,
    ]);
    assert(without_random(response) =~= blank);
}

/// A handshake that was started accepts the answer of a holder of the secret to the hello that goes
/// out: it remembers the secret and the 32 bytes of the hello that the answer's code is made with,
/// and nothing has arrived yet. It starts for every domain of 1 to 182 bytes, and for no other,
/// unless the random source fails.
pub proof fn law_started_handshake_waits_for_its_answer(
    started: Result<(FakeTlsHandshake, Vec<u8>), MtProxyError>,
    draws: Seq<Draw>,
    domain: Seq<u8>,
    secret: Seq<u8>,
    time: u32,
)
    requires
        is_started(started, draws, domain, secret, time),
        forall|i: int| 0 <= i < draws.len() ==> (#[trigger] draws[i]).filled is Ok,
    ensures
        started is Ok <==> 1 <= domain.len() <= 182,
        started is Err ==> started->Err_0 is InvalidTlsDomain && draws.len() == 0,
        started is Ok ==> {
            let (handshake, hello) = started->Ok_0;
            &&& is_drawn_hello(Ok(hello), draws, domain, secret, time)
            &&& hello@.len() == 517
            &&& handshake.secret() == secret
            &&& handshake.hello_random() == hello@.subrange(11, 43)
            &&& handshake.response().len() == 0
        },
{
    if askable(domain) {
        let hello = match started {
            Ok((_, hello)) => Ok::<Vec<u8>, MtProxyError>(hello),
            Err(err) => Err(err),
        };
        law_hello_comes_back(hello, draws, domain, secret, time);
    }
}

} // verus!
