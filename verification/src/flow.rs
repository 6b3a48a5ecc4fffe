//! How requests go into the buffer and out of it, and how packets come in.

use grammers_crypto::DequeBuffer;
use grammers_mtproto::mtp::DeserializeError;
use grammers_mtproto::MsgId;
use grammers_tl_types::enums::Updates;
use vstd::prelude::*;

use crate::errors::ErrorKind;
use crate::progress::{
    everyone, fault_of, law_messages_conserve_requests, law_messages_follow_each_other,
    law_rejected_requests_are_sent_again, processed, Fault, Progress,
};
use crate::protocol::{Call, Received, Unpacked};
use crate::requests::{
    concerns, find, lemma_find, rejects_unsent, results_of, swap_removed, Answer, MsgIdPair, Reply,
    Request, RequestState,
};

verus! {

/// Why a connection cannot go on.
pub enum SenderError {
    /// The peer closed the connection.
    NothingRead,
    /// More was received than is kept.
    TooMuchData,
    /// The next packet would start beyond what can be counted.
    Overflow,
    /// The next packet would start beyond what was received.
    BeyondBuffer,
    /// A packet could not be taken apart.
    Transport(grammers_mtproto::transport::Error),
    /// A packet's payload could not be read.
    Deserialize(DeserializeError),
}

impl SenderError {
    /// The kind and the text of an error of the connection itself.
    pub open spec fn spec_io(self) -> Option<(ErrorKind, &'static str)> {
        match self {
            SenderError::NothingRead => Some((ErrorKind::ConnectionReset, "read 0 bytes")),
            SenderError::TooMuchData => Some(
                (ErrorKind::InvalidData, "incoming buffer exceeds MAXIMUM_DATA"),
            ),
            SenderError::Overflow => Some(
                (ErrorKind::InvalidData, "overflow while advancing read buffer"),
            ),
            SenderError::BeyondBuffer => Some(
                (ErrorKind::InvalidData, "transport.unpack consumed beyond buffer"),
            ),
            SenderError::Transport(_) => None,
            SenderError::Deserialize(_) => None,
        }
    }

    /// The kind and the text of an error of the connection itself; nothing for an error in what
    /// was received.
    pub fn io(&self) -> (io: Option<(ErrorKind, &'static str)>)
        ensures
            io == self.spec_io(),
    {
        match self {
            SenderError::NothingRead => Some((ErrorKind::ConnectionReset, "read 0 bytes")),
            SenderError::TooMuchData => Some(
                (ErrorKind::InvalidData, "incoming buffer exceeds MAXIMUM_DATA"),
            ),
            SenderError::Overflow => Some(
                (ErrorKind::InvalidData, "overflow while advancing read buffer"),
            ),
            SenderError::BeyondBuffer => Some(
                (ErrorKind::InvalidData, "transport.unpack consumed beyond buffer"),
            ),
            SenderError::Transport(_) => None,
            SenderError::Deserialize(_) => None,
        }
    }
}

/// Why reading stopped before the end of what was received.
pub enum Stop {
    Failed(SenderError),
    Faulted(Fault),
}

/// Where reading ended.
pub struct ReadEnd<R> {
    pub progress: Progress<R>,
    /// How many of the received bytes were taken apart.
    pub consumed: nat,
    pub stop: Option<Stop>,
}

/// Where reading `bytes` from `consumed` on ends, if `calls` are the uses of the protocol that it
/// takes: each packet is taken off the bytes that are left, and the messages in its payload are
/// processed before the next packet is looked for. At most `rounds` packets are looked for.
pub open spec fn reading<R>(
    progress: Progress<R>,
    bytes: Seq<u8>,
    consumed: nat,
    rounds: nat,
    calls: Seq<Call>,
) -> Option<ReadEnd<R>>
    decreases rounds,
{
    let rest = bytes.skip(consumed as int);
    if rest.len() == 0 {
        ended(progress, consumed, None, calls)
    } else if rounds == 0 {
        ended(progress, consumed, Some(Stop::Faulted(Fault::Endless)), calls)
    } else if calls.len() == 0 || !(calls[0] is Unpack) || calls[0]->bytes != rest {
        None
    } else {
        let after = calls.skip(1);
        match calls[0]->unpacked {
            Unpacked::MissingBytes => ended(progress, consumed, None, after),
            Unpacked::Failed(err) => ended(
                progress,
                consumed,
                Some(Stop::Failed(SenderError::Transport(err))),
                after,
            ),
            Unpacked::Packet { data_start, data_end, next_offset } => if data_start > data_end
                || data_end > rest.len() {
                ended(progress, consumed, Some(Stop::Faulted(Fault::PacketOutOfBounds)), after)
            } else if after.len() == 0 || !(after[0] is Deserialize) || after[0]->payload
                != rest.subrange(data_start as int, data_end as int) {
                None
            } else {
                let later = after.skip(1);
                match after[0]->messages {
                    Err(err) => ended(
                        progress,
                        consumed,
                        Some(Stop::Failed(SenderError::Deserialize(err))),
                        later,
                    ),
                    Ok(messages) => {
                        let (next, fault) = processed(progress, messages@);
                        if fault is Some {
                            ended(next, consumed, Some(Stop::Faulted(fault->Some_0)), later)
                        } else if consumed + next_offset > usize::MAX {
                            ended(next, consumed, Some(Stop::Failed(SenderError::Overflow)), later)
                        } else if consumed + next_offset > bytes.len() {
                            ended(
                                next,
                                consumed,
                                Some(Stop::Failed(SenderError::BeyondBuffer)),
                                later,
                            )
                        } else {
                            reading(
                                next,
                                bytes,
                                consumed + next_offset as nat,
                                (rounds - 1) as nat,
                                later,
                            )
                        }
                    },
                }
            },
        }
    }
}

/// The end of reading, if there are no more uses of the protocol.
pub open spec fn ended<R>(
    progress: Progress<R>,
    consumed: nat,
    stop: Option<Stop>,
    calls: Seq<Call>,
) -> Option<ReadEnd<R>> {
    if calls.len() == 0 {
        Some(ReadEnd { progress, consumed, stop })
    } else {
        None
    }
}

/// The request, identified by `id`.
pub open spec fn serialized<R>(request: Request<R>, id: MsgId) -> Request<R> {
    Request {
        state: RequestState::Serialized(MsgIdPair { msg_id: id, container_msg_id: id }),
        ..request
    }
}

/// The requests after those from `i` on that were not serialized have been written into the
/// buffer, in order, until it was full, if `calls` starts with the uses of the protocol that this
/// takes; and the uses after those.
pub open spec fn filling<R>(requests: Seq<Request<R>>, i: nat, calls: Seq<Call>) -> Option<
    (Seq<Request<R>>, Seq<Call>),
>
    decreases requests.len() - i,
{
    if i >= requests.len() {
        Some((requests, calls))
    } else if !(requests[i as int].state is NotSerialized) {
        filling(requests, i + 1, calls)
    } else if calls.len() == 0 || !(calls[0] is Push) || calls[0]->body
        != requests[i as int].body@ {
        None
    } else {
        match calls[0]->Push_id {
            Some(id) => filling(
                requests.update(i as int, serialized(requests[i as int], id)),
                i + 1,
                calls.skip(1),
            ),
            None => Some((requests, calls.skip(1))),
        }
    }
}

/// The buffer that the protocol was given in `call`, and what it left of it.
pub open spec fn buffers_of(call: Call) -> Option<(DequeBuffer<u8>, DequeBuffer<u8>)> {
    match call {
        Call::Push { before, after, .. } => Some((before, after)),
        Call::Finalize { before, after, .. } => Some((before, after)),
        Call::Pack { before, after } => Some((before, after)),
        _ => None,
    }
}

/// Whether `calls` take one buffer from `from` to `to`: the first is given `from`, each later one
/// what the one before it left, and the last leaves `to`.
pub open spec fn threaded(calls: Seq<Call>, from: DequeBuffer<u8>, to: DequeBuffer<u8>) -> bool
    decreases calls.len(),
{
    if calls.len() == 0 {
        from == to
    } else {
        match buffers_of(calls.last()) {
            None => false,
            Some((before, after)) => after == to && threaded(calls.drop_last(), from, before),
        }
    }
}

/// The requests with those in the buffer in the container `id`.
pub open spec fn contained<R>(requests: Seq<Request<R>>, id: MsgId) -> Seq<Request<R>> {
    Seq::new(
        requests.len(),
        |i: int|
            match requests[i].state {
                RequestState::Serialized(pair) => Request {
                    state: RequestState::Serialized(
                        MsgIdPair { msg_id: pair.msg_id, container_msg_id: id },
                    ),
                    ..requests[i]
                },
                _ => requests[i],
            },
    )
}

/// The requests after the buffer was filled, if `calls` are the uses of the protocol that this
/// takes: those of `filling`, then the buffer is completed and, if there is anything to send,
/// packed.
pub open spec fn filled<R>(requests: Seq<Request<R>>, calls: Seq<Call>) -> Option<
    Seq<Request<R>>,
> {
    match filling(requests, 0, calls) {
        None => None,
        Some((written, rest)) => if rest.len() == 0 || !(rest[0] is Finalize) {
            None
        } else {
            match rest[0]->Finalize_id {
                None => if rest.len() == 1 {
                    Some(written)
                } else {
                    None
                },
                Some(id) => if rest.len() == 2 && rest[1] is Pack {
                    Some(contained(written, id))
                } else {
                    None
                },
            }
        },
    }
}

/// The requests after all that was in the buffer was sent.
pub open spec fn sent<R>(requests: Seq<Request<R>>) -> Seq<Request<R>> {
    Seq::new(
        requests.len(),
        |i: int|
            match requests[i].state {
                RequestState::Serialized(pair) => Request {
                    state: RequestState::Sent(pair),
                    ..requests[i]
                },
                _ => requests[i],
            },
    )
}

/// The requests, all of them waiting to be written into the buffer.
pub open spec fn unserialized<R>(requests: Seq<Request<R>>) -> Seq<Request<R>> {
    Seq::new(
        requests.len(),
        |i: int| Request { state: RequestState::NotSerialized, ..requests[i] },
    )
}

/// The same holds of all that one read brings, however it ends.
pub proof fn law_reading_conserves_requests<R>(
    state: Progress<R>,
    bytes: Seq<u8>,
    consumed: nat,
    rounds: nat,
    calls: Seq<Call>,
)
    requires
        reading(state, bytes, consumed, rounds, calls) is Some,
    ensures
        everyone(reading(state, bytes, consumed, rounds, calls)->Some_0.progress) == everyone(
            state,
        ),
    decreases rounds,
{
    let rest = bytes.skip(consumed as int);
    if rest.len() > 0 && rounds > 0 {
        let after = calls.skip(1);
        if let Unpacked::Packet { data_start, data_end, next_offset } = calls[0]->unpacked {
            if data_start <= data_end && data_end <= rest.len() {
                if let Ok(messages) = after[0]->messages {
                    law_messages_conserve_requests(state, messages@);
                    let (next, fault) = processed(state, messages@);
                    let to = consumed + next_offset as nat;
                    if fault is None && to <= usize::MAX && to <= bytes.len() {
                        law_reading_conserves_requests(
                            next,
                            bytes,
                            to,
                            (rounds - 1) as nat,
                            after.skip(1),
                        );
                    }
                }
            }
        }
    }
}

/// Filling the buffer changes nothing about a request but how far it has come: a request that was
/// sent stays as it is, and no request goes back.
pub proof fn law_filling_keeps_requests<R>(requests: Seq<Request<R>>, calls: Seq<Call>, i: int)
    requires
        filled(requests, calls) is Some,
        0 <= i < requests.len(),
    ensures
        ({
            let after = filled(requests, calls)->Some_0;
            &&& after.len() == requests.len()
            &&& after[i].body == requests[i].body
            &&& after[i].result == requests[i].result
            &&& requests[i].state is Sent ==> after[i] == requests[i]
            &&& requests[i].state is Serialized ==> after[i].state is Serialized
            &&& requests[i].state is NotSerialized ==> !(after[i].state is Sent)
        }),
{
    lemma_filling_keeps(requests, 0, calls, i);
}

proof fn lemma_filling_keeps<R>(
    requests: Seq<Request<R>>,
    from: nat,
    calls: Seq<Call>,
    i: int,
)
    requires
        filling(requests, from, calls) is Some,
        0 <= i < requests.len(),
    ensures
        ({
            let after = filling(requests, from, calls)->Some_0.0;
            &&& after.len() == requests.len()
            &&& after[i].body == requests[i].body
            &&& after[i].result == requests[i].result
            &&& !(requests[i].state is NotSerialized) ==> after[i] == requests[i]
            &&& requests[i].state is NotSerialized ==> !(after[i].state is Sent)
        }),
    decreases requests.len() - from,
{
    if from < requests.len() {
        let request = requests[from as int];
        if !(request.state is NotSerialized) {
            lemma_filling_keeps(requests, from + 1, calls, i);
        } else if let Some(id) = calls[0]->Push_id {
            let next = requests.update(from as int, serialized(request, id));
            lemma_filling_keeps(next, from + 1, calls.skip(1), i);
        }
    }
}

/// The buffer takes the requests in the order in which they wait: of two that wait, the later one
/// is in the buffer only if the earlier one is.
pub proof fn law_filling_is_first_come_first_served<R>(
    requests: Seq<Request<R>>,
    calls: Seq<Call>,
    i: int,
    j: int,
)
    requires
        filled(requests, calls) is Some,
        0 <= i < j < requests.len(),
        requests[i].state is NotSerialized,
        requests[j].state is NotSerialized,
    ensures
        ({
            let after = filled(requests, calls)->Some_0;
            after[j].state is Serialized ==> after[i].state is Serialized
        }),
{
    lemma_filling_in_order(requests, 0, calls, i, j);
    lemma_filling_keeps(requests, 0, calls, i);
    lemma_filling_keeps(requests, 0, calls, j);
}

proof fn lemma_filling_in_order<R>(
    requests: Seq<Request<R>>,
    from: nat,
    calls: Seq<Call>,
    i: int,
    j: int,
)
    requires
        filling(requests, from, calls) is Some,
        0 <= i < j < requests.len(),
        requests[j].state is NotSerialized,
        i < from ==> requests[i].state is Serialized,
        i >= from ==> requests[i].state is NotSerialized,
    ensures
        ({
            let after = filling(requests, from, calls)->Some_0.0;
            after[j].state is Serialized ==> after[i].state is Serialized
        }),
    decreases requests.len() - from,
{
    if from < requests.len() {
        let request = requests[from as int];
        if !(request.state is NotSerialized) {
            lemma_filling_in_order(requests, from + 1, calls, i, j);
        } else if let Some(id) = calls[0]->Push_id {
            let next = requests.update(from as int, serialized(request, id));
            if from < j {
                lemma_filling_in_order(next, from + 1, calls.skip(1), i, j);
            } else {
                lemma_filling_keeps(next, from + 1, calls.skip(1), i);
            }
        }
    }
}

/// Filling the buffer, sending it and connecting again answer no one and forget no one: the same
/// answers are waited for in the same order.
pub proof fn law_everyone_keeps_waiting<R>(requests: Seq<Request<R>>, calls: Seq<Call>)
    ensures
        filled(requests, calls) is Some ==> results_of(filled(requests, calls)->Some_0)
            == results_of(requests),
        results_of(sent(requests)) == results_of(requests),
        results_of(unserialized(requests)) == results_of(requests),
{
    if filled(requests, calls) is Some {
        let after = filled(requests, calls)->Some_0;
        lemma_filling_len(requests, 0, calls);
        assert forall|i: int| 0 <= i < requests.len() implies after[i].result
            == requests[i].result by {
            law_filling_keeps_requests(requests, calls, i);
        }
        assert(results_of(after) =~= results_of(requests));
    }
    assert(results_of(sent(requests)) =~= results_of(requests));
    assert(results_of(unserialized(requests)) =~= results_of(requests));
}

proof fn lemma_filling_len<R>(requests: Seq<Request<R>>, from: nat, calls: Seq<Call>)
    requires
        filling(requests, from, calls) is Some,
    ensures
        filling(requests, from, calls)->Some_0.0.len() == requests.len(),
    decreases requests.len() - from,
{
    if from < requests.len() {
        let request = requests[from as int];
        if !(request.state is NotSerialized) {
            lemma_filling_len(requests, from + 1, calls);
        } else if let Some(id) = calls[0]->Push_id {
            let next = requests.update(from as int, serialized(request, id));
            lemma_filling_len(next, from + 1, calls.skip(1));
        }
    }
}

/// Once all that was in the buffer is sent, no request is half-way any more, and so nothing that
/// the server says can be about a request that it was not sent.
pub proof fn law_nothing_is_half_sent<R>(requests: Seq<Request<R>>, message: Received)
    ensures
        forall|i: int|
            0 <= i < requests.len() ==> !((#[trigger] sent(requests)[i]).state is Serialized),
        fault_of(sent(requests), message) is None || fault_of(sent(requests), message) == Some(
            Fault::ShortResult,
        ),
{
    let after = sent(requests);
    assert forall|i: int| 0 <= i < requests.len() implies !((#[trigger] after[i]).state is Serialized) by {}
    match message {
        Received::Update(_) => {},
        Received::RpcResult { msg_id, .. } => lemma_find(after, msg_id),
        Received::RpcError { msg_id, .. } => lemma_find(after, msg_id),
        Received::Failure { msg_id, .. } => lemma_find(after, msg_id),
        Received::BadMessage { .. } => {},
    }
}

/// After connecting again every request waits to be sent, in the same order, and none of the old
/// connection's messages can be an answer to any of them.
pub proof fn law_reconnecting_starts_over<R>(requests: Seq<Request<R>>, id: MsgId, i: int)
    requires
        0 <= i < requests.len(),
    ensures
        ({
            let after = unserialized(requests);
            &&& after.len() == requests.len()
            &&& after[i].state is NotSerialized
            &&& after[i].body == requests[i].body
            &&& after[i].result == requests[i].result
            &&& find(after, id) is None
            &&& !rejects_unsent(after, id)
        }),
{
    lemma_find(unserialized(requests), id);
}

/// A request that went all the way is answered: once it was written into the buffer and all of
/// that was sent, a result for the identifier it got takes it out of the waiting requests and
/// goes where its answer has to go, provided that no other request has the same identifier.
pub proof fn law_sent_request_is_answered<R>(
    requests: Seq<Request<R>>,
    answers: Seq<Answer<R>>,
    pair: MsgIdPair,
    body: Vec<u8>,
    i: int,
)
    requires
        0 <= i < requests.len(),
        requests[i].state == RequestState::Serialized(pair),
        forall|j: int|
            0 <= j < requests.len() && j != i ==> !concerns(
                (#[trigger] requests[j]).state,
                pair.msg_id,
            ),
        body@.len() >= 4,
    ensures
        ({
            let before = Progress { requests: sent(requests), answers, updates: Seq::empty() };
            let message = Received::RpcResult { msg_id: pair.msg_id, body };
            let (after, fault) = processed(before, seq![message]);
            &&& fault is None
            &&& after.requests == swap_removed(sent(requests), i)
            &&& after.answers == answers.push(
                Answer { to: requests[i].result, reply: Reply::Body(body) },
            )
            &&& after.updates == before.updates
        }),
{
    let after = sent(requests);
    let message = Received::RpcResult { msg_id: pair.msg_id, body };
    lemma_find(after, pair.msg_id);
    assert(concerns(after[i].state, pair.msg_id));
    assert forall|j: int| 0 <= j < after.len() && j != i implies !concerns(
        (#[trigger] after[j]).state,
        pair.msg_id,
    ) by {
        assert(!concerns(requests[j].state, pair.msg_id));
    }
    assert(find(after, pair.msg_id) == Some(i));
    assert(seq![message].skip(1) =~= Seq::<Received>::empty());
    reveal_with_fuel(processed, 2);
}

/// How many of the requests from `from` up to but not including `to` wait to be written into the
/// buffer.
pub open spec fn waiting_between<R>(requests: Seq<Request<R>>, from: int, to: int) -> nat
    decreases to - from,
{
    if from >= to {
        0
    } else if requests[from].state is NotSerialized {
        waiting_between(requests, from + 1, to) + 1
    } else {
        waiting_between(requests, from + 1, to)
    }
}

proof fn lemma_waiting_between<R>(
    one: Seq<Request<R>>,
    two: Seq<Request<R>>,
    from: int,
    to: int,
)
    requires
        forall|j: int| from <= j < to ==> #[trigger] one[j] == two[j],
    ensures
        waiting_between(one, from, to) == waiting_between(two, from, to),
    decreases to - from,
{
    if from < to {
        assert(one[from] == two[from]);
        lemma_waiting_between(one, two, from + 1, to);
    }
}

/// Whether the protocol was given a body to write in every one of the first `n` calls and took it.
pub open spec fn took_all(calls: Seq<Call>, n: int) -> bool {
    &&& n <= calls.len()
    &&& forall|j: int|
        0 <= j < n ==> match #[trigger] calls[j] {
            Call::Push { id: Some(_), .. } => true,
            _ => false,
        }
}

/// The requests that wait are offered to the protocol one after the other, each with its own body,
/// until it refuses one; exactly those that it took are in the buffer then, and each goes by the
/// identifier that it was given.
pub proof fn law_waiting_requests_are_offered_in_turn<R>(
    requests: Seq<Request<R>>,
    calls: Seq<Call>,
    i: int,
)
    requires
        filled(requests, calls) is Some,
        0 <= i < requests.len(),
        requests[i].state is NotSerialized,
    ensures
        ({
            let after = filled(requests, calls)->Some_0;
            let turn = waiting_between(requests, 0, i) as int;
            &&& took_all(calls, turn) ==> turn < calls.len() && match calls[turn] {
                Call::Push { body, .. } => body == requests[i].body@,
                _ => false,
            }
            &&& after[i].state is Serialized <==> took_all(calls, turn + 1)
            &&& after[i].state is NotSerialized <==> !took_all(calls, turn + 1)
            &&& match after[i].state {
                RequestState::Serialized(pair) => match calls[turn] {
                    Call::Push { id, .. } => id == Some(pair.msg_id),
                    _ => false,
                },
                _ => true,
            }
        }),
{
    lemma_offered_in_turn(requests, 0, calls, i);
    lemma_filling_keeps(requests, 0, calls, i);
}

proof fn lemma_offered_in_turn<R>(
    requests: Seq<Request<R>>,
    from: nat,
    calls: Seq<Call>,
    i: int,
)
    requires
        filling(requests, from, calls) is Some,
        from <= i < requests.len(),
        requests[i].state is NotSerialized,
        filling(requests, from, calls)->Some_0.1.len() > 0,
        filling(requests, from, calls)->Some_0.1[0] is Finalize,
    ensures
        ({
            let after = filling(requests, from, calls)->Some_0.0;
            let turn = waiting_between(requests, from as int, i) as int;
            &&& took_all(calls, turn) ==> turn < calls.len() && match calls[turn] {
                Call::Push { body, .. } => body == requests[i].body@,
                _ => false,
            }
            &&& after[i].state is Serialized <==> took_all(calls, turn + 1)
            &&& after[i].state is NotSerialized <==> !took_all(calls, turn + 1)
            &&& match after[i].state {
                RequestState::Serialized(pair) => match calls[turn] {
                    Call::Push { id, .. } => id == Some(pair.msg_id),
                    _ => false,
                },
                _ => true,
            }
        }),
    decreases requests.len() - from,
{
    let request = requests[from as int];
    let turn = waiting_between(requests, from as int, i) as int;
    if !(request.state is NotSerialized) {
        lemma_offered_in_turn(requests, from + 1, calls, i);
    } else if let Some(id) = calls[0]->Push_id {
        let next = requests.update(from as int, serialized(request, id));
        let later = calls.skip(1);
        if from < i {
            lemma_offered_in_turn(next, from + 1, later, i);
            lemma_waiting_between(requests, next, from as int + 1, i);
            assert(turn == waiting_between(next, from as int + 1, i) + 1);
            lemma_took_all(calls, turn);
            lemma_took_all(calls, turn + 1);
            if turn <= later.len() {
                assert(turn < calls.len() ==> calls[turn] == later[turn - 1]);
            }
        } else {
            lemma_filling_keeps(next, from + 1, later, i);
            assert(took_all(calls, 1));
        }
    } else {
        assert(calls.skip(1)[0] == calls[1]);
        assert(!took_all(calls, turn + 1)) by {
            if took_all(calls, turn + 1) {
                assert(0 <= 0 < turn + 1 && calls[0] is Push);
            }
        }
        if turn > 0 {
            assert(!took_all(calls, turn)) by {
                if took_all(calls, turn) {
                    assert(calls[0] is Push);
                }
            }
        }
    }
}

proof fn lemma_took_all(calls: Seq<Call>, n: int)
    requires
        calls.len() > 0,
        calls[0] is Push,
        calls[0]->Push_id is Some,
        n >= 1,
    ensures
        took_all(calls, n) == took_all(calls.skip(1), n - 1),
{
    let later = calls.skip(1);
    if took_all(calls, n) {
        assert forall|j: int| 0 <= j < n - 1 implies match #[trigger] later[j] {
            Call::Push { id: Some(_), .. } => true,
            _ => false,
        } by {
            assert(later[j] == calls[j + 1]);
        }
    }
    if took_all(later, n - 1) {
        assert forall|j: int| 0 <= j < n implies match #[trigger] calls[j] {
            Call::Push { id: Some(_), .. } => true,
            _ => false,
        } by {
            if j > 0 {
                assert(later[j - 1] == calls[j]);
            }
        }
    }
}

proof fn lemma_filling_pushes<R>(requests: Seq<Request<R>>, from: nat, calls: Seq<Call>) -> (n: int)
    requires
        filling(requests, from, calls) is Some,
    ensures
        0 <= n <= calls.len(),
        filling(requests, from, calls)->Some_0.1 == calls.skip(n),
        forall|j: int| 0 <= j < n ==> #[trigger] calls[j] is Push,
    decreases requests.len() - from,
{
    if from >= requests.len() {
        assert(calls.skip(0) =~= calls);
        0
    } else if !(requests[from as int].state is NotSerialized) {
        lemma_filling_pushes(requests, from + 1, calls)
    } else {
        match calls[0]->Push_id {
            Some(id) => {
                let next = requests.update(
                    from as int,
                    serialized(requests[from as int], id),
                );
                let later = calls.skip(1);
                let m = lemma_filling_pushes(next, from + 1, later);
                assert(later.skip(m) =~= calls.skip(m + 1));
                assert forall|j: int| 0 <= j < m + 1 implies #[trigger] calls[j] is Push by {
                    if j > 0 {
                        assert(later[j - 1] == calls[j]);
                    }
                }
                m + 1
            },
            None => 1,
        }
    }
}

/// After the requests were offered, the buffer is completed once; it is packed, last of all and
/// once, exactly if there is anything in it. The container that it became, if it did, is then the
/// container of every request in the buffer, whose own identifier stays what it was.
pub proof fn law_container_holds_all_in_the_buffer<R>(requests: Seq<Request<R>>, calls: Seq<Call>)
    requires
        filled(requests, calls) is Some,
    ensures
        exists|f: int| 0 <= f < calls.len() && #[trigger] calls[f] is Finalize,
        forall|f: int|
            0 <= f < calls.len() && #[trigger] calls[f] is Finalize ==> {
                let after = filled(requests, calls)->Some_0;
                &&& forall|j: int| 0 <= j < f ==> #[trigger] calls[j] is Push
                &&& match calls[f]->Finalize_id {
                    None => calls.len() == f + 1,
                    Some(id) => {
                        &&& calls.len() == f + 2
                        &&& calls[f + 1] is Pack
                        &&& forall|i: int|
                            0 <= i < after.len() ==> match (#[trigger] after[i]).state {
                                RequestState::Serialized(pair) => pair.container_msg_id == id,
                                _ => true,
                            }
                    },
                }
            },
{
    let n = lemma_filling_pushes(requests, 0, calls);
    let rest = calls.skip(n);
    assert(rest[0] == calls[n]);
    if rest.len() > 1 {
        assert(rest[1] == calls[n + 1]);
    }
    assert forall|f: int| 0 <= f < calls.len() && #[trigger] calls[f] is Finalize implies f == n by {
        if f > n {
            assert(calls[f] == rest[f - n]);
        }
    }
}

/// Once all of the buffer was sent, the server rejecting its container for its identifier or its
/// salt has every request that was in it sent again.
pub proof fn law_rejected_container_is_sent_again<R>(
    requests: Seq<Request<R>>,
    calls: Seq<Call>,
    answers: Seq<Answer<R>>,
    f: int,
    id: MsgId,
    code: i32,
    i: int,
)
    requires
        filled(requests, calls) is Some,
        0 <= f < calls.len(),
        calls[f] is Finalize,
        calls[f]->Finalize_id == Some(id),
        code == 16 || code == 17 || code == 48,
        0 <= i < requests.len(),
        filled(requests, calls)->Some_0[i].state is Serialized,
    ensures
        ({
            let gone = Progress {
                requests: sent(filled(requests, calls)->Some_0),
                answers,
                updates: Seq::empty(),
            };
            let message = Received::BadMessage { msg_id: id, code };
            let (after, fault) = processed(gone, seq![message]);
            &&& fault is None
            &&& after.requests.len() == requests.len()
            &&& after.requests[i].state is NotSerialized
            &&& after.requests[i].body == requests[i].body
            &&& after.requests[i].result == requests[i].result
            &&& after.answers == answers
        }),
{
    let packed = filled(requests, calls)->Some_0;
    let gone = Progress { requests: sent(packed), answers, updates: Seq::<Updates>::empty() };
    law_container_holds_all_in_the_buffer(requests, calls);
    law_filling_keeps_requests(requests, calls, i);
    lemma_filling_len(requests, 0, calls);
    assert(calls[f] is Finalize);
    assert(packed[i].state is Serialized);
    law_rejected_requests_are_sent_again(gone, id, code);
    let after = processed(gone, seq![Received::BadMessage { msg_id: id, code }]).0;
    assert(after.requests[i].body == gone.requests[i].body);
}

/// What sending all of the buffer changes: the requests in it count as sent, by the identifiers
/// they had, and no other request is touched.
pub proof fn law_sending_marks_what_was_in_the_buffer<R>(requests: Seq<Request<R>>, i: int)
    requires
        0 <= i < requests.len(),
    ensures
        sent(requests).len() == requests.len(),
        sent(requests)[i].body == requests[i].body,
        sent(requests)[i].result == requests[i].result,
        match requests[i].state {
            RequestState::Serialized(pair) => sent(requests)[i].state == RequestState::Sent(pair),
            other => sent(requests)[i].state == other,
        },
{
}

/// The buffer that a protocol was given to write in, if it was.
pub open spec fn given(call: Call) -> Option<DequeBuffer<u8>> {
    match call {
        Call::Push { before, .. } => Some(before),
        Call::Finalize { before, .. } => Some(before),
        Call::Pack { before, .. } => Some(before),
        _ => None,
    }
}

/// What a protocol left of the buffer that it was given to write in, if it was.
pub open spec fn left(call: Call) -> Option<DequeBuffer<u8>> {
    match call {
        Call::Push { after, .. } => Some(after),
        Call::Finalize { after, .. } => Some(after),
        Call::Pack { after, .. } => Some(after),
        _ => None,
    }
}

/// One buffer runs through all uses of the protocol: the first is given it as it was, every other
/// one what the one before it left, and what the last one leaves is what there is to send.
pub proof fn law_one_buffer_runs_through(
    calls: Seq<Call>,
    from: DequeBuffer<u8>,
    to: DequeBuffer<u8>,
    k: int,
)
    requires
        threaded(calls, from, to),
        0 <= k < calls.len(),
    ensures
        given(calls[0]) == Some(from),
        k > 0 ==> given(calls[k]) == left(calls[k - 1]) && given(calls[k]) is Some,
        left(calls.last()) == Some(to),
    decreases calls.len(),
{
    let front = calls.drop_last();
    let (before, _) = buffers_of(calls.last())->Some_0;
    assert(threaded(front, from, before));
    if front.len() > 0 {
        law_one_buffer_runs_through(
            front,
            from,
            before,
            if k < front.len() {
                k
            } else {
                0
            },
        );
        assert(front[0] == calls[0]);
        assert(front.last() == calls[calls.len() - 2]);
    }
}

/// How many bytes the packets take up that the protocol found.
pub open spec fn packets_len(calls: Seq<Call>) -> nat
    decreases calls.len(),
{
    if calls.len() == 0 {
        0
    } else {
        packets_len(calls.skip(1)) + match calls[0] {
            Call::Unpack { unpacked: Unpacked::Packet { next_offset, .. }, .. } => {
                next_offset as nat
            },
            _ => 0,
        }
    }
}

/// The messages that the protocol read, in order.
pub open spec fn messages_in(calls: Seq<Call>) -> Seq<Received>
    decreases calls.len(),
{
    if calls.len() == 0 {
        Seq::empty()
    } else {
        match calls[0] {
            Call::Deserialize { messages: Ok(messages), .. } => messages@ + messages_in(
                calls.skip(1),
            ),
            _ => messages_in(calls.skip(1)),
        }
    }
}

/// Every message that a read brings is processed, in order; where reading was not stopped, exactly
/// the packets that were found are done with; and a message that cannot be processed stops the
/// reading.
pub proof fn law_every_message_is_processed<R>(
    state: Progress<R>,
    bytes: Seq<u8>,
    consumed: nat,
    rounds: nat,
    calls: Seq<Call>,
)
    requires
        reading(state, bytes, consumed, rounds, calls) is Some,
    ensures
        ({
            let end = reading(state, bytes, consumed, rounds, calls)->Some_0;
            let (after, fault) = processed(state, messages_in(calls));
            &&& end.progress == after
            &&& fault is Some ==> end.stop == Some(Stop::Faulted(fault->Some_0))
            &&& end.stop is None ==> end.consumed == consumed + packets_len(calls)
        }),
    decreases rounds,
{
    let rest = bytes.skip(consumed as int);
    if calls.len() > 0 {
        let after = calls.skip(1);
        let found = calls[0]->unpacked;
        if after.len() > 0 {
            let later = after.skip(1);
            let brought = after[0]->messages;
            assert(messages_in(calls) == messages_in(after));
            if let Ok(messages) = brought {
                assert(messages_in(after) == messages@ + messages_in(later));
                law_messages_follow_each_other(state, messages@, messages_in(later));
                let (next, fault) = processed(state, messages@);
                let to = consumed + found->next_offset as nat;
                if fault is None && to <= usize::MAX && to <= bytes.len() {
                    assert(reading(state, bytes, consumed, rounds, calls) == reading(
                        next,
                        bytes,
                        to,
                        (rounds - 1) as nat,
                        later,
                    ));
                    law_every_message_is_processed(
                        next,
                        bytes,
                        to,
                        (rounds - 1) as nat,
                        later,
                    );
                } else {
                    assert(messages_in(later) =~= Seq::<Received>::empty());
                }
            } else {
                assert(messages_in(later) =~= Seq::<Received>::empty());
            }
            assert(packets_len(after) == packets_len(later));
        } else {
            assert(messages_in(calls) == messages_in(after));
            assert(messages_in(after) =~= Seq::<Received>::empty());
            assert(packets_len(after) == 0);
        }
    }
    let end = reading(state, bytes, consumed, rounds, calls)->Some_0;
    let read = processed(state, messages_in(calls));
    assert(end.progress == read.0);
    assert(read.1 is Some ==> end.stop == Some(Stop::Faulted(read.1->Some_0)));
    assert(end.stop is None ==> end.consumed == consumed + packets_len(calls));
}

/// What the protocol is asked while reading: in turn, what packet the bytes start with that follow
/// the packets found before, and what messages the payload of that packet holds.
pub proof fn law_packets_are_taken_in_turn<R>(
    state: Progress<R>,
    bytes: Seq<u8>,
    consumed: nat,
    rounds: nat,
    calls: Seq<Call>,
    k: int,
)
    requires
        reading(state, bytes, consumed, rounds, calls) is Some,
        0 <= k < calls.len(),
    ensures
        k % 2 == 0 ==> match calls[k] {
            Call::Unpack { bytes: asked, .. } => asked == bytes.skip(
                (consumed + packets_len(calls.take(k))) as int,
            ),
            _ => false,
        },
        k % 2 == 1 ==> match (calls[k - 1], calls[k]) {
            (
                Call::Unpack {
                    bytes: asked,
                    unpacked: Unpacked::Packet { data_start, data_end, .. },
                },
                Call::Deserialize { payload, .. },
            ) => {
                &&& data_start <= data_end <= asked.len()
                &&& payload == asked.subrange(data_start as int, data_end as int)
            },
            _ => false,
        },
    decreases rounds,
{
    assert(calls.take(0) =~= Seq::<Call>::empty());
    if k >= 1 {
        let after = calls.skip(1);
        assert(after[0] == calls[1]);
    }
    if k >= 2 {
        let after = calls.skip(1);
        let later = after.skip(1);
        let found = calls[0]->unpacked;
        let messages = after[0]->messages->Ok_0;
        let next = processed(state, messages@).0;
        let to = consumed + found->next_offset as nat;
        law_packets_are_taken_in_turn(next, bytes, to, (rounds - 1) as nat, later, k - 2);
        assert(later[k - 2] == calls[k]);
        if k >= 3 {
            assert(later[k - 3] == calls[k - 1]);
        }
        let front = calls.take(k);
        assert(front.skip(1).skip(1) =~= later.take(k - 2));
        assert(front.skip(1)[0] == calls[1]);
        assert(packets_len(front.skip(1)) == packets_len(later.take(k - 2)));
        assert(packets_len(front) == packets_len(later.take(k - 2)) + found->next_offset);
    }
}

/// How reading ends is up to what the protocol said last: with no complete packet left, or with
/// nothing left at all, it went well; what the layers below could not take apart is why it failed.
pub proof fn law_how_reading_ends<R>(
    state: Progress<R>,
    bytes: Seq<u8>,
    consumed: nat,
    rounds: nat,
    calls: Seq<Call>,
)
    requires
        consumed <= bytes.len(),
        reading(state, bytes, consumed, rounds, calls) is Some,
        reading(state, bytes, consumed, rounds, calls)->Some_0.stop != Some(
            Stop::Faulted(Fault::Endless),
        ),
    ensures
        ({
            let end = reading(state, bytes, consumed, rounds, calls)->Some_0;
            if calls.len() == 0 {
                end.stop is None && consumed == bytes.len()
            } else {
                match calls.last() {
                    Call::Unpack { unpacked: Unpacked::MissingBytes, .. } => {
                        end.stop is None && end.consumed < bytes.len()
                    },
                    Call::Unpack { unpacked: Unpacked::Failed(err), .. } => {
                        end.stop == Some(Stop::Failed(SenderError::Transport(err)))
                    },
                    Call::Unpack {
                        bytes: asked,
                        unpacked: Unpacked::Packet { data_start, data_end, .. },
                    } => {
                        &&& !(data_start <= data_end <= asked.len())
                        &&& end.stop == Some(Stop::Faulted(Fault::PacketOutOfBounds))
                    },
                    Call::Deserialize { messages: Err(err), .. } => {
                        end.stop == Some(Stop::Failed(SenderError::Deserialize(err)))
                    },
                    Call::Deserialize { messages: Ok(_), .. } => {
                        let fault = processed(state, messages_in(calls)).1;
                        let to = consumed + packets_len(calls);
                        if fault is Some {
                            end.stop == Some(Stop::Faulted(fault->Some_0))
                        } else if to > usize::MAX {
                            end.stop == Some(Stop::Failed(SenderError::Overflow))
                        } else if to > bytes.len() {
                            end.stop == Some(Stop::Failed(SenderError::BeyondBuffer))
                        } else {
                            end.stop is None && end.consumed == bytes.len()
                        }
                    },
                    _ => false,
                }
            }
        }),
    decreases rounds,
{
    law_every_message_is_processed(state, bytes, consumed, rounds, calls);
    let rest = bytes.skip(consumed as int);
    if calls.len() > 0 {
        let after = calls.skip(1);
        let found = calls[0]->unpacked;
        if after.len() == 0 {
            assert(calls.last() == calls[0]);
        } else {
            let later = after.skip(1);
            let brought = after[0]->messages;
            assert(packets_len(after) == packets_len(later));
            assert(messages_in(calls) == messages_in(after));
            if let Ok(messages) = brought {
                law_messages_follow_each_other(state, messages@, messages_in(later));
                let (next, fault) = processed(state, messages@);
                let to = consumed + found->next_offset as nat;
                if fault is None && to <= usize::MAX && to <= bytes.len() {
                    assert(reading(state, bytes, consumed, rounds, calls) == reading(
                        next,
                        bytes,
                        to,
                        (rounds - 1) as nat,
                        later,
                    ));
                    law_how_reading_ends(next, bytes, to, (rounds - 1) as nat, later);
                    if later.len() > 0 {
                        assert(later.last() == calls.last());
                    } else {
                        assert(calls.last() == after[0]);
                    }
                } else {
                    assert(calls.last() == after[0]);
                    assert(packets_len(later) == 0);
                    assert(messages_in(later) =~= Seq::<Received>::empty());
                }
            } else {
                assert(calls.last() == after[0]);
            }
        }
    }
}

/// Only what is wrong with the connection itself is an error of the connection, which a new
/// connection may make up for: that it was closed resets it, and everything else about it is invalid
/// data. What is wrong with a packet or its payload is none.
pub proof fn law_errors_of_the_connection(err: SenderError)
    ensures
        err.spec_io() is None <==> err is Transport || err is Deserialize,
        err is NothingRead <==> err.spec_io() is Some && err.spec_io()->Some_0.0
            == ErrorKind::ConnectionReset,
        err is TooMuchData || err is Overflow || err is BeyondBuffer <==> err.spec_io() is Some
            && err.spec_io()->Some_0.0 == ErrorKind::InvalidData,
{
}

} // verus!
