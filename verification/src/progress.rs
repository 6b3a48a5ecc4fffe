//! What the server's messages come to for the requests that wait.

use grammers_mtproto::mtp::DeserializeError;
use grammers_mtproto::MsgId;
use grammers_tl_types::enums::Updates;
use vstd::multiset::Multiset;
use vstd::prelude::*;

use crate::octets::le_nat;
use crate::protocol::Received;
use crate::requests::{
    answered, dropped, find, law_dropped_are_the_rejected, lemma_answering_conserves, lemma_dropping_conserves, lemma_find,
    rejected, rejects_unsent, requests_wf, results_of, retried, swap_removed, unsent, Answer,
    MsgIdPair, Reply, Request, RequestState,
};
use crate::updates::update_of;

verus! {

/// Why nothing sensible can be done: the server or a layer below broke its promises.
#[derive(Clone, Copy, Debug)]
pub enum Fault {
    /// The server answered a request that was not sent.
    UnsentAnswered { msg_id: MsgId, pair: MsgIdPair },
    /// The server did not accept a message that was not sent.
    UnsentRejected { msg_id: MsgId, code: i32 },
    /// The result of a request is too short to say what it is.
    ShortResult,
    /// A packet does not lie within the bytes it was taken from.
    PacketOutOfBounds,
    /// Packets kept coming without end.
    Endless,
}

/// Where the requests, their answers and the updates stand.
pub struct Progress<R> {
    pub requests: Seq<Request<R>>,
    pub answers: Seq<Answer<R>>,
    pub updates: Seq<Updates>,
}

/// Why a message cannot be processed, if it cannot.
pub open spec fn fault_of<R>(requests: Seq<Request<R>>, message: Received) -> Option<Fault> {
    match message {
        Received::Update(_) => None,
        Received::RpcResult { msg_id, body } => match answer_fault(requests, msg_id) {
            Some(fault) => Some(fault),
            None => if find(requests, msg_id) is Some && body@.len() < 4 {
                Some(Fault::ShortResult)
            } else {
                None
            },
        },
        Received::RpcError { msg_id, .. } => answer_fault(requests, msg_id),
        Received::BadMessage { msg_id, code } => if rejects_unsent(requests, msg_id) {
            Some(Fault::UnsentRejected { msg_id, code })
        } else {
            None
        },
        Received::Failure { msg_id, .. } => answer_fault(requests, msg_id),
    }
}

/// Why there can be no answer to the request that `id` concerns, if there cannot.
pub open spec fn answer_fault<R>(requests: Seq<Request<R>>, id: MsgId) -> Option<Fault> {
    match find(requests, id) {
        Some(i) => match requests[i].state {
            RequestState::Serialized(pair) => Some(Fault::UnsentAnswered { msg_id: id, pair }),
            _ => None,
        },
        None => None,
    }
}

/// Takes the request that `id` concerns, if there is one, and answers it.
pub open spec fn replied<R>(state: Progress<R>, id: MsgId, reply: Reply) -> Progress<R> {
    match find(state.requests, id) {
        Some(i) => Progress {
            requests: swap_removed(state.requests, i),
            answers: state.answers.push(Answer { to: state.requests[i].result, reply }),
            ..state
        },
        None => state,
    }
}

/// What was called by the request that `id` concerns.
pub open spec fn called<R>(requests: Seq<Request<R>>, id: MsgId) -> u32 {
    le_nat(requests[find(requests, id)->Some_0].body@.take(4)) as u32
}

/// Whether a message that was not accepted with this code may be sent again.
pub open spec fn is_retryable(code: i32) -> bool {
    code == 16 || code == 17 || code == 48
}

/// What the message comes to.
pub open spec fn processed_one<R>(state: Progress<R>, message: Received) -> Progress<R> {
    match message {
        Received::Update(bytes) => match update_of(bytes@) {
            Some(update) => Progress { updates: state.updates.push(update), ..state },
            None => state,
        },
        Received::RpcResult { msg_id, body } => replied(state, msg_id, Reply::Body(body)),
        Received::RpcError { msg_id, code, message } => replied(
            state,
            msg_id,
            Reply::Rpc { code, message, caused_by: called(state.requests, msg_id) },
        ),
        Received::BadMessage { msg_id, code } => if is_retryable(code) {
            Progress { requests: retried(state.requests, msg_id), ..state }
        } else {
            let (requests, answers) = dropped(
                state.requests,
                state.answers,
                msg_id,
                state.requests.len(),
            );
            Progress { requests, answers, ..state }
        },
        Received::Failure { msg_id, error } => replied(state, msg_id, Reply::Undecodable(error)),
    }
}

/// What the messages come to, one after the other, up to the first that cannot be processed.
pub open spec fn processed<R>(state: Progress<R>, messages: Seq<Received>) -> (
    Progress<R>,
    Option<Fault>,
)
    decreases messages.len(),
{
    if messages.len() == 0 {
        (state, None)
    } else {
        match fault_of(state.requests, messages[0]) {
            Some(fault) => (state, Some(fault)),
            None => processed(processed_one(state, messages[0]), messages.skip(1)),
        }
    }
}

pub proof fn lemma_processed_one_wf<R>(state: Progress<R>, message: Received)
    requires
        requests_wf(state.requests),
        fault_of(state.requests, message) is None,
    ensures
        requests_wf(processed_one(state, message).requests),
{
    match message {
        Received::Update(_) => {},
        Received::RpcResult { msg_id, .. } => lemma_find(state.requests, msg_id),
        Received::RpcError { msg_id, .. } => lemma_find(state.requests, msg_id),
        Received::Failure { msg_id, .. } => lemma_find(state.requests, msg_id),
        Received::BadMessage { msg_id, code } => lemma_dropped_wf(
            state.requests,
            state.answers,
            msg_id,
            state.requests.len(),
        ),
    }
}

proof fn lemma_dropped_wf<R>(
    requests: Seq<Request<R>>,
    answers: Seq<Answer<R>>,
    id: MsgId,
    i: nat,
)
    requires
        i <= requests.len(),
        requests_wf(requests),
    ensures
        requests_wf(dropped(requests, answers, id, i).0),
    decreases i,
{
    if i > 0 {
        let k = (i - 1) as nat;
        let request = requests[k as int];
        if rejected(request, id) {
            let answer = Answer { to: request.result, reply: Reply::Dropped };
            lemma_dropped_wf(swap_removed(requests, k as int), answers.push(answer), id, k);
        } else {
            lemma_dropped_wf(requests, answers, id, k);
        }
    }
}

/// Where the answers to all requests go that wait or were answered.
pub open spec fn everyone<R>(state: Progress<R>) -> Multiset<R> {
    results_of(state.requests).to_multiset().add(answered(state.answers).to_multiset())
}

proof fn lemma_processed_one_conserves<R>(state: Progress<R>, message: Received)
    ensures
        everyone(processed_one(state, message)) == everyone(state),
{
    let requests = state.requests;
    match message {
        Received::Update(_) => {},
        Received::RpcResult { msg_id, body } => {
            lemma_replied_conserves(state, msg_id, Reply::Body(body));
        },
        Received::RpcError { msg_id, code, message } => {
            let caused_by = called(requests, msg_id);
            lemma_replied_conserves(state, msg_id, Reply::Rpc { code, message, caused_by });
        },
        Received::Failure { msg_id, error } => {
            lemma_replied_conserves(state, msg_id, Reply::Undecodable(error));
        },
        Received::BadMessage { msg_id, code } => {
            lemma_dropping_conserves(requests, state.answers, msg_id, requests.len());
            assert(results_of(retried(requests, msg_id)) =~= results_of(requests));
        },
    }
}

proof fn lemma_replied_conserves<R>(state: Progress<R>, id: MsgId, reply: Reply)
    ensures
        everyone(replied(state, id, reply)) == everyone(state),
{
    lemma_find(state.requests, id);
    if let Some(i) = find(state.requests, id) {
        let answer = Answer { to: state.requests[i].result, reply };
        lemma_answering_conserves(state.requests, state.answers, i, answer);
    }
}

/// No request is lost, and none is answered twice: whatever messages come in, everyone who waited
/// for an answer before still waits or was answered once.
pub proof fn law_messages_conserve_requests<R>(state: Progress<R>, messages: Seq<Received>)
    ensures
        everyone(processed(state, messages).0) == everyone(state),
    decreases messages.len(),
{
    if messages.len() > 0 && fault_of(state.requests, messages[0]) is None {
        lemma_processed_one_conserves(state, messages[0]);
        law_messages_conserve_requests(processed_one(state, messages[0]), messages.skip(1));
    }
}

/// Answers go only to requests that were sent: a request that still waits to be sent is left
/// alone, body and all, whatever messages come in.
pub proof fn law_waiting_requests_stay<R>(
    state: Progress<R>,
    messages: Seq<Received>,
    request: Request<R>,
)
    requires
        !(request.state is Sent),
        state.requests.contains(request),
    ensures
        processed(state, messages).0.requests.contains(request),
    decreases messages.len(),
{
    if messages.len() > 0 && fault_of(state.requests, messages[0]) is None {
        let next = processed_one(state, messages[0]);
        lemma_waiting_request_stays(state, messages[0], request);
        law_waiting_requests_stay(next, messages.skip(1), request);
    }
}

proof fn lemma_waiting_request_stays<R>(
    state: Progress<R>,
    message: Received,
    request: Request<R>,
)
    requires
        !(request.state is Sent),
        state.requests.contains(request),
        fault_of(state.requests, message) is None,
    ensures
        processed_one(state, message).requests.contains(request),
{
    let requests = state.requests;
    let at = choose|i: int| 0 <= i < requests.len() && requests[i] == request;
    match message {
        Received::Update(_) => {},
        Received::RpcResult { msg_id, .. } => lemma_swapped_stays(requests, msg_id, at),
        Received::RpcError { msg_id, .. } => lemma_swapped_stays(requests, msg_id, at),
        Received::Failure { msg_id, .. } => lemma_swapped_stays(requests, msg_id, at),
        Received::BadMessage { msg_id, code } => if is_retryable(code) {
            assert(retried(requests, msg_id)[at] == request);
        } else {
            lemma_undropped_stays(requests, state.answers, msg_id, requests.len(), request);
        },
    }
}

proof fn lemma_swapped_stays<R>(requests: Seq<Request<R>>, id: MsgId, at: int)
    requires
        0 <= at < requests.len(),
        !(requests[at].state is Sent),
        !unsent(requests, id),
    ensures
        find(requests, id) is Some ==> swap_removed(
            requests,
            find(requests, id)->Some_0,
        ).contains(requests[at]),
{
    lemma_find(requests, id);
    if let Some(i) = find(requests, id) {
        let rest = swap_removed(requests, i);
        assert(at != i);
        if at == requests.len() - 1 {
            assert(rest[i] == requests[at]);
        } else {
            assert(rest[at] == requests[at]);
        }
    }
}

proof fn lemma_undropped_stays<R>(
    requests: Seq<Request<R>>,
    answers: Seq<Answer<R>>,
    id: MsgId,
    i: nat,
    request: Request<R>,
)
    requires
        i <= requests.len(),
        requests.contains(request),
        !(request.state is Sent),
    ensures
        dropped(requests, answers, id, i).0.contains(request),
    decreases i,
{
    if i > 0 {
        let k = (i - 1) as nat;
        let hit = requests[k as int];
        if rejected(hit, id) {
            let at = choose|j: int| 0 <= j < requests.len() && requests[j] == request;
            let rest = swap_removed(requests, k as int);
            assert(at != k);
            if at == requests.len() - 1 {
                assert(rest[k as int] == request);
            } else {
                assert(rest[at] == request);
            }
            let answer = Answer { to: hit.result, reply: Reply::Dropped };
            lemma_undropped_stays(rest, answers.push(answer), id, k, request);
        } else {
            lemma_undropped_stays(requests, answers, id, k, request);
        }
    }
}

/// Whether request `i` was sent as message `id`, and no request before it goes by that identifier.
pub open spec fn sent_first_as<R>(requests: Seq<Request<R>>, i: int, id: MsgId) -> bool {
    &&& 0 <= i < requests.len()
    &&& match requests[i].state {
        RequestState::Sent(pair) => pair.msg_id == id,
        _ => false,
    }
    &&& forall|j: int|
        0 <= j < i ==> match (#[trigger] requests[j]).state {
            RequestState::NotSerialized => true,
            RequestState::Serialized(pair) => pair.msg_id != id,
            RequestState::Sent(pair) => pair.msg_id != id,
        }
}

/// Whether no request goes by the identifier `id`.
pub open spec fn unknown<R>(requests: Seq<Request<R>>, id: MsgId) -> bool {
    forall|j: int|
        0 <= j < requests.len() ==> match (#[trigger] requests[j]).state {
            RequestState::NotSerialized => true,
            RequestState::Serialized(pair) => pair.msg_id != id,
            RequestState::Sent(pair) => pair.msg_id != id,
        }
}

/// Whether `after` is what answering request `i` with `reply` leaves of `before`: the last request
/// takes the place of request `i`, and the reply is the last answer.
pub open spec fn is_answering<R>(
    before: Progress<R>,
    after: Progress<R>,
    i: int,
    reply: Reply,
) -> bool {
    let requests = before.requests;
    let last = requests.len() - 1;
    &&& after.requests.len() == last
    &&& forall|j: int|
        0 <= j < last ==> #[trigger] after.requests[j] == if j == i {
            requests[last]
        } else {
            requests[j]
        }
    &&& after.answers.len() == before.answers.len() + 1
    &&& after.answers.drop_last() == before.answers
    &&& after.answers.last() == Answer { to: requests[i].result, reply }
    &&& after.updates == before.updates
}

proof fn lemma_one_message<R>(state: Progress<R>, message: Received)
    ensures
        processed(state, seq![message]) == match fault_of(state.requests, message) {
            Some(fault) => (state, Some(fault)),
            None => (processed_one(state, message), None::<Fault>),
        },
{
    assert(seq![message].skip(1) =~= Seq::<Received>::empty());
    reveal_with_fuel(processed, 2);
}

proof fn lemma_finds_first_sent<R>(requests: Seq<Request<R>>, i: int, id: MsgId)
    requires
        sent_first_as(requests, i, id),
    ensures
        find(requests, id) == Some(i),
        answer_fault(requests, id) is None,
{
    lemma_find(requests, id);
    assert(requests[i].state is Sent);
    if let Some(k) = find(requests, id) {
        if k < i {
            assert(requests[k].state is Serialized || requests[k].state is Sent);
        }
    }
}

proof fn lemma_is_answering<R>(state: Progress<R>, i: int, id: MsgId, reply: Reply)
    requires
        sent_first_as(state.requests, i, id),
    ensures
        is_answering(state, replied(state, id, reply), i, reply),
{
    lemma_finds_first_sent(state.requests, i, id);
    let after = replied(state, id, reply);
    assert(after.answers.drop_last() =~= state.answers);
}

/// The result of a request that was sent reaches whoever waits for it, as it came, and the request
/// waits no longer.
pub proof fn law_result_reaches_its_request<R>(
    state: Progress<R>,
    i: int,
    msg_id: MsgId,
    body: Vec<u8>,
)
    requires
        sent_first_as(state.requests, i, msg_id),
        body@.len() >= 4,
    ensures
        ({
            let (after, fault) = processed(state, seq![Received::RpcResult { msg_id, body }]);
            fault is None && is_answering(state, after, i, Reply::Body(body))
        }),
{
    lemma_one_message(state, Received::RpcResult { msg_id, body });
    lemma_finds_first_sent(state.requests, i, msg_id);
    lemma_is_answering(state, i, msg_id, Reply::Body(body));
}

/// The server's error for a request that was sent reaches whoever waits for the result, with its
/// code, its text and what was called, and the request waits no longer.
pub proof fn law_error_reaches_its_request<R>(
    state: Progress<R>,
    i: int,
    msg_id: MsgId,
    code: i32,
    message: String,
)
    requires
        sent_first_as(state.requests, i, msg_id),
        state.requests[i].body@.len() >= 4,
    ensures
        ({
            let error = Received::RpcError { msg_id, code, message };
            let (after, fault) = processed(state, seq![error]);
            let body = state.requests[i].body@;
            let caused_by = (body[0] + 0x100 * body[1] + 0x1_0000 * body[2] + 0x100_0000
                * body[3]) as u32;
            &&& fault is None
            &&& is_answering(state, after, i, Reply::Rpc { code, message, caused_by })
        }),
{
    let error = Received::RpcError { msg_id, code, message };
    let body = state.requests[i].body@;
    let start = body.take(4);
    lemma_one_message(state, error);
    lemma_finds_first_sent(state.requests, i, msg_id);
    reveal_with_fuel(le_nat, 5);
    assert(start.skip(1).skip(1) =~= start.skip(2));
    assert(start.skip(2).skip(1) =~= start.skip(3));
    let caused_by = called(state.requests, msg_id);
    lemma_is_answering(state, i, msg_id, Reply::Rpc { code, message, caused_by });
}

/// That the answer to a request that was sent cannot be read reaches whoever waits for it, with
/// the reason, and the request waits no longer.
pub proof fn law_failure_reaches_its_request<R>(
    state: Progress<R>,
    i: int,
    msg_id: MsgId,
    error: DeserializeError,
)
    requires
        sent_first_as(state.requests, i, msg_id),
    ensures
        ({
            let (after, fault) = processed(state, seq![Received::Failure { msg_id, error }]);
            fault is None && is_answering(state, after, i, Reply::Undecodable(error))
        }),
{
    lemma_one_message(state, Received::Failure { msg_id, error });
    lemma_finds_first_sent(state.requests, i, msg_id);
    lemma_is_answering(state, i, msg_id, Reply::Undecodable(error));
}

/// An answer to something that nobody asked changes nothing.
pub proof fn law_strange_answers_are_ignored<R>(
    state: Progress<R>,
    msg_id: MsgId,
    body: Vec<u8>,
    code: i32,
    message: String,
    error: DeserializeError,
)
    requires
        unknown(state.requests, msg_id),
    ensures
        processed(state, seq![Received::RpcResult { msg_id, body }]) == (state, None::<Fault>),
        processed(state, seq![Received::RpcError { msg_id, code, message }]) == (
            state,
            None::<Fault>,
        ),
        processed(state, seq![Received::Failure { msg_id, error }]) == (state, None::<Fault>),
{
    lemma_one_message(state, Received::RpcResult { msg_id, body });
    lemma_one_message(state, Received::RpcError { msg_id, code, message });
    lemma_one_message(state, Received::Failure { msg_id, error });
    lemma_find(state.requests, msg_id);
    if let Some(k) = find(state.requests, msg_id) {
        assert(!(state.requests[k].state is NotSerialized));
    }
}

/// An answer to a request that is in the buffer but was not sent is a fault, as is a result that is
/// too short, and nothing comes of either.
pub proof fn law_impossible_answers_are_faults<R>(
    state: Progress<R>,
    i: int,
    msg_id: MsgId,
    pair: MsgIdPair,
    body: Vec<u8>,
    code: i32,
    message: String,
    error: DeserializeError,
)
    ensures
        0 <= i < state.requests.len() && unknown(state.requests.take(i), msg_id)
            && state.requests[i].state == RequestState::Serialized(pair) && pair.msg_id == msg_id
            ==> {
            let faulted = (state, Some(Fault::UnsentAnswered { msg_id, pair }));
            &&& processed(state, seq![Received::RpcResult { msg_id, body }]) == faulted
            &&& processed(state, seq![Received::RpcError { msg_id, code, message }]) == faulted
            &&& processed(state, seq![Received::Failure { msg_id, error }]) == faulted
        },
        sent_first_as(state.requests, i, msg_id) && body@.len() < 4 ==> processed(
            state,
            seq![Received::RpcResult { msg_id, body }],
        ) == (state, Some(Fault::ShortResult)),
{
    lemma_one_message(state, Received::RpcResult { msg_id, body });
    lemma_one_message(state, Received::RpcError { msg_id, code, message });
    lemma_one_message(state, Received::Failure { msg_id, error });
    if sent_first_as(state.requests, i, msg_id) {
        lemma_finds_first_sent(state.requests, i, msg_id);
    }
    if 0 <= i < state.requests.len() && unknown(state.requests.take(i), msg_id)
        && state.requests[i].state == RequestState::Serialized(pair) && pair.msg_id == msg_id {
        let before = state.requests.take(i);
        lemma_find(state.requests, msg_id);
        assert(state.requests[i].state is Serialized);
        if let Some(k) = find(state.requests, msg_id) {
            if k < i {
                assert(before[k] == state.requests[k]);
                assert(!(before[k].state is NotSerialized));
            }
        }
        assert(find(state.requests, msg_id) == Some(i));
    }
}

/// Whether a request is known to the server as `id`, or went there in the container `id`.
pub open spec fn sent_under<R>(request: Request<R>, id: MsgId) -> bool {
    match request.state {
        RequestState::Sent(pair) => pair.msg_id == id || pair.container_msg_id == id,
        _ => false,
    }
}

/// Whether no request that is in the buffer but was not sent goes by `id` or is in the container
/// `id`.
pub open spec fn none_half_sent_under<R>(requests: Seq<Request<R>>, id: MsgId) -> bool {
    forall|j: int|
        0 <= j < requests.len() ==> match (#[trigger] requests[j]).state {
            RequestState::Serialized(pair) => pair.msg_id != id && pair.container_msg_id != id,
            _ => true,
        }
}

/// A message or a container that the server did not accept for its identifier or its salt is sent
/// again: exactly the requests that went under that identifier wait to be sent once more, each in
/// its place, and nobody is answered.
pub proof fn law_rejected_requests_are_sent_again<R>(state: Progress<R>, msg_id: MsgId, code: i32)
    requires
        none_half_sent_under(state.requests, msg_id),
        code == 16 || code == 17 || code == 48,
    ensures
        ({
            let (after, fault) = processed(state, seq![Received::BadMessage { msg_id, code }]);
            &&& fault is None
            &&& after.requests.len() == state.requests.len()
            &&& forall|i: int|
                0 <= i < state.requests.len() ==> {
                    &&& (#[trigger] after.requests[i]).body == state.requests[i].body
                    &&& after.requests[i].result == state.requests[i].result
                    &&& after.requests[i].state == if sent_under(state.requests[i], msg_id) {
                        RequestState::NotSerialized
                    } else {
                        state.requests[i].state
                    }
                }
            &&& after.answers == state.answers
            &&& after.updates == state.updates
        }),
{
    lemma_one_message(state, Received::BadMessage { msg_id, code });
    assert(!rejects_unsent(state.requests, msg_id));
}

/// A message or a container that the server did not accept for any other reason is given up on:
/// exactly the requests that went under that identifier wait no longer, and each is answered once,
/// as dropped.
pub proof fn law_other_rejected_requests_are_dropped<R>(
    state: Progress<R>,
    msg_id: MsgId,
    code: i32,
)
    requires
        none_half_sent_under(state.requests, msg_id),
        code != 16 && code != 17 && code != 48,
    ensures
        ({
            let (after, fault) = processed(state, seq![Received::BadMessage { msg_id, code }]);
            let new = after.answers.skip(state.answers.len() as int);
            &&& fault is None
            &&& after.requests.to_multiset() == state.requests.to_multiset().filter(
                |request: Request<R>| !sent_under(request, msg_id),
            )
            &&& after.answers.len() >= state.answers.len()
            &&& after.answers.take(state.answers.len() as int) == state.answers
            &&& after.requests.len() + new.len() == state.requests.len()
            &&& forall|j: int| 0 <= j < new.len() ==> (#[trigger] new[j]).reply is Dropped
            &&& everyone(after) == everyone(state)
            &&& after.updates == state.updates
        }),
{
    lemma_one_message(state, Received::BadMessage { msg_id, code });
    assert(!rejects_unsent(state.requests, msg_id));
    law_dropped_are_the_rejected(state.requests, state.answers, msg_id);
    law_messages_conserve_requests(state, seq![Received::BadMessage { msg_id, code }]);
    let all = state.requests.to_multiset();
    assert(all.filter(|request: Request<R>| !sent_under(request, msg_id)) =~= all.filter(
        |request: Request<R>| !rejected(request, msg_id),
    ));
}

/// That the server did not accept something that it was not sent is a fault, and nothing comes of
/// it.
pub proof fn law_impossible_rejections_are_faults<R>(
    state: Progress<R>,
    msg_id: MsgId,
    code: i32,
)
    requires
        !none_half_sent_under(state.requests, msg_id),
    ensures
        processed(state, seq![Received::BadMessage { msg_id, code }]) == (
            state,
            Some(Fault::UnsentRejected { msg_id, code }),
        ),
{
    lemma_one_message(state, Received::BadMessage { msg_id, code });
    let j = choose|j: int|
        0 <= j < state.requests.len() && !match (#[trigger] state.requests[j]).state {
            RequestState::Serialized(pair) => pair.msg_id != msg_id && pair.container_msg_id
                != msg_id,
            _ => true,
        };
    assert(state.requests[j].state is Serialized);
}

/// Messages are processed one after the other: those that follow find what those before them left,
/// and a fault among those before them keeps them from being looked at.
pub proof fn law_messages_follow_each_other<R>(
    state: Progress<R>,
    first: Seq<Received>,
    second: Seq<Received>,
)
    ensures
        processed(state, first).1 is None ==> processed(state, first + second) == processed(
            processed(state, first).0,
            second,
        ),
        processed(state, first).1 is Some ==> processed(state, first + second) == processed(
            state,
            first,
        ),
    decreases first.len(),
{
    if first.len() == 0 {
        assert(first + second =~= second);
    } else {
        assert((first + second).skip(1) =~= first.skip(1) + second);
        assert((first + second)[0] == first[0]);
        if fault_of(state.requests, first[0]) is None {
            law_messages_follow_each_other(
                processed_one(state, first[0]),
                first.skip(1),
                second,
            );
        }
    }
}

/// The updates among `messages` that can be read, in order.
pub open spec fn readable_updates(messages: Seq<Received>) -> Seq<Updates>
    decreases messages.len(),
{
    if messages.len() == 0 {
        Seq::empty()
    } else {
        let before = readable_updates(messages.drop_last());
        match messages.last() {
            Received::Update(bytes) => match update_of(bytes@) {
                Some(update) => before.push(update),
                None => before,
            },
            _ => before,
        }
    }
}

/// Every update that can be read is returned, in order and after the earlier ones, and nothing else
/// is.
pub proof fn law_all_updates_are_returned<R>(state: Progress<R>, messages: Seq<Received>)
    ensures
        processed(state, messages).1 is None ==> processed(state, messages).0.updates
            == state.updates + readable_updates(messages),
    decreases messages.len(),
{
    if messages.len() == 0 {
        assert(state.updates + Seq::<Updates>::empty() =~= state.updates);
    } else {
        let front = messages.drop_last();
        let last = messages.last();
        assert(front + seq![last] =~= messages);
        law_messages_follow_each_other(state, front, seq![last]);
        law_all_updates_are_returned(state, front);
        let before = processed(state, front).0;
        lemma_one_message(before, last);
        if processed(state, messages).1 is None {
            assert(processed(state, messages).0.updates =~= state.updates + readable_updates(
                messages,
            ));
        }
    }
}

/// An update answers nobody and leaves every request as it is, and is never a fault.
pub proof fn law_updates_answer_nobody<R>(state: Progress<R>, bytes: Vec<u8>)
    ensures
        ({
            let (after, fault) = processed(state, seq![Received::Update(bytes)]);
            &&& fault is None
            &&& after.requests == state.requests
            &&& after.answers == state.answers
        }),
{
    lemma_one_message(state, Received::Update(bytes));
}

} // verus!
