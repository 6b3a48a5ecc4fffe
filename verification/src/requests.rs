//! Requests that wait to be sent or answered, and what they are answered with.

use grammers_mtproto::mtp::DeserializeError;
use grammers_mtproto::MsgId;
use vstd::prelude::*;

verus! {

/// `grammers_mtproto::MsgId`: what a message is identified by.
#[verifier::external_type_specification]
#[verifier::external_body]
pub struct ExMsgId(grammers_mtproto::MsgId);

/// `grammers_mtproto::mtp::DeserializeError`: why a message could not be read.
#[verifier::external_type_specification]
#[verifier::external_body]
pub struct ExDeserializeError(grammers_mtproto::mtp::DeserializeError);

/// `==` on `grammers_mtproto::MsgId`, which holds one number and is compared by it.
#[verifier::external_body]
pub(crate) fn same_id(a: MsgId, b: MsgId) -> (same: bool)
    ensures
        same == (a == b),
{
    a == b
}

/// What a serialized request is identified by.
#[derive(Clone, Copy, Debug)]
pub struct MsgIdPair {
    pub msg_id: MsgId,
    /// The container that the request went into; its own identifier where there is none.
    pub container_msg_id: MsgId,
}

impl MsgIdPair {
    /// The identifiers of a request that is in no container.
    pub fn new(msg_id: MsgId) -> (pair: Self)
        ensures
            pair == (MsgIdPair { msg_id, container_msg_id: msg_id }),
    {
        MsgIdPair { msg_id, container_msg_id: msg_id }
    }
}

/// How far a request has come.
#[derive(Clone, Copy, Debug)]
pub enum RequestState {
    /// It waits to be written into the buffer.
    NotSerialized,
    /// It is in the buffer, of which not all was sent yet.
    Serialized(MsgIdPair),
    /// It was sent and waits for its answer.
    Sent(MsgIdPair),
}

/// A request; `result` is where its answer goes.
pub struct Request<R> {
    pub body: Vec<u8>,
    pub state: RequestState,
    pub result: R,
}

impl<R> Request<R> {
    /// Whether the body is long enough to say what is called.
    pub open spec fn wf(self) -> bool {
        self.body@.len() >= 4
    }

    /// A request that nothing was done with yet.
    pub fn new(body: Vec<u8>, result: R) -> (request: Self)
        requires
            body@.len() >= 4,
        ensures
            request.wf(),
            request == (Request { body, state: RequestState::NotSerialized, result }),
    {
        Request { body, state: RequestState::NotSerialized, result }
    }
}

/// Whether every one of the requests says what is called.
pub open spec fn requests_wf<R>(requests: Seq<Request<R>>) -> bool {
    forall|i: int| 0 <= i < requests.len() ==> (#[trigger] requests[i]).wf()
}

/// What a request is answered with.
pub enum Reply {
    /// The result of the call.
    Body(Vec<u8>),
    /// The error that the server reported for the call, and the identifier of what was called.
    Rpc { code: i32, message: String, caused_by: u32 },
    /// The server's answer could not be read.
    Undecodable(DeserializeError),
    /// The request will not be answered.
    Dropped,
}

/// An answer and where it goes.
pub struct Answer<R> {
    pub to: R,
    pub reply: Reply,
}

/// Whether a request in this state is known to the server as `id`, or will be.
pub open spec fn concerns(state: RequestState, id: MsgId) -> bool {
    match state {
        RequestState::NotSerialized => false,
        RequestState::Serialized(pair) => pair.msg_id == id,
        RequestState::Sent(pair) => pair.msg_id == id,
    }
}

/// Where the first request is that `id` concerns.
pub open spec fn find<R>(requests: Seq<Request<R>>, id: MsgId) -> Option<int>
    decreases requests.len(),
{
    if requests.len() == 0 {
        None
    } else {
        match find(requests.drop_last(), id) {
            Some(i) => Some(i),
            None => if concerns(requests.last().state, id) {
                Some(requests.len() - 1)
            } else {
                None
            },
        }
    }
}

/// The request that `id` concerns was not sent, so that nothing can be an answer to it.
pub open spec fn unsent<R>(requests: Seq<Request<R>>, id: MsgId) -> bool {
    find(requests, id) is Some && requests[find(requests, id)->Some_0].state is Serialized
}

pub proof fn lemma_find<R>(requests: Seq<Request<R>>, id: MsgId)
    ensures
        match find(requests, id) {
            Some(i) => {
                &&& 0 <= i < requests.len()
                &&& concerns(requests[i].state, id)
                &&& forall|j: int| 0 <= j < i ==> !concerns((#[trigger] requests[j]).state, id)
            },
            None => forall|j: int|
                0 <= j < requests.len() ==> !concerns((#[trigger] requests[j]).state, id),
        },
    decreases requests.len(),
{
    if requests.len() > 0 {
        let front = requests.drop_last();
        lemma_find(front, id);
        assert forall|j: int| 0 <= j < front.len() implies front[j] == requests[j] by {}
        match find(front, id) {
            Some(i) => {
                assert forall|j: int| 0 <= j < i implies !concerns(
                    (#[trigger] requests[j]).state,
                    id,
                ) by {
                    assert(front[j] == requests[j]);
                }
            },
            None => {
                assert forall|j: int| 0 <= j < requests.len() - 1 implies !concerns(
                    (#[trigger] requests[j]).state,
                    id,
                ) by {
                    assert(front[j] == requests[j]);
                }
            },
        }
    }
}

/// Where the first request is that `id` concerns.
pub fn find_request<R>(requests: &Vec<Request<R>>, id: MsgId) -> (found: Option<usize>)
    ensures
        match find(requests@, id) {
            Some(i) => found is Some && found->Some_0 == i,
            None => found is None,
        },
        found is Some ==> found->Some_0 < requests@.len(),
{
    proof {
        lemma_find(requests@, id);
    }
    let mut i: usize = 0;
    while i < requests.len()
        invariant
            i <= requests@.len(),
            match find(requests@, id) {
                Some(k) => i <= k < requests@.len() && concerns(requests@[k].state, id),
                None => true,
            },
            find(requests@, id) is None ==> forall|j: int|
                0 <= j < requests@.len() ==> !concerns((#[trigger] requests@[j]).state, id),
            find(requests@, id) is Some ==> forall|j: int|
                0 <= j < find(requests@, id)->Some_0 ==> !concerns(
                    (#[trigger] requests@[j]).state,
                    id,
                ),
        decreases requests@.len() - i,
    {
        let concerned: bool = match requests[i].state {
            RequestState::NotSerialized => false,
            RequestState::Serialized(pair) => same_id(pair.msg_id, id),
            RequestState::Sent(pair) => same_id(pair.msg_id, id),
        };
        assert(concerned == concerns(requests@[i as int].state, id));
        if concerned {
            return Some(i);
        }
        i += 1;
    }
    None
}

/// The sequence after its last element took the place of element `i`.
pub open spec fn swap_removed<A>(s: Seq<A>, i: int) -> Seq<A> {
    s.update(i, s.last()).drop_last()
}

/// Whether a bad message with `id` is about a request with these identifiers.
pub open spec fn hits(pair: MsgIdPair, id: MsgId) -> bool {
    pair.msg_id == id || pair.container_msg_id == id
}

/// Whether a bad message with `id` is about this request, which was sent.
pub open spec fn rejected<R>(request: Request<R>, id: MsgId) -> bool {
    match request.state {
        RequestState::Sent(pair) => hits(pair, id),
        _ => false,
    }
}

/// Whether a bad message with `id` is about a request that was not sent.
pub open spec fn rejects_unsent<R>(requests: Seq<Request<R>>, id: MsgId) -> bool {
    exists|i: int|
        0 <= i < requests.len() && match (#[trigger] requests[i]).state {
            RequestState::Serialized(pair) => hits(pair, id),
            _ => false,
        }
}

/// The requests with those that the bad message `id` is about waiting to be sent again.
pub open spec fn retried<R>(requests: Seq<Request<R>>, id: MsgId) -> Seq<Request<R>> {
    Seq::new(
        requests.len(),
        |i: int|
            if rejected(requests[i], id) {
                Request { state: RequestState::NotSerialized, ..requests[i] }
            } else {
                requests[i]
            },
    )
}

/// The requests without those below `i` that the bad message `id` is about, from the last of them
/// to the first, and their answers.
pub open spec fn dropped<R>(
    requests: Seq<Request<R>>,
    answers: Seq<Answer<R>>,
    id: MsgId,
    i: nat,
) -> (Seq<Request<R>>, Seq<Answer<R>>)
    decreases i,
{
    if i == 0 {
        (requests, answers)
    } else {
        let k = (i - 1) as nat;
        let request = requests[k as int];
        if rejected(request, id) {
            dropped(
                swap_removed(requests, k as int),
                answers.push(Answer { to: request.result, reply: Reply::Dropped }),
                id,
                k,
            )
        } else {
            dropped(requests, answers, id, k)
        }
    }
}

/// Where the answers to these requests go, in order.
pub open spec fn results_of<R>(requests: Seq<Request<R>>) -> Seq<R> {
    Seq::new(requests.len(), |i: int| requests[i].result)
}

/// Where these answers go, in order.
pub open spec fn answered<R>(answers: Seq<Answer<R>>) -> Seq<R> {
    Seq::new(answers.len(), |i: int| answers[i].to)
}

pub proof fn lemma_swap_removed<A>(s: Seq<A>, i: int)
    requires
        0 <= i < s.len(),
    ensures
        swap_removed(s, i).to_multiset() == s.to_multiset().remove(s[i]),
        s.to_multiset().contains(s[i]),
{
    broadcast use vstd::seq_lib::group_to_multiset_ensures;

    let moved = s.update(i, s.last());
    let rest = swap_removed(s, i);
    assert(moved =~= rest.push(s.last()));
    let last = s.last();
    assert(s.to_multiset().contains(s[i])) by {
        assert(s.contains(s[i]));
    }
    if i == s.len() - 1 {
        assert(s =~= s.drop_last().push(last));
        assert(rest =~= s.drop_last());
        assert(rest.to_multiset() =~= s.to_multiset().remove(last));
    } else {
        assert(moved.to_multiset() =~= s.to_multiset().insert(last).remove(s[i]));
        assert(moved.to_multiset() =~= rest.to_multiset().insert(last));
        assert forall|a: A| #[trigger] rest.to_multiset().count(a) == s.to_multiset().remove(
            s[i],
        ).count(a) by {
            assert(moved.to_multiset().count(a) == rest.to_multiset().insert(last).count(a));
            assert(moved.to_multiset().count(a) == s.to_multiset().insert(last).remove(
                s[i],
            ).count(a));
        }
        assert(rest.to_multiset() =~= s.to_multiset().remove(s[i]));
    }
}

proof fn lemma_dropped<R>(
    requests: Seq<Request<R>>,
    answers: Seq<Answer<R>>,
    id: MsgId,
    i: nat,
)
    requires
        i <= requests.len(),
        forall|j: int| i <= j < requests.len() ==> !rejected(#[trigger] requests[j], id),
    ensures
        ({
            let (kept, all) = dropped(requests, answers, id, i);
            let new = all.skip(answers.len() as int);
            &&& kept.to_multiset() == requests.to_multiset().filter(
                |request: Request<R>| !rejected(request, id),
            )
            &&& all.len() >= answers.len()
            &&& all.take(answers.len() as int) == answers
            &&& forall|j: int| 0 <= j < new.len() ==> (#[trigger] new[j]).reply is Dropped
            &&& kept.len() + new.len() == requests.len()
        }),
    decreases i,
{
    broadcast use vstd::seq_lib::group_to_multiset_ensures;

    let keep = |request: Request<R>| !rejected(request, id);
    if i == 0 {
        assert(requests.to_multiset().filter(keep) =~= requests.to_multiset()) by {
            assert forall|request: Request<R>| #[trigger]
                requests.to_multiset().count(request) > 0 implies keep(request) by {
                assert(requests.contains(request));
            }
        }
        assert(answers.take(answers.len() as int) =~= answers);
    } else {
        let k = (i - 1) as nat;
        let request = requests[k as int];
        if rejected(request, id) {
            let rest = swap_removed(requests, k as int);
            let more = answers.push(Answer { to: request.result, reply: Reply::Dropped });
            assert forall|j: int| k <= j < rest.len() implies !rejected(#[trigger] rest[j], id) by {
                if j == k {
                    assert(rest[j] == requests[requests.len() - 1]);
                } else {
                    assert(rest[j] == requests[j]);
                }
            }
            lemma_dropped(rest, more, id, k);
            lemma_swap_removed(requests, k as int);
            assert(requests.to_multiset().remove(request).filter(keep)
                =~= requests.to_multiset().filter(keep));
            let (kept, all) = dropped(rest, more, id, k);
            assert(all.take(answers.len() as int) =~= all.take(more.len() as int).take(
                answers.len() as int,
            ));
            assert(more.take(answers.len() as int) =~= answers);
            let new = all.skip(answers.len() as int);
            let later = all.skip(more.len() as int);
            assert forall|j: int| 0 <= j < new.len() implies (#[trigger] new[j]).reply is Dropped by {
                if j == 0 {
                    assert(new[0] == all.take(more.len() as int)[answers.len() as int]);
                } else {
                    assert(new[j] == later[j - 1]);
                }
            }
        } else {
            lemma_dropped(requests, answers, id, k);
        }
    }
}

/// A bad message that cannot be retried drops exactly the requests it is about: all others stay,
/// though not in the same order, and each dropped one is answered once, as dropped.
pub proof fn law_dropped_are_the_rejected<R>(
    requests: Seq<Request<R>>,
    answers: Seq<Answer<R>>,
    id: MsgId,
)
    ensures
        ({
            let (kept, all) = dropped(requests, answers, id, requests.len());
            let new = all.skip(answers.len() as int);
            &&& kept.to_multiset() == requests.to_multiset().filter(
                |request: Request<R>| !rejected(request, id),
            )
            &&& all.len() >= answers.len()
            &&& all.take(answers.len() as int) == answers
            &&& forall|j: int| 0 <= j < new.len() ==> (#[trigger] new[j]).reply is Dropped
            &&& kept.len() + new.len() == requests.len()
        }),
{
    lemma_dropped(requests, answers, id, requests.len());
}

pub proof fn lemma_dropping_conserves<R>(
    requests: Seq<Request<R>>,
    answers: Seq<Answer<R>>,
    id: MsgId,
    i: nat,
)
    requires
        i <= requests.len(),
    ensures
        ({
            let (kept, all) = dropped(requests, answers, id, i);
            results_of(kept).to_multiset().add(answered(all).to_multiset()) == results_of(
                requests,
            ).to_multiset().add(answered(answers).to_multiset())
        }),
    decreases i,
{
    if i > 0 {
        let k = (i - 1) as nat;
        let request = requests[k as int];
        if rejected(request, id) {
            let answer = Answer { to: request.result, reply: Reply::Dropped };
            lemma_answering_conserves(requests, answers, k as int, answer);
            lemma_dropping_conserves(
                swap_removed(requests, k as int),
                answers.push(answer),
                id,
                k,
            );
        } else {
            lemma_dropping_conserves(requests, answers, id, k);
        }
    }
}

pub proof fn lemma_answering_conserves<R>(
    requests: Seq<Request<R>>,
    answers: Seq<Answer<R>>,
    i: int,
    answer: Answer<R>,
)
    requires
        0 <= i < requests.len(),
        answer.to == requests[i].result,
    ensures
        results_of(swap_removed(requests, i)).to_multiset().add(
            answered(answers.push(answer)).to_multiset(),
        ) == results_of(requests).to_multiset().add(answered(answers).to_multiset()),
{
    broadcast use vstd::seq_lib::group_to_multiset_ensures;

    let results = results_of(requests);
    lemma_swap_removed(results, i);
    assert(results_of(swap_removed(requests, i)) =~= swap_removed(results, i));
    assert(answered(answers.push(answer)) =~= answered(answers).push(answer.to));
    assert(results.to_multiset().remove(answer.to).add(
        answered(answers).to_multiset().insert(answer.to),
    ) =~= results.to_multiset().add(answered(answers).to_multiset()));
}

/// The answers to those of the first `i` requests that went to the server as `id` or in the
/// container `id`, from the last of them to the first.
pub open spec fn drop_answers<R>(requests: Seq<Request<R>>, id: MsgId, i: nat) -> Seq<Answer<R>>
    decreases i,
{
    if i == 0 {
        Seq::empty()
    } else {
        let request = requests[i - 1];
        let rest = drop_answers(requests, id, (i - 1) as nat);
        match request.state {
            RequestState::Sent(pair) => if pair.msg_id == id || pair.container_msg_id == id {
                seq![Answer { to: request.result, reply: Reply::Dropped }] + rest
            } else {
                rest
            },
            _ => rest,
        }
    }
}

/// Requests that are dropped are answered in turn, from the last to the first, after all earlier
/// answers.
pub proof fn law_dropped_are_answered_in_turn<R>(
    requests: Seq<Request<R>>,
    answers: Seq<Answer<R>>,
    id: MsgId,
)
    ensures
        dropped(requests, answers, id, requests.len()).1 == answers + drop_answers(
            requests,
            id,
            requests.len(),
        ),
{
    lemma_answered_in_turn(requests, requests, answers, id, requests.len());
}

proof fn lemma_answered_in_turn<R>(
    all: Seq<Request<R>>,
    requests: Seq<Request<R>>,
    answers: Seq<Answer<R>>,
    id: MsgId,
    i: nat,
)
    requires
        i <= requests.len(),
        i <= all.len(),
        forall|j: int| 0 <= j < i ==> #[trigger] requests[j] == all[j],
    ensures
        dropped(requests, answers, id, i).1 == answers + drop_answers(all, id, i),
    decreases i,
{
    if i == 0 {
        assert(answers + Seq::<Answer<R>>::empty() =~= answers);
    } else {
        let k = (i - 1) as nat;
        let request = requests[k as int];
        assert(request == all[k as int]);
        if rejected(request, id) {
            let answer = Answer { to: request.result, reply: Reply::Dropped };
            let rest = swap_removed(requests, k as int);
            assert forall|j: int| 0 <= j < k implies #[trigger] rest[j] == all[j] by {
                assert(rest[j] == requests[j]);
            }
            lemma_answered_in_turn(all, rest, answers.push(answer), id, k);
            let later = drop_answers(all, id, k);
            assert(answers.push(answer) + later =~= answers + (seq![answer] + later));
        } else {
            lemma_answered_in_turn(all, requests, answers, id, k);
        }
    }
}

/// Where the answers to requests go is asked of each request in turn, and none is left out.
pub proof fn law_results_are_in_order<R>(requests: Seq<Request<R>>, i: int)
    requires
        0 <= i < requests.len(),
    ensures
        results_of(requests).len() == requests.len(),
        results_of(requests)[i] == requests[i].result,
{
}

} // verus!
