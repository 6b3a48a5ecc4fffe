//! What a sender does with its requests: what is sent when, and what is an answer to what.

use bytes::BytesMut;
use grammers_crypto::DequeBuffer;
use grammers_mtproto::mtp::DeserializeError;
use grammers_mtproto::MsgId;
use grammers_tl_types::enums::Updates;
use vstd::prelude::*;
use vstd::slice::slice_subrange;

use crate::buffers::{
    asked_room, clear_queued, clear_received, extend_received, new_queued, new_received, queued,
    queued_bytes, queued_len, received, received_bytes, received_capacity, received_len,
    take_received,
};
use crate::flow::{
    contained, filled, filling, law_every_message_is_processed, law_how_reading_ends, messages_in,
    packets_len, reading, sent, serialized, threaded, unserialized, ReadEnd, SenderError, Stop,
};
use crate::octets::{
    law_numbers_are_read_back, le_bytes, le_nat, numbers_of, read_le_u32, twos_complement_32,
    twos_complement_64,
};
use crate::progress::{
    answer_fault, called, fault_of, is_retryable, law_all_updates_are_returned,
    lemma_processed_one_wf, processed, processed_one, readable_updates, replied, Fault, Progress,
};
use crate::protocol::{Call, Protocol, Received, Recorded, Unpacked};
use crate::requests::{
    dropped, find, find_request, hits, lemma_find, rejected, rejects_unsent, requests_wf,
    results_of, retried, same_id, swap_removed, unsent, Answer, MsgIdPair, Reply, Request,
    RequestState,
};
use crate::updates::{ping_body, ping_request, read_update, update_of, PING_DELAY_DISCONNECT};

verus! {

/// The most bytes that are kept of what was received and not taken apart yet.
pub const MAXIMUM_DATA: usize = (1024 * 1024) + (8 * 1024);

/// The room that is kept in front of what is sent, for the headers of the layers below.
pub const LEADING_BUFFER_SPACE: usize = (4 + 4) + (8 + 16) + (8 + 8) + ((8 + 4 + 4) + (4 + 4));

/// How long after the last ping the next one is due, in nanoseconds.
pub const PING_DELAY: u64 = 60_000_000_000;

/// How long the server waits after a ping before it closes the connection, in seconds.
pub const NO_PING_DISCONNECT: i32 = 75;

/// The room that a new buffer for what is received starts with.
pub const READ_INITIAL_CAPACITY: usize = 16 * 1024;

/// An empty buffer for what is received is given up when it has grown beyond this.
pub const READ_SHRINK_THRESHOLD: usize = 256 * 1024;

/// The room that a new buffer for what is sent starts with.
pub const WRITE_INITIAL_BACK_CAPACITY: usize = 64 * 1024;

/// The buffer for what is sent is given up after sending more than this.
pub const WRITE_SHRINK_ON_SEND_OVER: usize = 256 * 1024;

/// `grammers_mtproto::mtp::BadMessage::retryable`: the codes for an identifier that is too low or
/// too high, and for a wrong salt.
#[verifier::external_body]
fn retryable(msg_id: MsgId, code: i32) -> (retry: bool)
    ensures
        retry == is_retryable(code),
{
    grammers_mtproto::mtp::BadMessage { msg_id, code }.retryable()
}

/// The requests that wait, and the buffers on both sides.
pub struct Sender<R> {
    pub requests: Vec<Request<R>>,
    /// When the next ping is due, in nanoseconds on the caller's clock.
    pub next_ping: u64,
    pub read_buf: BytesMut,
    pub write_buffer: DequeBuffer<u8>,
    /// How much of `write_buffer` was sent.
    pub write_head: usize,
}

/// How many more bytes may be received into a buffer that holds `len`; none if it is full.
pub open spec fn room_beside(len: nat) -> Option<nat> {
    if len < MAXIMUM_DATA {
        Some((MAXIMUM_DATA - len) as nat)
    } else {
        None
    }
}

/// Whether `n` more bytes may be received into a buffer that holds `len`. Not even none may be
/// where it is full.
pub open spec fn fits_beside(len: nat, n: nat) -> bool {
    match room_beside(len) {
        Some(room) => n <= room,
        None => false,
    }
}

/// Whether taking `bytes` apart, of which the last `n` are new, takes the sender from `before` to
/// `after`, with `calls` the uses of the protocol that it takes, and ends in `read`.
pub open spec fn has_read<R>(
    before: Sender<R>,
    after: Sender<R>,
    bytes: Seq<u8>,
    n: nat,
    answers_before: Seq<Answer<R>>,
    answers_after: Seq<Answer<R>>,
    calls: Seq<Call>,
    read: Result<Vec<Updates>, Stop>,
) -> bool {
    let start = Progress {
        requests: before.requests@,
        answers: answers_before,
        updates: Seq::empty(),
    };
    &&& after.next_ping == before.next_ping
    &&& after.write_buffer == before.write_buffer
    &&& after.write_head == before.write_head
    &&& if n == 0 {
        &&& read is Err
        &&& read->Err_0 == Stop::Failed(SenderError::NothingRead)
        &&& after.requests@ == before.requests@
        &&& received(after.read_buf) == bytes
        &&& answers_after == answers_before
        &&& calls.len() == 0
    } else {
        match reading(start, bytes, 0, u64::MAX as nat, calls) {
            None => false,
            Some(end) => {
                &&& after.requests@ == end.progress.requests
                &&& answers_after == end.progress.answers
                &&& match end.stop {
                    None => {
                        &&& read is Ok
                        &&& read->Ok_0@ == end.progress.updates
                        &&& received(after.read_buf) == bytes.skip(end.consumed as int)
                    },
                    Some(stop) => {
                        &&& read is Err
                        &&& read->Err_0 == stop
                        &&& received(after.read_buf) == bytes
                    },
                }
            },
        }
    }
}

/// Whether sending `n` more bytes takes the sender from `before` to `after`. Once a lot was sent,
/// the buffer is a new one.
pub open spec fn has_written<R>(before: Sender<R>, after: Sender<R>, n: usize) -> bool {
    if before.write_head + n < queued(before.write_buffer).len() {
        after == Sender { write_head: (before.write_head + n) as usize, ..before }
    } else {
        &&& after.requests@ == sent(before.requests@)
        &&& queued(after.write_buffer).len() == 0
        &&& after.write_head == 0
        &&& after.next_ping == before.next_ping
        &&& after.read_buf == before.read_buf
        &&& queued(before.write_buffer).len() > WRITE_SHRINK_ON_SEND_OVER ==> asked_room(
            after.write_buffer,
        ) == (WRITE_INITIAL_BACK_CAPACITY, LEADING_BUFFER_SPACE)
    }
}

/// Whether a ping takes the sender from `before` to `after`.
pub open spec fn has_pinged<R>(
    before: Sender<R>,
    after: Sender<R>,
    ping_id: i64,
    now: u64,
    result: R,
) -> bool {
    let ping = after.requests@.last();
    &&& after.requests@.len() == before.requests@.len() + 1
    &&& after.requests@.drop_last() == before.requests@
    &&& ping.body@ == ping_request(ping_id, NO_PING_DISCONNECT)
    &&& ping.state is NotSerialized
    &&& ping.result == result
    &&& after.same_buffers(Sender { next_ping: (now + PING_DELAY) as u64, ..before })
}

/// Whether taking `request` in takes the sender from `before` to `after`: it waits behind all others.
pub open spec fn has_enqueued<R>(before: Sender<R>, after: Sender<R>, request: Request<R>) -> bool {
    after.same_buffers(before) && after.requests@ == before.requests@.push(request)
}

/// Whether giving up on the connection takes the sender from `before` to `after`.
pub open spec fn is_reset<R>(before: Sender<R>, after: Sender<R>) -> bool {
    &&& after.requests@ == before.requests@
    &&& after.next_ping == before.next_ping
    &&& received(after.read_buf).len() == 0
    &&& queued(after.write_buffer).len() == 0
    &&& after.write_head == 0
}

/// Whether settling `error` takes the sender from `before` to `after` and comes to `settled`, if
/// `attempt` is what came of connecting again, where that was tried.
pub open spec fn is_settled<R, E>(
    before: Sender<R>,
    after: Sender<R>,
    error: E,
    attempt: Option<Result<(), E>>,
    settled: Result<(), (E, Vec<R>)>,
) -> bool {
    &&& after.same_buffers(before)
    &&& match attempt {
        Some(Ok(())) => settled is Ok && after.requests@ == unserialized(before.requests@),
        _ => {
            &&& settled is Err
            &&& after.requests@.len() == 0
            &&& settled->Err_0.1@ == results_of(before.requests@)
            &&& settled->Err_0.0 == match attempt {
                Some(Err(failure)) => failure,
                _ => error,
            }
        },
    }
}

/// What one step waits for.
pub enum NetEvent<R> {
    /// It is time for a ping, whose answer goes to `result`.
    PingDue { ping_id: i64, now: u64, result: R },
    /// There is another request.
    Request(Request<R>),
    /// These bytes were received; none mean that the peer closed the connection.
    Read(Vec<u8>),
    /// So many bytes were sent.
    Written(usize),
}

/// Whether `event` can happen to a sender.
pub open spec fn possible<R>(sender: Sender<R>, event: NetEvent<R>) -> bool {
    match event {
        NetEvent::PingDue { now, .. } => now + PING_DELAY <= u64::MAX,
        NetEvent::Request(request) => request.wf(),
        NetEvent::Read(_) => true,
        NetEvent::Written(n) => sender.write_head + n <= queued(sender.write_buffer).len(),
    }
}

impl<R> Sender<R> {
    /// Whether the requests are well-formed, and no more was sent than there is.
    pub open spec fn wf(self) -> bool {
        &&& requests_wf(self.requests@)
        &&& self.write_head <= queued(self.write_buffer).len()
    }

    /// Whether nothing but the requests differs.
    pub open spec fn same_buffers(self, other: Self) -> bool {
        &&& self.next_ping == other.next_ping
        &&& self.read_buf == other.read_buf
        &&& self.write_buffer == other.write_buffer
        &&& self.write_head == other.write_head
    }

    /// What is in the buffer and was not sent yet.
    pub open spec fn left_to_send(self) -> Seq<u8> {
        queued(self.write_buffer).skip(self.write_head as int)
    }

    /// Takes the request out that `msg_id` concerns.
    pub fn pop_request(&mut self, msg_id: MsgId) -> (request: Option<Request<R>>)
        requires
            !unsent(old(self).requests@, msg_id),
        ensures
            final(self).same_buffers(*old(self)),
            match find(old(self).requests@, msg_id) {
                Some(i) => {
                    &&& request == Some(old(self).requests@[i])
                    &&& final(self).requests@ == swap_removed(old(self).requests@, i)
                },
                None => request is None && final(self).requests@ == old(self).requests@,
            },
    {
        match find_request(&self.requests, msg_id) {
            Some(i) => Some(self.requests.swap_remove(i)),
            None => None,
        }
    }

    /// Hands the result of a request on.
    pub fn process_result(&mut self, msg_id: MsgId, body: Vec<u8>, answers: &mut Vec<Answer<R>>)
        requires
            fault_of(old(self).requests@, Received::RpcResult { msg_id, body }) is None,
        ensures
            final(self).same_buffers(*old(self)),
            ({
                let before = Progress {
                    requests: old(self).requests@,
                    answers: old(answers)@,
                    updates: Seq::empty(),
                };
                let after = replied(before, msg_id, Reply::Body(body));
                final(self).requests@ == after.requests && final(answers)@ == after.answers
            }),
    {
        if let Some(request) = self.pop_request(msg_id) {
            answers.push(Answer { to: request.result, reply: Reply::Body(body) });
        }
    }

    /// Hands the error of a request on.
    pub fn process_error(
        &mut self,
        msg_id: MsgId,
        code: i32,
        message: String,
        answers: &mut Vec<Answer<R>>,
    )
        requires
            requests_wf(old(self).requests@),
            !unsent(old(self).requests@, msg_id),
        ensures
            final(self).same_buffers(*old(self)),
            ({
                let before = Progress {
                    requests: old(self).requests@,
                    answers: old(answers)@,
                    updates: Seq::empty(),
                };
                let caused_by = called(old(self).requests@, msg_id);
                let after = replied(before, msg_id, Reply::Rpc { code, message, caused_by });
                final(self).requests@ == after.requests && final(answers)@ == after.answers
            }),
    {
        proof {
            lemma_find(self.requests@, msg_id);
        }
        if let Some(request) = self.pop_request(msg_id) {
            let caused_by: u32 = read_le_u32(&request.body);
            answers.push(
                Answer { to: request.result, reply: Reply::Rpc { code, message, caused_by } },
            );
        }
    }

    /// Hands on that the answer to a request could not be read.
    pub fn process_deserialize_error(
        &mut self,
        msg_id: MsgId,
        error: DeserializeError,
        answers: &mut Vec<Answer<R>>,
    )
        requires
            !unsent(old(self).requests@, msg_id),
        ensures
            final(self).same_buffers(*old(self)),
            ({
                let before = Progress {
                    requests: old(self).requests@,
                    answers: old(answers)@,
                    updates: Seq::empty(),
                };
                let after = replied(before, msg_id, Reply::Undecodable(error));
                final(self).requests@ == after.requests && final(answers)@ == after.answers
            }),
    {
        if let Some(request) = self.pop_request(msg_id) {
            answers.push(Answer { to: request.result, reply: Reply::Undecodable(error) });
        }
    }

    /// Sends the requests again that a bad message is about, or drops them, as its code says.
    pub fn process_bad_message(&mut self, msg_id: MsgId, code: i32, answers: &mut Vec<Answer<R>>)
        requires
            !rejects_unsent(old(self).requests@, msg_id),
        ensures
            final(self).same_buffers(*old(self)),
            if is_retryable(code) {
                &&& final(self).requests@ == retried(old(self).requests@, msg_id)
                &&& final(answers)@ == old(answers)@
            } else {
                (final(self).requests@, final(answers)@) == dropped(
                    old(self).requests@,
                    old(answers)@,
                    msg_id,
                    old(self).requests@.len(),
                )
            },
    {
        let retry: bool = retryable(msg_id, code);
        let mut i: usize = self.requests.len();
        while i > 0
            invariant
                i <= self.requests@.len(),
                self.same_buffers(*old(self)),
                retry == is_retryable(code),
                retry ==> {
                    &&& self.requests@.len() == old(self).requests@.len()
                    &&& answers@ == old(answers)@
                    &&& forall|j: int|
                        0 <= j < i ==> #[trigger] self.requests@[j] == old(self).requests@[j]
                    &&& forall|j: int|
                        i <= j < self.requests@.len() ==> #[trigger] self.requests@[j] == retried(
                            old(self).requests@,
                            msg_id,
                        )[j]
                },
                !retry ==> dropped(self.requests@, answers@, msg_id, i as nat) == dropped(
                    old(self).requests@,
                    old(answers)@,
                    msg_id,
                    old(self).requests@.len(),
                ),
            decreases i,
        {
            i -= 1;
            let hit: bool = match self.requests[i].state {
                RequestState::Sent(pair) => same_id(pair.msg_id, msg_id) || same_id(
                    pair.container_msg_id,
                    msg_id,
                ),
                _ => false,
            };
            assert(hit == rejected(self.requests@[i as int], msg_id));
            if hit {
                if retry {
                    self.requests[i].state = RequestState::NotSerialized;
                } else {
                    let request = self.requests.swap_remove(i);
                    answers.push(Answer { to: request.result, reply: Reply::Dropped });
                }
            }
        }
        assert(retry ==> self.requests@ =~= retried(old(self).requests@, msg_id));
    }

    fn has_unsent_rejected(&self, msg_id: MsgId) -> (rejects: bool)
        ensures
            rejects == rejects_unsent(self.requests@, msg_id),
    {
        let mut i: usize = 0;
        while i < self.requests.len()
            invariant
                i <= self.requests@.len(),
                forall|j: int|
                    0 <= j < i ==> match (#[trigger] self.requests@[j]).state {
                        RequestState::Serialized(pair) => !hits(pair, msg_id),
                        _ => true,
                    },
            decreases self.requests@.len() - i,
        {
            if let RequestState::Serialized(pair) = self.requests[i].state {
                if same_id(pair.msg_id, msg_id) || same_id(pair.container_msg_id, msg_id) {
                    assert(hits(pair, msg_id));
                    assert(self.requests@[i as int].state == RequestState::Serialized(pair));
                    return true;
                }
            }
            i += 1;
        }
        false
    }

    fn answer_to_unsent(&self, msg_id: MsgId) -> (fault: Option<Fault>)
        ensures
            fault == answer_fault(self.requests@, msg_id),
    {
        match find_request(&self.requests, msg_id) {
            Some(i) => match self.requests[i].state {
                RequestState::Serialized(pair) => Some(Fault::UnsentAnswered { msg_id, pair }),
                _ => None,
            },
            None => None,
        }
    }

    /// Why `message` cannot be processed, if it cannot.
    pub fn fault(&self, message: &Received) -> (fault: Option<Fault>)
        ensures
            fault == fault_of(self.requests@, *message),
    {
        match message {
            Received::Update(_) => None,
            Received::RpcResult { msg_id, body } => match self.answer_to_unsent(*msg_id) {
                Some(fault) => Some(fault),
                None => if body.len() < 4 && find_request(&self.requests, *msg_id).is_some() {
                    Some(Fault::ShortResult)
                } else {
                    None
                },
            },
            Received::RpcError { msg_id, .. } => self.answer_to_unsent(*msg_id),
            Received::BadMessage { msg_id, code } => if self.has_unsent_rejected(*msg_id) {
                Some(Fault::UnsentRejected { msg_id: *msg_id, code: *code })
            } else {
                None
            },
            Received::Failure { msg_id, .. } => self.answer_to_unsent(*msg_id),
        }
    }

    /// Keeps what an update says, if it can be read.
    pub fn process_update(updates: &mut Vec<Updates>, update: Vec<u8>)
        ensures
            final(updates)@ == match update_of(update@) {
                Some(read) => old(updates)@.push(read),
                None => old(updates)@,
            },
    {
        if let Some(update) = read_update(&update) {
            updates.push(update);
        }
    }

    fn process_message(
        &mut self,
        message: Received,
        answers: &mut Vec<Answer<R>>,
        updates: &mut Vec<Updates>,
    )
        requires
            requests_wf(old(self).requests@),
            fault_of(old(self).requests@, message) is None,
        ensures
            final(self).same_buffers(*old(self)),
            requests_wf(final(self).requests@),
            ({
                let before = Progress {
                    requests: old(self).requests@,
                    answers: old(answers)@,
                    updates: old(updates)@,
                };
                processed_one(before, message) == Progress {
                    requests: final(self).requests@,
                    answers: final(answers)@,
                    updates: final(updates)@,
                }
            }),
    {
        proof {
            let before = Progress {
                requests: self.requests@,
                answers: answers@,
                updates: updates@,
            };
            lemma_processed_one_wf(before, message);
        }
        match message {
            Received::Update(update) => Self::process_update(updates, update),
            Received::RpcResult { msg_id, body } => self.process_result(msg_id, body, answers),
            Received::RpcError { msg_id, code, message } => {
                self.process_error(msg_id, code, message, answers)
            },
            Received::BadMessage { msg_id, code } => {
                self.process_bad_message(msg_id, code, answers)
            },
            Received::Failure { msg_id, error } => {
                self.process_deserialize_error(msg_id, error, answers)
            },
        }
    }

    /// Processes the messages one after the other, up to the first that cannot be processed.
    pub fn process_mtp_buffer(
        &mut self,
        messages: Vec<Received>,
        answers: &mut Vec<Answer<R>>,
        updates: &mut Vec<Updates>,
    ) -> (done: Result<(), Fault>)
        requires
            requests_wf(old(self).requests@),
        ensures
            final(self).same_buffers(*old(self)),
            requests_wf(final(self).requests@),
            ({
                let before = Progress {
                    requests: old(self).requests@,
                    answers: old(answers)@,
                    updates: old(updates)@,
                };
                let after = Progress {
                    requests: final(self).requests@,
                    answers: final(answers)@,
                    updates: final(updates)@,
                };
                processed(before, messages@) == (after, done.err())
            }),
    {
        let ghost before = Progress {
            requests: self.requests@,
            answers: answers@,
            updates: updates@,
        };
        assert(messages@.skip(0) =~= messages@);
        for message in it: messages
            invariant
                it.seq() == messages@,
                before == (Progress {
                    requests: old(self).requests@,
                    answers: old(answers)@,
                    updates: old(updates)@,
                }),
                requests_wf(self.requests@),
                self.same_buffers(*old(self)),
                processed(before, messages@) == processed(
                    Progress { requests: self.requests@, answers: answers@, updates: updates@ },
                    messages@.skip(it.index()),
                ),
        {
            let ghost rest = messages@.skip(it.index());
            assert(rest[0] == message);
            assert(rest.skip(1) =~= messages@.skip(it.index() + 1));
            if let Some(fault) = self.fault(&message) {
                return Err(fault);
            }
            self.process_message(message, answers, updates);
        }
        Ok(())
    }

    /// A sender with nothing to do yet.
    pub fn new(now: u64) -> (sender: Self)
        requires
            now + PING_DELAY <= u64::MAX,
        ensures
            sender.wf(),
            sender.requests@.len() == 0,
            sender.next_ping == now + PING_DELAY,
            received(sender.read_buf).len() == 0,
            queued(sender.write_buffer).len() == 0,
            asked_room(sender.write_buffer) == (WRITE_INITIAL_BACK_CAPACITY, LEADING_BUFFER_SPACE),
            sender.write_head == 0,
    {
        Sender {
            requests: Vec::new(),
            next_ping: now + PING_DELAY,
            read_buf: new_received(READ_INITIAL_CAPACITY),
            write_buffer: new_queued(WRITE_INITIAL_BACK_CAPACITY, LEADING_BUFFER_SPACE),
            write_head: 0,
        }
    }

    /// Has the next ping due as if one had been sent now.
    pub fn restart_ping(&mut self, now: u64)
        requires
            now + PING_DELAY <= u64::MAX,
        ensures
            *final(self) == (Sender { next_ping: (now + PING_DELAY) as u64, ..*old(self) }),
    {
        self.next_ping = now + PING_DELAY;
    }

    /// Takes a request in, to be sent later.
    pub fn on_request(&mut self, request: Request<R>)
        ensures
            final(self).same_buffers(*old(self)),
            final(self).requests@ == old(self).requests@.push(request),
            has_enqueued(*old(self), *final(self), request),
    {
        self.requests.push(request);
    }

    /// Takes a request with this body in, to be sent later.
    pub fn enqueue_body(&mut self, body: Vec<u8>, result: R)
        requires
            body@.len() >= 4,
        ensures
            final(self).same_buffers(*old(self)),
            final(self).requests@ == old(self).requests@.push(
                Request { body, state: RequestState::NotSerialized, result },
            ),
            has_enqueued(
                *old(self),
                *final(self),
                Request { body, state: RequestState::NotSerialized, result },
            ),
    {
        self.on_request(Request::new(body, result));
    }

    /// How many more bytes may be received. A full buffer is an error.
    pub fn check_room(&self) -> (room: Result<usize, SenderError>)
        ensures
            match room_beside(received(self.read_buf).len()) {
                Some(n) => room is Ok && room->Ok_0 == n,
                None => room is Err && room->Err_0 is TooMuchData,
            },
    {
        let len: usize = received_len(&self.read_buf);
        if len >= MAXIMUM_DATA {
            Err(SenderError::TooMuchData)
        } else {
            Ok(MAXIMUM_DATA - len)
        }
    }

    /// What is to be sent next, if there is anything to send.
    pub fn write_chunk(&self) -> (chunk: Option<&[u8]>)
        requires
            self.wf(),
        ensures
            match chunk {
                None => queued(self.write_buffer).len() == 0,
                Some(chunk) => queued(self.write_buffer).len() > 0 && chunk@ == queued(
                    self.write_buffer,
                ).skip(self.write_head as int),
            },
            chunk is Some ==> chunk->Some_0@ == self.left_to_send(),
    {
        let all = queued_bytes(&self.write_buffer);
        if all.len() == 0 {
            None
        } else {
            let chunk = slice_subrange(all, self.write_head, all.len());
            assert(chunk@ =~= all@.skip(self.write_head as int));
            Some(chunk)
        }
    }

    /// Fills the buffer with what is to be sent, unless it is still being sent.
    pub fn try_fill_write<P: Protocol>(&mut self, link: &mut Recorded<P>)
        requires
            old(self).wf(),
        ensures
            final(self).wf(),
            final(self).next_ping == old(self).next_ping,
            final(self).read_buf == old(self).read_buf,
            final(self).write_head == old(self).write_head,
            old(link).calls().len() <= final(link).calls().len(),
            final(link).calls().take(old(link).calls().len() as int) == old(link).calls(),
            if queued(old(self).write_buffer).len() > 0 {
                *final(self) == *old(self) && *final(link) == *old(link)
            } else {
                let calls = final(link).calls().skip(old(link).calls().len() as int);
                &&& filled(old(self).requests@, calls) == Some(final(self).requests@)
                &&& threaded(calls, old(self).write_buffer, final(self).write_buffer)
            },
    {
        if queued_len(&self.write_buffer) > 0 {
            assert(link.calls().take(link.calls().len() as int) =~= link.calls());
            return ;
        }
        let ghost start = link.calls();
        let ghost before = self.requests@;
        let ghost nothing = Seq::<Call>::empty();
        let ghost mut done: Seq<Call> = nothing;
        let mut i: usize = 0;
        assert(link.calls() =~= start + done);
        assert forall|more: Seq<Call>| #[trigger]
            filling(before, 0, done + more) == filling(before, 0, more) by {
            assert(done + more =~= more);
        }
        while i < self.requests.len()
            invariant_except_break
                forall|more: Seq<Call>| #[trigger]
                    filling(before, 0, done + more) == filling(self.requests@, i as nat, more),
            invariant
                i <= self.requests@.len(),
                start == old(link).calls(),
                link.calls() == start + done,
                threaded(done, old(self).write_buffer, self.write_buffer),
                requests_wf(self.requests@),
                self.next_ping == old(self).next_ping,
                self.read_buf == old(self).read_buf,
                self.write_head == old(self).write_head,
                self.write_head == 0,
            ensures
                forall|more: Seq<Call>| #[trigger]
                    filling(before, 0, done + more) == Some((self.requests@, more)),
            decreases self.requests@.len() - i,
        {
            let ghost current = self.requests@;
            if let RequestState::NotSerialized = self.requests[i].state {
                let ghost given = self.write_buffer;
                let id = link.push(&mut self.write_buffer, &self.requests[i].body);
                let ghost call = Call::Push {
                    body: current[i as int].body@,
                    id,
                    before: given,
                    after: self.write_buffer,
                };
                let ghost one = seq![call];
                assert(link.calls() =~= start + (done + one));
                assert((done + one).drop_last() =~= done);
                match id {
                    Some(msg_id) => {
                        self.requests[i].state = RequestState::Serialized(MsgIdPair::new(msg_id));
                        assert(self.requests@ =~= current.update(
                            i as int,
                            serialized(current[i as int], msg_id),
                        ));
                        assert forall|more: Seq<Call>| #[trigger]
                            filling(before, 0, (done + one) + more) == filling(
                            self.requests@,
                            (i + 1) as nat,
                            more,
                        ) by {
                            assert((done + one) + more =~= done + (one + more));
                            assert((one + more).skip(1) =~= more);
                            assert((one + more)[0] == call);
                        }
                    },
                    None => {
                        assert forall|more: Seq<Call>| #[trigger]
                            filling(before, 0, (done + one) + more) == Some(
                            (self.requests@, more),
                        ) by {
                            assert((done + one) + more =~= done + (one + more));
                            assert((one + more).skip(1) =~= more);
                            assert((one + more)[0] == call);
                        }
                        proof {
                            done = done + one;
                        }
                        break ;
                    },
                }
                proof {
                    done = done + one;
                }
            }
            i += 1;
        }
        let ghost written = self.requests@;
        let ghost given = self.write_buffer;
        let container = link.finalize(&mut self.write_buffer);
        let ghost completed = self.write_buffer;
        let ghost finalized = Call::Finalize { id: container, before: given, after: completed };
        let ghost last = seq![finalized];
        assert(link.calls() =~= start + (done + last));
        assert((done + last).drop_last() =~= done);
        assert((done + last).last() == finalized);
        assert(threaded(done + last, old(self).write_buffer, completed));
        assert(link.calls().skip(start.len() as int) =~= done + last);
        assert(link.calls().take(start.len() as int) =~= start);
        assert(filling(before, 0, done + last) == Some((written, last)));
        if let Some(container_msg_id) = container {
            let mut k: usize = 0;
            while k < self.requests.len()
                invariant
                    k <= self.requests@.len(),
                    self.requests@.len() == written.len(),
                    forall|j: int|
                        0 <= j < k ==> #[trigger] self.requests@[j] == contained(
                            written,
                            container_msg_id,
                        )[j],
                    forall|j: int|
                        k <= j < written.len() ==> #[trigger] self.requests@[j] == written[j],
                    requests_wf(written),
                    link.calls() == start + (done + last),
                    self.next_ping == old(self).next_ping,
                    self.read_buf == old(self).read_buf,
                    self.write_head == old(self).write_head,
                    self.write_buffer == completed,
                decreases self.requests@.len() - k,
            {
                if let RequestState::Serialized(pair) = self.requests[k].state {
                    self.requests[k].state = RequestState::Serialized(
                        MsgIdPair { msg_id: pair.msg_id, container_msg_id },
                    );
                }
                k += 1;
            }
            assert(self.requests@ =~= contained(written, container_msg_id));
            link.pack(&mut self.write_buffer);
            let ghost packed = Call::Pack { before: completed, after: self.write_buffer };
            let ghost both = seq![finalized, packed];
            assert(link.calls() =~= start + (done + both));
            assert((done + both).drop_last() =~= done + last);
            assert((done + both).last() == packed);
            assert(threaded(done + both, old(self).write_buffer, self.write_buffer));
            assert(link.calls().skip(start.len() as int) =~= done + both);
            assert(link.calls().take(start.len() as int) =~= start);
            assert(filling(before, 0, done + both) == Some((written, both)));
        }
    }

    /// Takes note that `n` more bytes were sent. Once all were, the requests among them wait for
    /// their answers.
    pub fn on_net_write(&mut self, n: usize)
        requires
            old(self).wf(),
            old(self).write_head + n <= queued(old(self).write_buffer).len(),
        ensures
            final(self).wf(),
            has_written(*old(self), *final(self), n),
    {
        let len: usize = queued_len(&self.write_buffer);
        self.write_head += n;
        if self.write_head != len {
            return ;
        }
        clear_queued(&mut self.write_buffer);
        self.write_head = 0;
        if len > WRITE_SHRINK_ON_SEND_OVER {
            self.write_buffer = new_queued(WRITE_INITIAL_BACK_CAPACITY, LEADING_BUFFER_SPACE);
        }
        let ghost before = self.requests@;
        let mut i: usize = 0;
        while i < self.requests.len()
            invariant
                i <= self.requests@.len(),
                self.requests@.len() == before.len(),
                requests_wf(before),
                forall|j: int| 0 <= j < i ==> #[trigger] self.requests@[j] == sent(before)[j],
                forall|j: int| i <= j < before.len() ==> #[trigger] self.requests@[j] == before[j],
                self.next_ping == old(self).next_ping,
                self.read_buf == old(self).read_buf,
                self.write_head == 0,
                queued(self.write_buffer).len() == 0,
                queued(old(self).write_buffer).len() > WRITE_SHRINK_ON_SEND_OVER ==> asked_room(
                    self.write_buffer,
                ) == (WRITE_INITIAL_BACK_CAPACITY, LEADING_BUFFER_SPACE),
            decreases self.requests@.len() - i,
        {
            if let RequestState::Serialized(pair) = self.requests[i].state {
                self.requests[i].state = RequestState::Sent(pair);
            }
            i += 1;
        }
        assert(self.requests@ =~= sent(before));
    }

    /// Takes in a ping that is due. Its answer goes to `result`.
    pub fn on_ping_timeout(&mut self, ping_id: i64, now: u64, result: R)
        requires
            now + PING_DELAY <= u64::MAX,
        ensures
            has_pinged(*old(self), *final(self), ping_id, now, result),
            final(self).requests@.last().wf(),
    {
        let body: Vec<u8> = ping_body(ping_id, NO_PING_DISCONNECT);
        proof {
            reveal_with_fuel(le_bytes, 5);
            assert(body@.len() >= 4);
        }
        self.enqueue_body(body, result);
        self.restart_ping(now);
        assert(self.requests@.drop_last() =~= old(self).requests@);
    }

    /// Gives up on the connection after an error: nothing that was received or was about to be
    /// sent counts any more.
    pub fn on_error<P: Protocol>(&mut self, link: &mut Recorded<P>)
        ensures
            final(self).requests@ == old(self).requests@,
            final(self).next_ping == old(self).next_ping,
            received(final(self).read_buf).len() == 0,
            queued(final(self).write_buffer).len() == 0,
            final(self).write_head == 0,
            final(link).calls() == old(link).calls().push(Call::Reset),
            is_reset(*old(self), *final(self)),
    {
        link.reset();
        clear_received(&mut self.read_buf);
        self.write_head = 0;
        clear_queued(&mut self.write_buffer);
    }

    /// Has everything sent again over a new connection.
    pub fn on_reconnected(&mut self)
        ensures
            final(self).same_buffers(*old(self)),
            final(self).requests@ == unserialized(old(self).requests@),
    {
        let ghost before = self.requests@;
        let mut i: usize = 0;
        while i < self.requests.len()
            invariant
                i <= self.requests@.len(),
                self.requests@.len() == before.len(),
                forall|j: int| 0 <= j < i ==> #[trigger] self.requests@[j] == unserialized(before)[j],
                forall|j: int| i <= j < before.len() ==> #[trigger] self.requests@[j] == before[j],
                self.same_buffers(*old(self)),
            decreases self.requests@.len() - i,
        {
            self.requests[i].state = RequestState::NotSerialized;
            i += 1;
        }
        assert(self.requests@ =~= unserialized(before));
    }

    /// Gives up on all requests. Returns where their answers have to go, in order.
    pub fn fail_all(&mut self) -> (results: Vec<R>)
        ensures
            final(self).same_buffers(*old(self)),
            final(self).requests@.len() == 0,
            results@ == results_of(old(self).requests@),
    {
        let mut requests: Vec<Request<R>> = Vec::new();
        std::mem::swap(&mut requests, &mut self.requests);
        let ghost before = requests@;
        let mut results: Vec<R> = Vec::new();
        for request in it: requests
            invariant
                it.seq() == before,
                results@.len() == it.index(),
                forall|j: int| 0 <= j < it.index() ==> #[trigger] results@[j] == before[j].result,
        {
            results.push(request.result);
        }
        assert(results@ =~= results_of(before));
        results
    }

    /// Settles an error. An error of the connection itself is made up for by a new connection, if
    /// the policy allows the attempt and it succeeds: everything is sent again then. Otherwise all
    /// requests are given up on. Returned are then the error to report, which is that of the
    /// attempt if there was one, and where the answers with that error have to go, in order.
    pub fn settle<E>(
        &mut self,
        error: E,
        io: bool,
        may_retry: bool,
        attempt: Option<Result<(), E>>,
    ) -> (settled: Result<(), (E, Vec<R>)>)
        requires
            attempt is Some <==> io && may_retry,
        ensures
            final(self).same_buffers(*old(self)),
            settled is Ok <==> io && may_retry && attempt is Some && attempt->0 is Ok,
            is_settled(*old(self), *final(self), error, attempt, settled),
            match settled {
                Ok(()) => final(self).requests@ == unserialized(old(self).requests@),
                Err((reported, results)) => {
                    &&& final(self).requests@.len() == 0
                    &&& results@ == results_of(old(self).requests@)
                    &&& reported == match attempt {
                        Some(Err(failure)) => failure,
                        _ => error,
                    }
                },
            },
    {
        match attempt {
            Some(Ok(())) => {
                self.on_reconnected();
                Ok(())
            },
            Some(Err(failure)) => Err((failure, self.fail_all())),
            None => Err((error, self.fail_all())),
        }
    }

    /// Adds `bytes` to what was received. More than is kept is an error, and nothing is added then.
    pub fn receive(&mut self, bytes: &[u8]) -> (added: Result<(), SenderError>)
        ensures
            final(self).requests@ == old(self).requests@,
            final(self).next_ping == old(self).next_ping,
            final(self).write_buffer == old(self).write_buffer,
            final(self).write_head == old(self).write_head,
            if fits_beside(received(old(self).read_buf).len(), bytes@.len()) {
                &&& added is Ok
                &&& received(final(self).read_buf) == received(old(self).read_buf) + bytes@
            } else {
                added is Err && added->Err_0 is TooMuchData && *final(self) == *old(self)
            },
    {
        let room: usize = match self.check_room() {
            Ok(room) => room,
            Err(err) => return Err(err),
        };
        if bytes.len() > room {
            return Err(SenderError::TooMuchData);
        }
        extend_received(&mut self.read_buf, bytes);
        Ok(())
    }

    /// Takes apart what was received, of which the last `n` bytes are new. Answers go to `answers`.
    /// What is no complete packet yet is kept.
    pub fn on_net_read<P: Protocol>(
        &mut self,
        link: &mut Recorded<P>,
        n: usize,
        answers: &mut Vec<Answer<R>>,
    ) -> (read: Result<Vec<Updates>, Stop>)
        requires
            requests_wf(old(self).requests@),
        ensures
            requests_wf(final(self).requests@),
            old(link).calls().len() <= final(link).calls().len(),
            final(link).calls().take(old(link).calls().len() as int) == old(link).calls(),
            final(link).calls() == old(link).calls() ==> *final(link) == *old(link),
            has_read(
                *old(self),
                *final(self),
                received(old(self).read_buf),
                n as nat,
                old(answers)@,
                final(answers)@,
                final(link).calls().skip(old(link).calls().len() as int),
                read,
            ),
    {
        if n == 0 {
            assert(link.calls().take(link.calls().len() as int) =~= link.calls());
            return Err(Stop::Failed(SenderError::NothingRead));
        }
        let ghost start = link.calls();
        let ghost bytes = received(self.read_buf);
        let ghost before = Progress {
            requests: self.requests@,
            answers: answers@,
            updates: Seq::<Updates>::empty(),
        };
        let ghost most = u64::MAX as nat;
        let ghost mut done: Seq<Call> = Seq::empty();
        let mut updates: Vec<Updates> = Vec::new();
        let mut consumed: usize = 0;
        let mut rounds: u64 = u64::MAX;
        assert(link.calls() =~= start + done);
        assert(updates@ =~= before.updates);
        assert forall|more: Seq<Call>| #[trigger]
            reading(before, bytes, 0, most, done + more) == reading(
            before,
            bytes,
            0,
            most,
            more,
        ) by {
            assert(done + more =~= more);
        }
        loop
            invariant_except_break
                n > 0,
                start == old(link).calls(),
                most == u64::MAX,
                bytes == received(old(self).read_buf),
                before == (Progress {
                    requests: old(self).requests@,
                    answers: old(answers)@,
                    updates: Seq::<Updates>::empty(),
                }),
                self.read_buf == old(self).read_buf,
                self.next_ping == old(self).next_ping,
                self.write_buffer == old(self).write_buffer,
                self.write_head == old(self).write_head,
                requests_wf(self.requests@),
                consumed <= bytes.len(),
                link.calls() == start + done,
                done.len() == 0 ==> *link == *old(link),
                forall|more: Seq<Call>| #[trigger]
                    reading(before, bytes, 0, most, done + more) == reading(
                        Progress {
                            requests: self.requests@,
                            answers: answers@,
                            updates: updates@,
                        },
                        bytes,
                        consumed as nat,
                        rounds as nat,
                        more,
                    ),
            ensures
                self.read_buf == old(self).read_buf,
                self.next_ping == old(self).next_ping,
                self.write_buffer == old(self).write_buffer,
                self.write_head == old(self).write_head,
                requests_wf(self.requests@),
                consumed <= bytes.len(),
                bytes == received(old(self).read_buf),
                link.calls() == start + done,
                done.len() == 0 ==> *link == *old(link),
                reading(before, bytes, 0, most, done) == Some(
                    ReadEnd {
                        progress: Progress {
                            requests: self.requests@,
                            answers: answers@,
                            updates: updates@,
                        },
                        consumed: consumed as nat,
                        stop: None,
                    },
                ),
            decreases rounds,
        {
            let ghost nothing = Seq::<Call>::empty();
            assert(done + nothing =~= done);
            assert(link.calls().skip(start.len() as int) =~= done);
            assert(link.calls().take(start.len() as int) =~= start);
            let all = received_bytes(&self.read_buf);
            let rest = slice_subrange(all, consumed, all.len());
            assert(rest@ =~= bytes.skip(consumed as int));
            assert(reading(before, bytes, 0, most, done + nothing) == reading(
                Progress { requests: self.requests@, answers: answers@, updates: updates@ },
                bytes,
                consumed as nat,
                rounds as nat,
                nothing,
            ));
            if rest.len() == 0 {
                break ;
            }
            if rounds == 0 {
                return Err(Stop::Faulted(Fault::Endless));
            }
            let ghost current = Progress {
                requests: self.requests@,
                answers: answers@,
                updates: updates@,
            };
            let unpacked = link.unpack(rest);
            let ghost first = Call::Unpack { bytes: rest@, unpacked };
            let ghost one = seq![first];
            assert(one.skip(1) =~= nothing);
            assert(link.calls() =~= start + (done + one));
            assert(link.calls().skip(start.len() as int) =~= done + one);
            assert(link.calls().take(start.len() as int) =~= start);
            assert(reading(before, bytes, 0, most, done + one) == reading(
                current,
                bytes,
                consumed as nat,
                rounds as nat,
                one,
            ));
            match unpacked {
                Unpacked::Packet { data_start, data_end, next_offset } => {
                    if data_start > data_end || data_end > rest.len() {
                        return Err(Stop::Faulted(Fault::PacketOutOfBounds));
                    }
                    let payload = slice_subrange(rest, data_start, data_end);
                    let read = link.deserialize(payload);
                    let ghost second = Call::Deserialize { payload: payload@, messages: read };
                    let ghost two = seq![first, second];
                    assert(two.skip(1) =~= seq![second]);
                    assert(two.skip(1).skip(1) =~= nothing);
                    assert(link.calls() =~= start + (done + two));
                    assert(link.calls().skip(start.len() as int) =~= done + two);
                    assert(link.calls().take(start.len() as int) =~= start);
                    assert(reading(before, bytes, 0, most, done + two) == reading(
                        current,
                        bytes,
                        consumed as nat,
                        rounds as nat,
                        two,
                    ));
                    match read {
                        Ok(messages) => {
                            if let Err(fault) = self.process_mtp_buffer(
                                messages,
                                answers,
                                &mut updates,
                            ) {
                                return Err(Stop::Faulted(fault));
                            }
                        },
                        Err(err) => {
                            return Err(Stop::Failed(SenderError::Deserialize(err)));
                        },
                    }
                    let next: usize = match consumed.checked_add(next_offset) {
                        Some(next) => next,
                        None => return Err(Stop::Failed(SenderError::Overflow)),
                    };
                    if next > received_len(&self.read_buf) {
                        return Err(Stop::Failed(SenderError::BeyondBuffer));
                    }
                    proof {
                        let now = Progress {
                            requests: self.requests@,
                            answers: answers@,
                            updates: updates@,
                        };
                        assert forall|more: Seq<Call>| #[trigger]
                            reading(before, bytes, 0, most, (done + two) + more) == reading(
                            now,
                            bytes,
                            next as nat,
                            (rounds - 1) as nat,
                            more,
                        ) by {
                            assert((done + two) + more =~= done + (two + more));
                            assert((two + more).skip(1).skip(1) =~= more);
                            assert((two + more).skip(1)[0] == second);
                            assert((two + more)[0] == first);
                            assert(reading(
                                current,
                                bytes,
                                consumed as nat,
                                rounds as nat,
                                two + more,
                            ) == reading(now, bytes, next as nat, (rounds - 1) as nat, more));
                        }
                        done = done + two;
                    }
                    consumed = next;
                    rounds -= 1;
                },
                Unpacked::MissingBytes => {
                    proof {
                        done = done + one;
                    }
                    break ;
                },
                Unpacked::Failed(err) => {
                    return Err(Stop::Failed(SenderError::Transport(err)));
                },
            }
        }
        assert(link.calls().skip(start.len() as int) =~= done);
        assert(link.calls().take(start.len() as int) =~= start);
        if consumed > 0 {
            take_received(&mut self.read_buf, consumed);
            if received_len(&self.read_buf) == 0 && received_capacity(&self.read_buf)
                > READ_SHRINK_THRESHOLD {
                self.read_buf = new_received(READ_INITIAL_CAPACITY);
                assert(received(self.read_buf) =~= bytes.skip(consumed as int));
            }
        } else {
            assert(bytes.skip(0) =~= bytes);
        }
        Ok(updates)
    }

    /// Handles one thing that a step waited for. Answers go to `answers`; updates are returned.
    /// No more than `MAXIMUM_DATA` bytes are ever kept of what was received.
    pub fn on_event<P: Protocol>(
        &mut self,
        link: &mut Recorded<P>,
        event: NetEvent<R>,
        answers: &mut Vec<Answer<R>>,
    ) -> (done: Result<Vec<Updates>, Stop>)
        requires
            old(self).wf(),
            possible(*old(self), event),
        ensures
            final(self).wf(),
            old(link).calls().len() <= final(link).calls().len(),
            final(link).calls().take(old(link).calls().len() as int) == old(link).calls(),
            final(link).calls() == old(link).calls() ==> *final(link) == *old(link),
            event is Read || {
                &&& done is Ok
                &&& done->Ok_0@.len() == 0
                &&& final(answers)@ == old(answers)@
                &&& *final(link) == *old(link)
            },
            received(old(self).read_buf).len() <= MAXIMUM_DATA ==> received(
                final(self).read_buf,
            ).len() <= MAXIMUM_DATA,
            match event {
                NetEvent::PingDue { ping_id, now, result } => has_pinged(
                    *old(self),
                    *final(self),
                    ping_id,
                    now,
                    result,
                ),
                NetEvent::Request(request) => {
                    &&& final(self).same_buffers(*old(self))
                    &&& final(self).requests@ == old(self).requests@.push(request)
                    &&& has_enqueued(*old(self), *final(self), request)
                },
                NetEvent::Read(bytes) => if fits_beside(
                    received(old(self).read_buf).len(),
                    bytes@.len(),
                ) {
                    has_read(
                        *old(self),
                        *final(self),
                        received(old(self).read_buf) + bytes@,
                        bytes@.len(),
                        old(answers)@,
                        final(answers)@,
                        final(link).calls().skip(old(link).calls().len() as int),
                        done,
                    )
                } else {
                    &&& done is Err
                    &&& done->Err_0 == Stop::Failed(SenderError::TooMuchData)
                    &&& *final(self) == *old(self)
                    &&& final(answers)@ == old(answers)@
                    &&& *final(link) == *old(link)
                },
                NetEvent::Written(n) => has_written(*old(self), *final(self), n),
            },
    {
        assert(link.calls().take(link.calls().len() as int) =~= link.calls());
        match event {
            NetEvent::PingDue { ping_id, now, result } => {
                self.on_ping_timeout(ping_id, now, result);
                proof {
                    let after = self.requests@;
                    assert forall|i: int| 0 <= i < after.len() implies (#[trigger] after[i]).wf() by {
                        if i < after.len() - 1 {
                            assert(after[i] == after.drop_last()[i]);
                        }
                    }
                }
                Ok(Vec::new())
            },
            NetEvent::Request(request) => {
                self.on_request(request);
                Ok(Vec::new())
            },
            NetEvent::Read(bytes) => {
                if let Err(err) = self.receive(&bytes) {
                    return Err(Stop::Failed(err));
                }
                let ghost held = received(self.read_buf);
                let done = self.on_net_read(link, bytes.len(), answers);
                proof {
                    lemma_reading_keeps_no_more(
                        *old(self),
                        *self,
                        held,
                        bytes@.len(),
                        old(answers)@,
                        answers@,
                        link.calls().skip(old(link).calls().len() as int),
                        done,
                    );
                }
                done
            },
            NetEvent::Written(n) => {
                self.on_net_write(n);
                Ok(Vec::new())
            },
        }
    }
}

proof fn lemma_reading_consumes_no_more<R>(
    state: Progress<R>,
    bytes: Seq<u8>,
    consumed: nat,
    rounds: nat,
    calls: Seq<Call>,
)
    requires
        consumed <= bytes.len(),
        reading(state, bytes, consumed, rounds, calls) is Some,
    ensures
        reading(state, bytes, consumed, rounds, calls)->Some_0.consumed <= bytes.len(),
    decreases rounds,
{
    let rest = bytes.skip(consumed as int);
    if rest.len() > 0 && rounds > 0 {
        let after = calls.skip(1);
        if let Unpacked::Packet { data_start, data_end, next_offset } = calls[0]->unpacked {
            if data_start <= data_end && data_end <= rest.len() {
                if let Ok(messages) = after[0]->messages {
                    let (next, fault) = processed(state, messages@);
                    let to = consumed + next_offset as nat;
                    if fault is None && to <= usize::MAX && to <= bytes.len() {
                        lemma_reading_consumes_no_more(
                            next,
                            bytes,
                            to,
                            (rounds - 1) as nat,
                            after.skip(1),
                        );
                    }
                }
            }
        }
    }
}

proof fn lemma_reading_keeps_no_more<R>(
    before: Sender<R>,
    after: Sender<R>,
    bytes: Seq<u8>,
    n: nat,
    answers_before: Seq<Answer<R>>,
    answers_after: Seq<Answer<R>>,
    calls: Seq<Call>,
    read: Result<Vec<Updates>, Stop>,
)
    requires
        has_read(before, after, bytes, n, answers_before, answers_after, calls, read),
    ensures
        received(after.read_buf).len() <= bytes.len(),
{
    if n > 0 {
        let start = Progress {
            requests: before.requests@,
            answers: answers_before,
            updates: Seq::empty(),
        };
        lemma_reading_consumes_no_more(start, bytes, 0, u64::MAX as nat, calls);
    }
}

/// Two writes on one buffer come to the same as one write of as many bytes.
pub proof fn law_writes_add_up<R>(
    first: Sender<R>,
    second: Sender<R>,
    third: Sender<R>,
    a: usize,
    b: usize,
)
    requires
        first.write_head + a < queued(first.write_buffer).len(),
        first.write_head + a + b <= queued(first.write_buffer).len(),
        queued(first.write_buffer).len() <= usize::MAX,
        has_written(first, second, a),
        has_written(second, third, b),
    ensures
        has_written(first, third, (a + b) as usize),
{
}

/// How many bytes were written in all.
pub open spec fn total(writes: Seq<usize>) -> nat
    decreases writes.len(),
{
    if writes.len() == 0 {
        0
    } else {
        total(writes.drop_last()) + writes.last() as nat
    }
}

/// The bytes that went out, one write after the other.
pub open spec fn went_out<R>(senders: Seq<Sender<R>>, writes: Seq<usize>) -> Seq<u8>
    decreases writes.len(),
{
    if writes.len() == 0 {
        Seq::empty()
    } else {
        let last = writes.len() - 1;
        went_out(senders, writes.drop_last()) + senders[last].left_to_send().take(
            writes[last] as int,
        )
    }
}

/// Whether `senders` is what a run of `writes` takes a sender through, none of which is asked for
/// once the buffer is empty.
pub open spec fn is_write_run<R>(senders: Seq<Sender<R>>, writes: Seq<usize>) -> bool {
    let all = senders[0].left_to_send().len();
    &&& senders.len() == writes.len() + 1
    &&& senders[0].write_head <= queued(senders[0].write_buffer).len() <= usize::MAX
    &&& forall|k: int|
        0 <= k < writes.len() ==> {
            &&& total(#[trigger] writes.take(k)) < all
            &&& writes[k] <= senders[k].left_to_send().len()
            &&& has_written(senders[k], senders[k + 1], writes[k])
        }
}

/// Over any run of writes the bytes of the buffer go out once, in order and without a gap. As long
/// as some are left, nothing but the place in the buffer changes; exactly when none are left, the
/// requests in the buffer count as sent, by the identifiers they had, and the buffer is empty.
pub proof fn law_bytes_go_out_once<R>(senders: Seq<Sender<R>>, writes: Seq<usize>)
    requires
        is_write_run(senders, writes),
        writes.len() > 0,
    ensures
        ({
            let first = senders[0];
            let last = senders.last();
            let all = first.left_to_send();
            let done = total(writes);
            &&& done <= all.len()
            &&& went_out(senders, writes) == all.take(done as int)
            &&& last.next_ping == first.next_ping
            &&& last.read_buf == first.read_buf
            &&& if done < all.len() {
                &&& last.write_head == first.write_head + done
                &&& last.left_to_send() == all.skip(done as int)
                &&& last.write_buffer == first.write_buffer
                &&& last.requests == first.requests
            } else {
                &&& last.write_head == 0
                &&& queued(last.write_buffer).len() == 0
                &&& last.requests@.len() == first.requests@.len()
                &&& forall|i: int|
                    0 <= i < first.requests@.len() ==> {
                        let before = first.requests@[i];
                        let after = #[trigger] last.requests@[i];
                        &&& after.body == before.body
                        &&& after.result == before.result
                        &&& after.state == match before.state {
                            RequestState::Serialized(pair) => RequestState::Sent(pair),
                            state => state,
                        }
                    }
            }
        }),
    decreases writes.len(),
{
    let first = senders[0];
    let all = first.left_to_send();
    let front = writes.drop_last();
    let n = writes.last();
    let at = writes.len() - 1;
    let before = senders[at];
    let after = senders[at + 1];
    assert(writes.take(at) =~= front);
    assert(has_written(senders[at], senders[at + 1], writes[at]));
    assert(senders.last() == after);
    if front.len() > 0 {
        let less = senders.drop_last();
        assert forall|k: int| 0 <= k < front.len() implies {
            &&& total(#[trigger] front.take(k)) < all.len()
            &&& front[k] <= less[k].left_to_send().len()
            &&& has_written(less[k], less[k + 1], front[k])
        } by {
            assert(front.take(k) =~= writes.take(k));
            assert(has_written(senders[k], senders[k + 1], writes[k]));
        }
        law_bytes_go_out_once(less, front);
        lemma_went_out(senders, less, front);
        assert(less.last() == before);
    } else {
        assert(before == first);
        assert(all.skip(0) =~= all);
        assert(went_out(senders, front) =~= all.take(0));
    }
    let gone = total(front) as int;
    let done = total(writes) as int;
    assert(before.left_to_send() == all.skip(gone));
    assert(went_out(senders, writes) == all.take(gone) + all.skip(gone).take(n as int));
    assert(all.take(gone) + all.skip(gone).take(n as int) =~= all.take(done));
    if done < all.len() {
        assert(after.left_to_send() =~= all.skip(done));
    }
}

proof fn lemma_went_out<R>(one: Seq<Sender<R>>, two: Seq<Sender<R>>, writes: Seq<usize>)
    requires
        writes.len() <= one.len(),
        writes.len() <= two.len(),
        forall|k: int| 0 <= k < writes.len() ==> #[trigger] one[k] == two[k],
    ensures
        went_out(one, writes) == went_out(two, writes),
    decreases writes.len(),
{
    if writes.len() > 0 {
        lemma_went_out(one, two, writes.drop_last());
        assert(one[writes.len() - 1] == two[writes.len() - 1]);
    }
}

/// What a read comes to: all messages that it brought are processed, in order; the updates among
/// them are returned; the packets that were found are done with and what follows them is kept. An
/// error leaves the received bytes as they are, and reading nothing is one.
pub proof fn law_what_a_read_comes_to<R>(
    before: Sender<R>,
    after: Sender<R>,
    bytes: Seq<u8>,
    n: nat,
    answers_before: Seq<Answer<R>>,
    answers_after: Seq<Answer<R>>,
    calls: Seq<Call>,
    read: Result<Vec<Updates>, Stop>,
)
    requires
        has_read(before, after, bytes, n, answers_before, answers_after, calls, read),
    ensures
        after.next_ping == before.next_ping,
        after.write_buffer == before.write_buffer,
        after.write_head == before.write_head,
        n == 0 ==> {
            &&& read is Err
            &&& read->Err_0 == Stop::Failed(SenderError::NothingRead)
            &&& calls.len() == 0
        },
        ({
            let start = Progress {
                requests: before.requests@,
                answers: answers_before,
                updates: Seq::empty(),
            };
            let (end, fault) = processed(start, messages_in(calls));
            &&& after.requests@ == end.requests
            &&& answers_after == end.answers
            &&& fault is Some ==> read is Err && read->Err_0 == Stop::Faulted(fault->Some_0)
            &&& match read {
                Ok(updates) => {
                    &&& updates@ == readable_updates(messages_in(calls))
                    &&& packets_len(calls) <= bytes.len()
                    &&& received(after.read_buf) == bytes.skip(packets_len(calls) as int)
                    &&& packets_len(calls) == bytes.len() || calls.len() > 0 && match calls.last() {
                        Call::Unpack { unpacked: Unpacked::MissingBytes, .. } => true,
                        _ => false,
                    }
                },
                Err(_) => received(after.read_buf) == bytes,
            }
        }),
{
    let start = Progress {
        requests: before.requests@,
        answers: answers_before,
        updates: Seq::<Updates>::empty(),
    };
    if n > 0 {
        let most = u64::MAX as nat;
        law_every_message_is_processed(start, bytes, 0, most, calls);
        law_all_updates_are_returned(start, messages_in(calls));
        lemma_reading_consumes_no_more(start, bytes, 0, most, calls);
        let end = reading(start, bytes, 0, most, calls)->Some_0;
        if end.stop is None {
            law_how_reading_ends(start, bytes, 0, most, calls);
            assert(Seq::<Updates>::empty() + readable_updates(messages_in(calls))
                =~= readable_updates(messages_in(calls)));
        }
    }
}

/// A ping asks the server to answer it, by its identifier, and to close the connection when nothing
/// follows for 75 seconds; the next one is due after a minute.
pub proof fn law_ping_is_what_the_server_expects<R>(
    before: Sender<R>,
    after: Sender<R>,
    ping_id: i64,
    now: u64,
    result: R,
)
    requires
        has_pinged(before, after, ping_id, now, result),
        now + 60_000_000_000 <= u64::MAX,
    ensures
        ({
            let ping = after.requests@[before.requests@.len() as int];
            &&& after.requests@.len() == before.requests@.len() + 1
            &&& ping.result == result
            &&& ping.state is NotSerialized
            &&& ping.body@.len() == 16
            &&& ping.body@.take(4) == seq![0x8cu8, 0x7bu8, 0x42u8, 0xf3u8]
            &&& le_nat(ping.body@.subrange(4, 12)) == ping_id as int % 0x1_0000_0000_0000_0000
            &&& ping.body@.skip(12) == seq![75u8, 0u8, 0u8, 0u8]
            &&& after.next_ping == now + 60_000_000_000
        }),
{
    let ping = after.requests@.last();
    let body = ping.body@;
    let id = le_bytes(twos_complement_64(ping_id), 8);
    reveal_with_fuel(numbers_of, 9);
    law_numbers_are_read_back(twos_complement_64(ping_id), 8);
    reveal_with_fuel(le_bytes, 5);
    assert(le_bytes(PING_DELAY_DISCONNECT as nat, 4) =~= seq![0x8cu8, 0x7bu8, 0x42u8, 0xf3u8]);
    assert(le_bytes(twos_complement_32(NO_PING_DISCONNECT), 4) =~= seq![75u8, 0u8, 0u8, 0u8]);
    assert(body.take(4) =~= seq![0x8cu8, 0x7bu8, 0x42u8, 0xf3u8]);
    assert(body.subrange(4, 12) =~= id);
    assert(body.skip(12) =~= seq![75u8, 0u8, 0u8, 0u8]);
}

/// There is room for exactly what a buffer of 1032 KiB does not hold yet, and for nothing, not even
/// for no bytes, where it holds as much.
pub proof fn law_room_is_what_is_left(len: nat, n: nat)
    ensures
        fits_beside(len, n) <==> len < 1_056_768 && len + n <= 1_056_768,
        room_beside(len) is Some <==> len < 1_056_768,
        room_beside(len) is Some ==> room_beside(len)->Some_0 + len == 1_056_768,
{
}

/// After more than 256 KiB were sent from it, the buffer is a new one, made as the first one was:
/// with 64 KiB of room at the back, and with room for the headers of all layers at the front.
pub proof fn law_big_buffers_are_given_up<R>(before: Sender<R>, after: Sender<R>, n: usize)
    requires
        has_written(before, after, n),
        before.write_head + n == queued(before.write_buffer).len(),
        queued(before.write_buffer).len() > 262_144,
    ensures
        asked_room(after.write_buffer) == (65_536usize, 72usize),
        queued(after.write_buffer).len() == 0,
{
}

/// Requests wait in the order in which they were taken in: of two, the one that came first stands
/// before the other, both behind all that waited already, and nothing about those changes.
pub proof fn law_requests_wait_in_order<R>(
    before: Sender<R>,
    between: Sender<R>,
    after: Sender<R>,
    one: Request<R>,
    two: Request<R>,
    i: int,
)
    requires
        has_enqueued(before, between, one),
        has_enqueued(between, after, two),
    ensures
        ({
            let n = before.requests@.len() as int;
            &&& after.requests@.len() == n + 2
            &&& 0 <= i < n ==> after.requests@[i] == before.requests@[i]
            &&& after.requests@[n] == one
            &&& after.requests@[n + 1] == two
            &&& after.write_buffer == before.write_buffer && after.write_head == before.write_head
            &&& after.read_buf == before.read_buf && after.next_ping == before.next_ping
        }),
{
}

/// After an error that a new connection makes up for, everything starts over: nothing that was
/// received or in the buffer counts, and every request waits to be sent, in its place and with its
/// body.
pub proof fn law_new_connection_starts_over<R, E>(
    before: Sender<R>,
    between: Sender<R>,
    after: Sender<R>,
    error: E,
    settled: Result<(), (E, Vec<R>)>,
    i: int,
)
    requires
        is_reset(before, between),
        is_settled(between, after, error, Some(Ok(())), settled),
        0 <= i < before.requests@.len(),
    ensures
        settled is Ok,
        after.requests@.len() == before.requests@.len(),
        after.requests@[i].state is NotSerialized,
        after.requests@[i].body == before.requests@[i].body,
        after.requests@[i].result == before.requests@[i].result,
        received(after.read_buf).len() == 0,
        after.left_to_send().len() == 0,
        after.write_head == 0,
        after.next_ping == before.next_ping,
{
}

/// After an error that nothing makes up for, everyone who waits is told, each once and in the order
/// in which they wait, and nobody waits any longer. What they are told is why there is no new
/// connection, where one was tried, and the error itself where none was.
pub proof fn law_everyone_is_told_of_an_error<R, E>(
    before: Sender<R>,
    between: Sender<R>,
    after: Sender<R>,
    error: E,
    failure: E,
    tried: bool,
    settled: Result<(), (E, Vec<R>)>,
    i: int,
)
    requires
        is_reset(before, between),
        is_settled(
            between,
            after,
            error,
            if tried {
                Some(Err::<(), E>(failure))
            } else {
                None
            },
            settled,
        ),
        0 <= i < before.requests@.len(),
    ensures
        settled is Err,
        settled->Err_0.0 == if tried {
            failure
        } else {
            error
        },
        settled->Err_0.1@.len() == before.requests@.len(),
        settled->Err_0.1@[i] == before.requests@[i].result,
        after.requests@.len() == 0,
        received(after.read_buf).len() == 0,
        after.left_to_send().len() == 0,
{
}

} // verus!
