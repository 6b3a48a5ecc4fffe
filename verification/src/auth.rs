//! Generating an authorization key: which request follows which answer.

use vstd::prelude::*;

verus! {

/// How far the exchange has come.
#[derive(Clone, Copy, Debug, PartialEq, Eq, Structural)]
pub enum Phase {
    /// The request of this step, counted from one, is being made.
    Making(u8),
    /// The request of this step was sent and waits for its answer.
    Waiting(u8),
    /// The key is being made of the last answer.
    Completing,
    /// There is a key.
    Finished,
    /// There will be no key.
    Failed,
}

/// How many requests the exchange takes.
pub const STEPS: u8 = 3;

/// What happened. `E` is what says what went wrong, and `K` is the key.
#[derive(Debug)]
pub enum Event<K, E> {
    /// This request was made.
    Made(Vec<u8>),
    /// This answer to the last request came.
    Answered(Vec<u8>),
    /// This key was made.
    Completed(K),
    /// Something went wrong.
    Failed(E),
}

/// What to do next.
#[derive(Debug)]
pub enum Action<K, E> {
    /// Make the request of this step from the last answer, which is empty before the first.
    Make { step: u8, answer: Vec<u8> },
    /// Send this request, and wait for the answer.
    Send(Vec<u8>),
    /// Make the key of the last answer.
    Complete(Vec<u8>),
    /// Use this key.
    Finish(K),
    /// Report what went wrong.
    GiveUp(E),
}

/// Whether `event` can happen in `phase`.
pub open spec fn expected<K, E>(phase: Phase, event: Event<K, E>) -> bool {
    match event {
        Event::Made(_) => phase is Making,
        Event::Answered(_) => phase is Waiting,
        Event::Completed(_) => phase is Completing,
        Event::Failed(_) => phase is Making || phase is Waiting || phase is Completing,
    }
}

/// What an event that was expected comes to.
pub open spec fn next<K, E>(phase: Phase, event: Event<K, E>) -> (Phase, Action<K, E>) {
    match event {
        Event::Failed(error) => (Phase::Failed, Action::GiveUp(error)),
        Event::Completed(key) => (Phase::Finished, Action::Finish(key)),
        Event::Made(request) => (Phase::Waiting(phase->Making_0), Action::Send(request)),
        Event::Answered(answer) => {
            let step = phase->Waiting_0;
            if step < STEPS {
                (
                    Phase::Making((step + 1) as u8),
                    Action::Make { step: (step + 1) as u8, answer },
                )
            } else {
                (Phase::Completing, Action::Complete(answer))
            }
        },
    }
}

/// One exchange for a key.
#[derive(Clone, Copy, Debug)]
pub struct KeyExchange {
    pub phase: Phase,
}

impl KeyExchange {
    /// Starts with the first request.
    pub fn start<K, E>() -> (started: (Self, Action<K, E>))
        ensures
            started.0.phase == Phase::Making(1),
            match started.1 {
                Action::Make { step, answer } => step == 1 && answer@.len() == 0,
                _ => false,
            },
    {
        (
            KeyExchange { phase: Phase::Making(1) },
            Action::Make { step: 1, answer: Vec::new() },
        )
    }

    /// What to do next after `event`.
    pub fn on<K, E>(&mut self, event: Event<K, E>) -> (action: Action<K, E>)
        requires
            expected(old(self).phase, event),
        ensures
            next(old(self).phase, event) == (final(self).phase, action),
    {
        match event {
            Event::Made(request) => {
                if let Phase::Making(step) = self.phase {
                    self.phase = Phase::Waiting(step);
                }
                Action::Send(request)
            },
            Event::Answered(answer) => match self.phase {
                Phase::Waiting(step) if step < STEPS => {
                    self.phase = Phase::Making(step + 1);
                    Action::Make { step: step + 1, answer }
                },
                _ => {
                    self.phase = Phase::Completing;
                    Action::Complete(answer)
                },
            },
            Event::Completed(key) => {
                self.phase = Phase::Finished;
                Action::Finish(key)
            },
            Event::Failed(error) => {
                self.phase = Phase::Failed;
                Action::GiveUp(error)
            },
        }
    }
}

/// Where the exchange stands after these requests were made, sent and answered in turn.
pub open spec fn after_rounds<K, E>(requests: Seq<Vec<u8>>, answers: Seq<Vec<u8>>) -> Phase
    decreases answers.len(),
{
    if answers.len() == 0 {
        Phase::Making(1)
    } else {
        let before = after_rounds::<K, E>(requests, answers.drop_last());
        let sent = next::<K, E>(before, Event::Made(requests[answers.len() - 1])).0;
        next::<K, E>(sent, Event::Answered(answers.last())).0
    }
}

/// There is a key after exactly as many answered requests as the exchange takes, and not before.
/// Every request is sent as it was made, every further request is made from the last answer, and
/// so is the key.
pub proof fn law_key_takes_all_steps<K, E>(
    requests: Seq<Vec<u8>>,
    answers: Seq<Vec<u8>>,
    request: Vec<u8>,
    answer: Vec<u8>,
    key: K,
)
    requires
        answers.len() <= requests.len(),
        answers.len() <= STEPS,
    ensures
        ({
            let rounds = answers.len();
            let phase = after_rounds::<K, E>(requests, answers);
            let (sent, send) = next::<K, E>(phase, Event::Made(request));
            let (answered, action) = next::<K, E>(sent, Event::Answered(answer));
            if rounds < STEPS {
                &&& phase == Phase::Making((rounds + 1) as u8)
                &&& expected::<K, E>(phase, Event::Made(request))
                &&& send == Action::<K, E>::Send(request)
                &&& expected::<K, E>(sent, Event::Answered(answer))
                &&& action == if rounds + 1 < STEPS {
                    Action::<K, E>::Make { step: (rounds + 2) as u8, answer }
                } else {
                    Action::<K, E>::Complete(answer)
                }
                &&& !expected::<K, E>(phase, Event::Completed(key))
            } else {
                &&& phase is Completing
                &&& expected::<K, E>(phase, Event::Completed(key))
                &&& next::<K, E>(phase, Event::Completed(key)) == (
                    Phase::Finished,
                    Action::<K, E>::Finish(key),
                )
            }
        }),
    decreases answers.len(),
{
    if answers.len() > 0 {
        law_key_takes_all_steps::<K, E>(
            requests,
            answers.drop_last(),
            requests[answers.len() - 1],
            answers.last(),
            key,
        );
    }
}

} // verus!
