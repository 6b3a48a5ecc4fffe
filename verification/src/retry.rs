//! Connecting again after a connection was lost, and identifiers for pings.

use std::time::Duration;
use vstd::prelude::*;

verus! {

/// How long to wait after an attempt to connect has failed, in seconds.
pub const FAILURE_PAUSE: u64 = 1;

/// What happened while connecting again. `S` is a connection, and `E` says why there is none.
#[derive(Debug)]
pub enum Event<S, E> {
    /// An attempt succeeded.
    Connected(S),
    /// An attempt failed.
    Failed(E),
    /// The time to wait has passed.
    Waited,
    /// The policy refuses another attempt.
    Refused,
    /// The policy allows another attempt after this time.
    Allowed(Duration),
}

/// What to do next. `P` is a proxy.
#[derive(Debug)]
pub enum Action<P, S, E> {
    /// Try to connect to the server itself.
    Connect,
    /// Try to connect through this proxy.
    ConnectVia(P),
    /// Wait for `FAILURE_PAUSE`.
    Pause,
    /// Ask the policy whether to try again after so many failures.
    AskPolicy(usize),
    /// Wait for as long as the policy says.
    Wait(Duration),
    /// Use this connection.
    Succeed(S),
    /// Report this failure, the last one.
    GiveUp(E),
}

/// Where connecting again stands.
#[derive(Debug)]
pub enum Phase<E> {
    Connecting,
    Pausing(E),
    Asking(E),
    Waiting,
    Connected,
    GaveUp,
}

/// The attempts to connect again.
#[derive(Debug)]
pub struct Reconnection<P, E> {
    /// What every attempt goes through, if anything.
    pub proxy: Option<P>,
    pub phase: Phase<E>,
    /// How many attempts have failed.
    pub attempts: usize,
}

/// Whether `event` can happen in `phase`.
pub open spec fn expected<S, E>(phase: Phase<E>, event: Event<S, E>) -> bool {
    match event {
        Event::Connected(_) => phase is Connecting,
        Event::Failed(_) => phase is Connecting,
        Event::Waited => phase is Pausing || phase is Waiting,
        Event::Refused => phase is Asking,
        Event::Allowed(_) => phase is Asking,
    }
}

/// How to try to connect: through the proxy wherever there is one.
pub open spec fn attempt<P, S, E>(proxy: Option<P>) -> Action<P, S, E> {
    match proxy {
        Some(proxy) => Action::ConnectVia(proxy),
        None => Action::Connect,
    }
}

/// What an event that was expected comes to.
pub open spec fn next<P, S, E>(state: Reconnection<P, E>, event: Event<S, E>) -> (
    Reconnection<P, E>,
    Action<P, S, E>,
) {
    let proxy = state.proxy;
    let attempts = state.attempts;
    match event {
        Event::Connected(stream) => (
            Reconnection { proxy, phase: Phase::Connected, attempts },
            Action::Succeed(stream),
        ),
        Event::Failed(error) => (
            Reconnection { proxy, phase: Phase::Pausing(error), attempts: (attempts + 1) as usize },
            Action::Pause,
        ),
        Event::Waited => match state.phase {
            Phase::Pausing(error) => (
                Reconnection { proxy, phase: Phase::Asking(error), attempts },
                Action::AskPolicy(attempts),
            ),
            _ => (Reconnection { proxy, phase: Phase::Connecting, attempts }, attempt(proxy)),
        },
        Event::Refused => (
            Reconnection { proxy, phase: Phase::GaveUp, attempts },
            Action::GiveUp(state.phase->Asking_0),
        ),
        Event::Allowed(time) => (
            Reconnection { proxy, phase: Phase::Waiting, attempts },
            Action::Wait(time),
        ),
    }
}

impl<P: Copy, E> Reconnection<P, E> {
    /// Starts with a first attempt, which goes through `proxy` if there is one.
    pub fn start<S>(proxy: Option<P>) -> (started: (Self, Action<P, S, E>))
        ensures
            started.0 == (Reconnection { proxy, phase: Phase::<E>::Connecting, attempts: 0 }),
            started.1 == attempt::<P, S, E>(proxy),
    {
        let state = Reconnection { proxy, phase: Phase::Connecting, attempts: 0 };
        let action = state.connect();
        (state, action)
    }

    fn connect<S>(&self) -> (action: Action<P, S, E>)
        ensures
            action == attempt::<P, S, E>(self.proxy),
    {
        match self.proxy {
            Some(proxy) => Action::ConnectVia(proxy),
            None => Action::Connect,
        }
    }

    /// What to do next after `event`.
    pub fn on<S>(self, event: Event<S, E>) -> (done: (Self, Action<P, S, E>))
        requires
            expected(self.phase, event),
            event is Failed ==> self.attempts < usize::MAX,
        ensures
            done == next(self, event),
    {
        let Reconnection { proxy, phase, attempts } = self;
        match (phase, event) {
            (Phase::Asking(_), Event::Allowed(time)) => {
                (Reconnection { proxy, phase: Phase::Waiting, attempts }, Action::Wait(time))
            },
            (Phase::Asking(error), _) => {
                (Reconnection { proxy, phase: Phase::GaveUp, attempts }, Action::GiveUp(error))
            },
            (Phase::Pausing(error), _) => (
                Reconnection { proxy, phase: Phase::Asking(error), attempts },
                Action::AskPolicy(attempts),
            ),
            (_, Event::Connected(stream)) => {
                (Reconnection { proxy, phase: Phase::Connected, attempts }, Action::Succeed(stream))
            },
            (_, Event::Failed(error)) => {
                let attempts: usize = attempts + 1;
                (Reconnection { proxy, phase: Phase::Pausing(error), attempts }, Action::Pause)
            },
            _ => {
                let state = Reconnection { proxy, phase: Phase::Connecting, attempts };
                let action = state.connect();
                (state, action)
            },
        }
    }
}

/// Whether to connect again after an error: only an error of the connection itself calls for it,
/// and only if the policy allows it.
pub fn reconnects(io: bool, may_retry: bool) -> (reconnect: bool)
    ensures
        reconnect == (io && may_retry),
{
    io && may_retry
}

/// Where connecting again stands after attempts that failed with `errors` and were allowed to be
/// followed by another, after `time` each.
pub open spec fn after_failures<P, S, E>(
    proxy: Option<P>,
    errors: Seq<E>,
    time: Duration,
) -> Reconnection<P, E>
    decreases errors.len(),
{
    if errors.len() == 0 {
        Reconnection { proxy, phase: Phase::Connecting, attempts: 0 }
    } else {
        let tried = after_failures::<P, S, E>(proxy, errors.drop_last(), time);
        let paused = next::<P, S, E>(tried, Event::Failed(errors.last())).0;
        let asked = next::<P, S, E>(paused, Event::Waited).0;
        let waited = next::<P, S, E>(asked, Event::Allowed(time)).0;
        next::<P, S, E>(waited, Event::Waited).0
    }
}

/// As long as the policy allows it, there is another attempt after every failure, by the same
/// route, and the policy is asked with the number of failures so far. Once it refuses, the last
/// failure is reported. The connection of an attempt that succeeds is the one that is used.
pub proof fn law_policy_decides<P, S, E>(
    proxy: Option<P>,
    errors: Seq<E>,
    time: Duration,
    error: E,
    stream: S,
)
    requires
        errors.len() < usize::MAX,
    ensures
        ({
            let tried = after_failures::<P, S, E>(proxy, errors, time);
            let paused = next::<P, S, E>(tried, Event::Failed(error)).0;
            let (asked, question) = next::<P, S, E>(paused, Event::Waited);
            let (waiting, wait) = next::<P, S, E>(asked, Event::Allowed(time));
            &&& tried.phase is Connecting
            &&& tried.attempts == errors.len()
            &&& tried.proxy == proxy
            &&& expected(tried.phase, Event::<S, E>::Connected(stream))
            &&& next::<P, S, E>(tried, Event::Connected(stream)).1 == Action::<P, S, E>::Succeed(
                stream,
            )
            &&& expected(tried.phase, Event::<S, E>::Failed(error))
            &&& expected(paused.phase, Event::<S, E>::Waited)
            &&& question == Action::<P, S, E>::AskPolicy((errors.len() + 1) as usize)
            &&& expected(asked.phase, Event::<S, E>::Refused)
            &&& next::<P, S, E>(asked, Event::Refused).1 == Action::<P, S, E>::GiveUp(error)
            &&& wait == Action::<P, S, E>::Wait(time)
            &&& expected(waiting.phase, Event::<S, E>::Waited)
            &&& next::<P, S, E>(waiting, Event::Waited).1 == attempt::<P, S, E>(proxy)
            &&& match proxy {
                Some(proxy) => attempt::<P, S, E>(Some(proxy)) == Action::<P, S, E>::ConnectVia(
                    proxy,
                ),
                None => attempt::<P, S, E>(None) == Action::<P, S, E>::Connect,
            }
            &&& next::<P, S, E>(tried, Event::Failed(error)).1 == Action::<P, S, E>::Pause
            &&& FAILURE_PAUSE == 1
        }),
    decreases errors.len(),
{
    if errors.len() > 0 {
        law_policy_decides::<P, S, E>(proxy, errors.drop_last(), time, errors.last(), stream);
    }
}

/// The identifier for a ping and what to remember as the last one. The clock gives the first.
pub open spec fn next_id(last: i64, now: i64) -> (i64, i64) {
    let id = if last == 0 {
        now
    } else {
        last
    };
    (id, if id == i64::MAX {
        i64::MIN
    } else {
        (id + 1) as i64
    })
}

/// The identifier for a ping and what to remember as the last one; `now` is what the clock says
/// and is used only for the first.
pub fn generate_random_id(last: i64, now: i64) -> (ids: (i64, i64))
    ensures
        ids == next_id(last, now),
{
    let id: i64 = if last == 0 {
        now
    } else {
        last
    };
    if id == i64::MAX {
        (id, i64::MIN)
    } else {
        (id, id + 1)
    }
}

/// Two pings in a row never have the same identifier, unless the count went through zero and the
/// clock was asked again.
pub proof fn law_ids_differ(last: i64, now: i64, later: i64)
    requires
        next_id(last, now).1 != 0,
    ensures
        ({
            let (id, remembered) = next_id(last, now);
            next_id(remembered, later).0 != id
        }),
{
}

/// The clock gives the identifier of the first ping, and every other one follows the one before it;
/// after the greatest comes the least.
pub proof fn law_ids_follow_each_other(last: i64, now: i64, later: i64)
    ensures
        next_id(0, now).0 == now,
        last != 0 ==> next_id(last, now).0 == last,
        ({
            let (id, remembered) = next_id(last, now);
            remembered != 0 && id < i64::MAX ==> next_id(remembered, later).0 == id + 1
        }),
        ({
            let (id, remembered) = next_id(last, now);
            id == i64::MAX ==> next_id(remembered, later).0 == i64::MIN
        }),
{
}

} // verus!
