//! Randomness and the clock.

use std::time::{Duration, SystemTime, UNIX_EPOCH};
use vstd::prelude::*;

use crate::errors::MtProxyError;
use crate::octets::append;

verus! {

/// A reading of the system clock.
#[verifier::external_type_specification]
#[verifier::external_body]
pub struct ExSystemTime(std::time::SystemTime);

/// `std::time::SystemTime::now`: nothing is said of the reading.
pub assume_specification[ std::time::SystemTime::now ]() -> SystemTime
;

/// `std::time::SystemTime::duration_since` the Unix epoch, nothing for a reading before it.
/// Nothing is said of the time passed.
#[verifier::external_body]
fn since_unix_epoch(reading: SystemTime) -> Option<Duration> {
    reading.duration_since(UNIX_EPOCH).ok()
}

/// `std::time::Duration::as_secs`: nothing is said of the count.
pub assume_specification[ std::time::Duration::as_secs ](time: &Duration) -> u64
;

/// `getrandom::getrandom`: the buffer keeps its length, and filling an empty buffer succeeds.
/// Nothing is said of what the buffer holds afterwards, nor of when else the source fails.
#[verifier::external_body]
fn fill_from_system(dest: &mut [u8]) -> (filled: Result<(), getrandom::Error>)
    ensures
        final(dest)@.len() == old(dest)@.len(),
        old(dest)@.len() == 0 ==> filled is Ok,
{
    getrandom::getrandom(dest)
}

/// The low 32 bits of the seconds since the Unix epoch; zero before it. Which number that is, is
/// up to the clock; what a reading of the clock comes to is said by `time_stamp`.
pub fn unix_time() -> u32 {
    let seconds: Option<u64> = match since_unix_epoch(SystemTime::now()) {
        Some(time) => Some(time.as_secs()),
        None => None,
    };
    time_stamp(seconds)
}

/// The low 32 bits of `seconds` since the Unix epoch; zero where there are none, since the clock
/// is set before it.
pub fn time_stamp(seconds: Option<u64>) -> (stamp: u32)
    ensures
        stamp == match seconds {
            Some(seconds) => seconds as int % 0x1_0000_0000,
            None => 0,
        },
{
    match seconds {
        Some(seconds) => (seconds % 0x1_0000_0000) as u32,
        None => 0,
    }
}

/// Fills `dest` with random bytes; a failure of the random source is the only error, and an
/// empty `dest` never meets one. Which bytes they are, and when else the source fails, is up to
/// the source; what its verdict comes to is said by `drawn`.
pub fn random_bytes(dest: &mut [u8]) -> (filled: Result<(), MtProxyError>)
    ensures
        final(dest)@.len() == old(dest)@.len(),
        filled is Err ==> filled->Err_0 is Random,
        old(dest)@.len() == 0 ==> filled is Ok,
{
    drawn(fill_from_system(dest))
}

/// What the random source's verdict comes to: its error is handed on.
pub fn drawn(verdict: Result<(), getrandom::Error>) -> (filled: Result<(), MtProxyError>)
    ensures
        match verdict {
            Ok(()) => filled is Ok,
            Err(err) => filled == Err::<(), MtProxyError>(MtProxyError::Random(err)),
        },
{
    match verdict {
        Ok(()) => Ok(()),
        Err(err) => Err(MtProxyError::Random(err)),
    }
}

/// Appends `len` random bytes to `out`.
pub fn push_random(out: &mut Vec<u8>, len: usize) -> (pushed: Result<(), MtProxyError>)
    ensures
        final(out)@.len() == old(out)@.len() + len,
        final(out)@.take(old(out)@.len() as int) == old(out)@,
        pushed is Err ==> pushed->Err_0 is Random,
        len == 0 ==> pushed is Ok,
{
    let mut tail: Vec<u8> = vec![0u8; len];
    let pushed = random_bytes(&mut tail);
    append(out, &tail);
    assert(out@.take(old(out)@.len() as int) =~= old(out)@);
    pushed
}

/// One draw from the random source: what the buffer held afterwards, and whether it was filled.
pub struct Draw {
    pub bytes: Seq<u8>,
    pub filled: Result<(), MtProxyError>,
}

/// The random source and, for the sake of contracts, all draws from it so far.
pub struct Draws {
    made: Ghost<Seq<Draw>>,
}

impl Draws {
    /// All draws so far.
    pub closed spec fn made(self) -> Seq<Draw> {
        self.made@
    }

    /// A source that nothing was drawn from yet.
    pub fn new() -> (draws: Self)
        ensures
            draws.made() == Seq::<Draw>::empty(),
    {
        Draws { made: Ghost(Seq::empty()) }
    }

    /// Fills `dest` with random bytes.
    pub fn draw(&mut self, dest: &mut [u8]) -> (filled: Result<(), MtProxyError>)
        ensures
            final(dest)@.len() == old(dest)@.len(),
            filled is Err ==> filled->Err_0 is Random,
            final(self).made() == old(self).made().push(Draw { bytes: final(dest)@, filled }),
    {
        let filled = random_bytes(dest);
        proof {
            self.made@ = self.made@.push(Draw { bytes: dest@, filled });
        }
        filled
    }

    /// Appends `len` random bytes to `out`.
    pub fn push(&mut self, out: &mut Vec<u8>, len: usize) -> (filled: Result<(), MtProxyError>)
        ensures
            final(out)@.len() == old(out)@.len() + len,
            final(out)@.take(old(out)@.len() as int) == old(out)@,
            filled is Err ==> filled->Err_0 is Random,
            final(self).made() == old(self).made().push(
                Draw { bytes: final(out)@.skip(old(out)@.len() as int), filled },
            ),
    {
        let filled = push_random(out, len);
        proof {
            self.made@ = self.made@.push(
                Draw { bytes: out@.skip(old(out)@.len() as int), filled },
            );
        }
        filled
    }
}

} // verus!
