//! The reconnect and rejoin backoff: a ladder of delays, plus jitter.

use std::collections::hash_map::{DefaultHasher, RandomState};
use std::hash::{BuildHasher, Hasher};

use vstd::prelude::*;

verus! {

/// The ladder, in milliseconds. The last rung is the interval once the ladder
/// is exhausted.
pub open spec fn rung(attempt: nat) -> u64 {
    if attempt == 0 {
        10
    } else if attempt == 1 {
        50
    } else if attempt == 2 {
        100
    } else if attempt == 3 {
        150
    } else if attempt == 4 {
        200
    } else if attempt == 5 {
        250
    } else if attempt == 6 {
        500
    } else if attempt == 7 {
        1000
    } else if attempt == 8 {
        2000
    } else {
        5000
    }
}

/// Jitter is added on top of the rung, up to this fraction of it, so that a
/// fleet of clients reconnecting at once spreads out.
pub const JITTER_DENOMINATOR: u64 = 4;

/// The delay of an attempt whose jitter is drawn from `seed`.
pub open spec fn delay(attempt: nat, seed: u64) -> int {
    rung(attempt) + seed % ((rung(attempt) / JITTER_DENOMINATOR + 1) as u64)
}

/// The attempt after this one; the count holds at its largest.
pub open spec fn after(attempt: usize) -> usize {
    if attempt == usize::MAX {
        attempt
    } else {
        (attempt + 1) as usize
    }
}

/// `RandomState::new`. Its keys differ between calls and between processes, so
/// nothing is claimed of them.
#[verifier::external_body]
fn fresh_keys() -> RandomState {
    RandomState::new()
}

/// `BuildHasher::build_hasher` of a `RandomState`. Nothing is claimed of the
/// hasher.
#[verifier::external_body]
fn fresh_hasher(keys: &RandomState) -> DefaultHasher {
    keys.build_hasher()
}

/// A number that varies from call to call and from process to process.
///
/// Fresh keys every time are what varies it: the same empty input hashes
/// differently under each. What it is rests on chance, so nothing is said of it.
pub fn fresh_seed() -> u64 {
    let keys = fresh_keys();
    let hasher = fresh_hasher(&keys);
    hasher.finish()
}

/// The ladder, with a cursor.
#[derive(Debug, Clone, Copy, PartialEq, Eq, Structural)]
pub struct Backoff {
    attempt: usize,
}

impl Backoff {
    /// How many delays have been taken since the last reset.
    pub closed spec fn taken(self) -> usize {
        self.attempt
    }

    /// A ladder at its first rung.
    pub fn new() -> (backoff: Backoff)
        ensures
            backoff.taken() == 0,
    {
        Backoff { attempt: 0 }
    }

    /// The delay for the current attempt, in milliseconds, and advances the
    /// cursor.
    ///
    /// The base delay walks the ladder and then holds at its last rung; the
    /// result is the base plus up to a quarter of it.
    pub fn next_delay(&mut self) -> (ms: u64)
        ensures
            rung(old(self).taken() as nat) <= ms <= rung(old(self).taken() as nat) + rung(
                old(self).taken() as nat,
            ) / JITTER_DENOMINATOR,
            final(self).taken() == after(old(self).taken()),
    {
        let seed = fresh_seed();
        self.delay_from(seed)
    }

    /// The delay for the current attempt with its jitter drawn from `seed`, and
    /// advances the cursor.
    pub fn delay_from(&mut self, seed: u64) -> (ms: u64)
        ensures
            ms == delay(old(self).taken() as nat, seed),
            rung(old(self).taken() as nat) <= ms <= rung(old(self).taken() as nat) + rung(
                old(self).taken() as nat,
            ) / JITTER_DENOMINATOR,
            final(self).taken() == after(old(self).taken()),
    {
        let base = Backoff::base_ms(self.attempt);
        self.attempt = self.attempt.saturating_add(1);
        let jitter: u64 = seed % (base / JITTER_DENOMINATOR + 1);
        base + jitter
    }

    /// Rewinds to the first rung, after a successful open or join.
    pub fn reset(&mut self)
        ensures
            final(self).taken() == 0,
    {
        self.attempt = 0;
    }

    fn base_ms(attempt: usize) -> (ms: u64)
        ensures
            ms == rung(attempt as nat),
    {
        let ladder: [u64; 10] = [10, 50, 100, 150, 200, 250, 500, 1000, 2000, 5000];
        let at: usize = if attempt < 9 {
            attempt
        } else {
            9
        };
        ladder[at]
    }
}

impl Default for Backoff {
    fn default() -> (backoff: Backoff)
        ensures
            backoff.taken() == 0,
    {
        Backoff::new()
    }
}

/// Every delay stands in the jittered band of its rung, and the rungs never go
/// down: a later attempt waits no less than the rung of an earlier one.
pub proof fn delays_stay_in_their_band(attempt: nat, later: nat, seed: u64)
    requires
        attempt <= later,
    ensures
        rung(attempt) <= delay(attempt, seed) <= rung(attempt) + rung(attempt)
            / JITTER_DENOMINATOR,
        rung(attempt) <= rung(later) <= 5000,
        delay(attempt, seed) <= 6250,
{
}

} // verus!
