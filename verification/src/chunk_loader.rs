//! What a chunk loader does after each attempt to read a chunk from
//! storage: hand the bytes on, report the chunk missing, wait and try
//! again, or give up. The reads, the waits and the decoding are the
//! caller's.
use vstd::prelude::*;

verus! {

/// How many reads of a chunk are tried at most.
pub const CHUNK_LOAD_ATTEMPTS: u32 = 3;

/// The wait after the first failed read, in milliseconds; it doubles after
/// each further failure.
pub const CHUNK_LOAD_BASE_DELAY_MS: u64 = 100;

/// What one read of a chunk gave.
#[derive(Debug, Clone, Copy, PartialEq, Eq, Structural)]
pub enum LoadOutcome {
    /// The store had the bytes.
    Loaded,
    /// The store has no such chunk.
    Missing,
    /// The read failed.
    Failed,
}

/// What follows a read.
#[derive(Debug, Clone, Copy, PartialEq, Eq, Structural)]
pub enum LoadStep {
    /// Decode and cache the bytes that were read.
    Deliver,
    /// Report the chunk not found; a missing chunk is not read again.
    NotFound,
    /// Wait this many milliseconds, then read again.
    RetryAfterMs(u64),
    /// Report the failure: no attempt is left.
    GiveUp,
}

/// Two to the power `n`.
pub open spec fn doubling(n: nat) -> nat
    decreases n,
{
    if n == 0 {
        1
    } else {
        2 * doubling((n - 1) as nat)
    }
}

/// The wait after the failed read numbered `attempt` (from 0).
pub open spec fn backoff_ms(attempt: nat) -> nat {
    (CHUNK_LOAD_BASE_DELAY_MS as nat) * doubling(attempt)
}

/// The step after the read numbered `attempt` (from 0).
pub open spec fn load_step(attempt: nat, outcome: LoadOutcome) -> LoadStep {
    match outcome {
        LoadOutcome::Loaded => LoadStep::Deliver,
        LoadOutcome::Missing => LoadStep::NotFound,
        LoadOutcome::Failed => if attempt + 1 < CHUNK_LOAD_ATTEMPTS {
            LoadStep::RetryAfterMs(backoff_ms(attempt) as u64)
        } else {
            LoadStep::GiveUp
        },
    }
}

/// Decides what follows the read numbered `attempt` (from 0): the bytes are
/// handed on, a missing chunk is reported at once, and a failed read is
/// tried again after 100 ms, then 200 ms, until three reads have failed.
pub fn chunk_load_step(attempt: u32, outcome: LoadOutcome) -> (r: LoadStep)
    requires
        attempt < CHUNK_LOAD_ATTEMPTS,
    ensures
        r == load_step(attempt as nat, outcome),
{
    match outcome {
        LoadOutcome::Loaded => LoadStep::Deliver,
        LoadOutcome::Missing => LoadStep::NotFound,
        LoadOutcome::Failed => {
            if attempt + 1 < CHUNK_LOAD_ATTEMPTS {
                let mut delay: u64 = CHUNK_LOAD_BASE_DELAY_MS;
                let mut i: u32 = 0;
                while i < attempt
                    invariant
                        i <= attempt,
                        attempt < CHUNK_LOAD_ATTEMPTS,
                        delay == backoff_ms(i as nat),
                    decreases attempt - i,
                {
                    proof {
                        reveal_with_fuel(doubling, 3);
                    }
                    delay = delay * 2;
                    i = i + 1;
                }
                LoadStep::RetryAfterMs(delay)
            } else {
                LoadStep::GiveUp
            }
        },
    }
}

/// Failed reads are tried at most three times in all: whatever the
/// outcomes, the third read never leads to another one, and the waits
/// before the second and third reads are 100 ms and 200 ms.
pub proof fn law_chunk_load_bounded(outcome: LoadOutcome)
    ensures
        !(load_step(2, outcome) is RetryAfterMs),
        load_step(0, LoadOutcome::Failed) == LoadStep::RetryAfterMs(100),
        load_step(1, LoadOutcome::Failed) == LoadStep::RetryAfterMs(200),
        load_step(2, LoadOutcome::Failed) == LoadStep::GiveUp,
{
    reveal_with_fuel(doubling, 3);
}

} // verus!
