use vstd::prelude::*;

use crate::shuffle::{AccountId, Signer};

verus! {

/// Why the seed for a block could not be obtained.
#[derive(Debug, Clone, Copy, PartialEq, Eq, Structural)]
pub enum Error {
    /// Applying one of the inherent extrinsics failed.
    InherentApplyError,
    /// The runtime did not hand out the seed.
    SeedFetchingError,
}

/// The text that describes an error.
pub open spec fn error_message(e: Error) -> Seq<char> {
    match e {
        Error::InherentApplyError => "Cannot apply inherents"@,
        Error::SeedFetchingError => "Cannot read seed from the runtime api "@,
    }
}

impl Error {
    /// The text that describes the error.
    pub fn message(&self) -> (m: &'static str)
        ensures
            m@ == error_message(*self),
    {
        match self {
            Error::InherentApplyError => "Cannot apply inherents",
            Error::SeedFetchingError => "Cannot read seed from the runtime api ",
        }
    }
}

/// How many leading extrinsics of a block are applied, as inherents, before
/// the seed is read.
pub const INHERENT_COUNT: usize = 2;

/// The signer that the runtime reported for an extrinsic: the account when
/// the runtime named one, and nobody when it named none or the query
/// failed.
pub fn signer_of<E>(reported: Result<Option<AccountId>, E>) -> (s: Signer)
    ensures
        s == match reported {
            Ok(Some(who)) => Some(who),
            _ => None,
        },
{
    match reported {
        Ok(Some(who)) => Some(who),
        _ => None,
    }
}

/// The seed that the runtime handed out, or `SeedFetchingError` when the
/// query failed.
pub fn seed_result<S, E>(fetched: Result<S, E>) -> (r: Result<S, Error>)
    ensures
        match fetched {
            Ok(seed) => r == Ok::<S, Error>(seed),
            Err(_) => r == Err::<S, Error>(Error::SeedFetchingError),
        },
{
    match fetched {
        Ok(seed) => Ok(seed),
        Err(_) => Err(Error::SeedFetchingError),
    }
}

/// Progress through the inherents of a block: how many are to be applied
/// and how many have been applied with success.
pub struct InherentsRun {
    pub total: usize,
    pub applied: usize,
}

/// What to do next while the inherents are applied.
#[derive(Debug, Clone, Copy, PartialEq, Eq, Structural)]
pub enum InherentsAction {
    /// Apply the extrinsic at this position of the block.
    Apply(usize),
    /// All inherents were applied: read the seed.
    FetchSeed,
    /// Stop with this error.
    Fail(Error),
}

/// The next action once `applied` of `total` inherents went through.
pub open spec fn next_action(total: nat, applied: nat) -> InherentsAction {
    if applied < total {
        InherentsAction::Apply(applied as usize)
    } else {
        InherentsAction::FetchSeed
    }
}

/// Starts applying the inherents of a block of `n_extrinsics` extrinsics:
/// the first `INHERENT_COUNT` of them, or all when there are fewer.
pub fn start_inherents(n_extrinsics: usize) -> (r: (InherentsRun, InherentsAction))
    ensures
        r.0.total == if n_extrinsics < INHERENT_COUNT {
            n_extrinsics
        } else {
            INHERENT_COUNT
        },
        r.0.applied == 0,
        r.1 == next_action(r.0.total as nat, 0),
{
    let total = if n_extrinsics < INHERENT_COUNT {
        n_extrinsics
    } else {
        INHERENT_COUNT
    };
    let run = InherentsRun { total, applied: 0 };
    let action = if total > 0 {
        InherentsAction::Apply(0)
    } else {
        InherentsAction::FetchSeed
    };
    (run, action)
}

/// Takes the outcome of applying the inherent at position `run.applied`.
/// The inherent went through only when the call, the validity check and
/// the dispatch all succeeded; any failure ends the run with
/// `InherentApplyError`, and no further inherent is applied.
pub fn inherent_applied<V, E1, E2, E3>(
    run: InherentsRun,
    outcome: &Result<Result<Result<V, E1>, E2>, E3>,
) -> (r: (InherentsRun, InherentsAction))
    requires
        run.applied < run.total,
    ensures
        match outcome {
            Ok(Ok(Ok(_))) => {
                &&& r.0.total == run.total
                &&& r.0.applied == run.applied + 1
                &&& r.1 == next_action(run.total as nat, (run.applied + 1) as nat)
            },
            _ => {
                &&& r.0.total == run.total
                &&& r.0.applied == run.applied
                &&& r.1 == InherentsAction::Fail(Error::InherentApplyError)
            },
        },
{
    match outcome {
        Ok(Ok(Ok(_))) => {
            let applied = run.applied + 1;
            let action = if applied < run.total {
                InherentsAction::Apply(applied)
            } else {
                InherentsAction::FetchSeed
            };
            (InherentsRun { total: run.total, applied }, action)
        },
        _ => (
            InherentsRun { total: run.total, applied: run.applied },
            InherentsAction::Fail(Error::InherentApplyError),
        ),
    }
}

} // verus!
