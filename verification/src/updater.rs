//! Aggregation of the update run's per-action outcomes.
//!
//! Executing the actions against the remote store is I/O and lives outside
//! the library. Each remote call either succeeds or yields one failure —
//! the term, the translation text, and a reason. A failing call must not
//! abort the rest of the run: the failures are collected per action and
//! reported together at the end.

use vstd::prelude::*;

verus! {

/// Why an update run failed: either no client could be created at all, or
/// some of the remote calls failed, each recorded with its term, its
/// translation text and the reason.
#[derive(Debug)]
pub enum Error {
    ClientCreation(String),
    Update(Vec<(String, String, String)>),
}

/// The outcome of one update run.
pub type UpdateResult = Result<(), Error>;

/// Folds the failures collected over one update run into its result: a run
/// without failures succeeded; otherwise every collected failure is
/// reported and none is dropped.
pub fn collect_update_result(failures: Vec<(String, String, String)>) -> (r: UpdateResult)
    ensures
        failures@.len() == 0 <==> r is Ok,
        match r {
            Result::Ok(_) => failures@.len() == 0,
            Result::Err(Error::Update(f)) => f@ == failures@ && failures@.len() > 0,
            Result::Err(Error::ClientCreation(_)) => false,
        },
{
    if failures.len() == 0 {
        Ok(())
    } else {
        Err(Error::Update(failures))
    }
}

} // verus!
