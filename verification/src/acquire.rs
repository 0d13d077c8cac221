//! What becomes of the three acquisitions once each has ended: all three
//! datasets, or every failure.

use crate::error::OldeError;
use crate::progress::TaskProgress;
use vstd::prelude::*;

verus! {

/// The failure of one acquisition, if it failed.
pub open spec fn failure_of<T>(outcome: Result<T, OldeError>) -> Seq<OldeError> {
    match outcome {
        Ok(_) => Seq::empty(),
        Err(e) => seq![e],
    }
}

/// The failures of three acquisitions, first to last.
pub open spec fn failures<A, B, C>(
    first: Result<A, OldeError>,
    second: Result<B, OldeError>,
    third: Result<C, OldeError>,
) -> Seq<OldeError> {
    failure_of(first) + failure_of(second) + failure_of(third)
}

/// How many of three acquisitions failed.
pub open spec fn failed_count<A, B, C>(
    first: Result<A, OldeError>,
    second: Result<B, OldeError>,
    third: Result<C, OldeError>,
) -> int {
    (if first is Err {
        1int
    } else {
        0int
    }) + (if second is Err {
        1int
    } else {
        0int
    }) + (if third is Err {
        1int
    } else {
        0int
    })
}

/// As many failures are reported as acquisitions failed: none is hidden by
/// another.
pub proof fn lemma_every_failure_reported<A, B, C>(
    first: Result<A, OldeError>,
    second: Result<B, OldeError>,
    third: Result<C, OldeError>,
)
    ensures
        failures(first, second, third).len() == failed_count(first, second, third),
{
}

/// Notes how an acquisition ended. Says whether the other acquisitions are
/// to be called off: that is so if this one failed.
pub fn settle<T>(progress: &mut TaskProgress, outcome: &Result<T, OldeError>) -> (cancel: bool)
    ensures
        cancel == (outcome is Err),
        final(progress).failed == (old(progress).failed || outcome is Err),
        final(progress).name == old(progress).name,
        final(progress).started == old(progress).started,
{
    match outcome {
        Ok(_) => false,
        Err(_) => {
            progress.fail();
            true
        },
    }
}

/// Brings the outcomes of three acquisitions together.
///
/// Where all three succeeded, gives the three datasets. Where any failed,
/// gives all the failures together, in the order of the acquisitions.
pub fn collect<A, B, C>(
    first: Result<A, OldeError>,
    second: Result<B, OldeError>,
    third: Result<C, OldeError>,
) -> (r: Result<(A, B, C), OldeError>)
    ensures
        match (first, second, third) {
            (Ok(a), Ok(b), Ok(c)) => r == Ok::<(A, B, C), OldeError>((a, b, c)),
            _ => r is Err && r->Err_0.is_multiple(failures(first, second, third)),
        },
        r is Err ==> (r->Err_0 matches OldeError::MultipleErrors(errs) && errs@.len()
            == failed_count(first, second, third)),
{
    match (first, second, third) {
        (Ok(a), Ok(b), Ok(c)) => Ok((a, b, c)),
        (first, second, third) => {
            let mut errs: Vec<OldeError> = Vec::new();
            if let Err(e) = first {
                errs.push(e);
            }
            if let Err(e) = second {
                errs.push(e);
            }
            if let Err(e) = third {
                errs.push(e);
            }
            assert(errs@ =~= failures(first, second, third));
            Err(OldeError::MultipleErrors(errs))
        },
    }
}

} // verus!
