use nix_olde::acquire::{collect, settle};
use nix_olde::error::OldeError;
use nix_olde::progress::TaskProgress;

fn canceled(what: &str) -> OldeError {
    OldeError::Canceled(what.to_string())
}

fn empty(what: &str) -> OldeError {
    OldeError::EmptyOutput(what.to_string())
}

#[test]
fn three_successes_give_the_three_datasets() {
    let r: Result<u8, OldeError> = Ok(1);
    let i: Result<&str, OldeError> = Ok("two");
    let a: Result<Vec<u8>, OldeError> = Ok(vec![3]);
    assert_eq!(collect(r, i, a), Ok((1, "two", vec![3])));
}

#[test]
fn two_failures_of_three_are_both_reported() {
    let r: Result<u8, OldeError> = Err(canceled("Repology fetch"));
    let i: Result<u8, OldeError> = Ok(2);
    let a: Result<u8, OldeError> = Err(empty("nix-env query"));
    match collect(r, i, a) {
        Err(OldeError::MultipleErrors(errs)) => {
            assert_eq!(errs.len(), 2);
            assert_eq!(errs, vec![canceled("Repology fetch"), empty("nix-env query")]);
        },
        other => panic!("{:?}", other),
    }
}

#[test]
fn one_failure_is_reported_alone() {
    let r: Result<u8, OldeError> = Ok(1);
    let i: Result<u8, OldeError> = Err(empty("nix show-derivation"));
    let a: Result<u8, OldeError> = Ok(3);
    assert_eq!(
        collect(r, i, a),
        Err(OldeError::MultipleErrors(vec![empty("nix show-derivation")]))
    );
}

#[test]
fn three_failures_are_reported_in_the_order_of_the_acquisitions() {
    let r: Result<u8, OldeError> = Err(canceled("Repology fetch"));
    let i: Result<u8, OldeError> = Err(OldeError::IOError("no such file".to_string()));
    let a: Result<u8, OldeError> =
        Err(OldeError::MultipleErrors(vec![empty("a"), empty("b")]));
    assert_eq!(
        collect(r, i, a),
        Err(OldeError::MultipleErrors(vec![
            canceled("Repology fetch"),
            OldeError::IOError("no such file".to_string()),
            OldeError::MultipleErrors(vec![empty("a"), empty("b")]),
        ]))
    );
}

#[test]
fn a_failure_calls_the_others_off() {
    let mut progress = TaskProgress::new("installed".to_string(), 5);
    let failed: Result<u8, OldeError> = Err(empty("nix show-derivation"));
    assert!(settle(&mut progress, &failed));
    assert!(progress.failed);
    assert_eq!(progress.status(), "failed");
    assert_eq!(progress.name, "installed");
}

#[test]
fn a_success_calls_nothing_off() {
    let mut progress = TaskProgress::new("available".to_string(), 5);
    let fine: Result<u8, OldeError> = Ok(1);
    assert!(!settle(&mut progress, &fine));
    assert!(!progress.failed);
    assert_eq!(progress.status(), "done");
}

#[test]
fn progress_measures_the_time_taken() {
    let mut progress = TaskProgress::new("repology".to_string(), 1_000);
    assert_eq!(progress.started, 1_000);
    assert_eq!(progress.took(3_500), 2_500);
    assert_eq!(progress.took(1_000), 0);
    assert_eq!(progress.took(10), 0);
    progress.fail();
    assert!(progress.failed);
    assert_eq!(progress.started, 1_000);
}
