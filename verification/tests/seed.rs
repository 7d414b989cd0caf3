use extrinsic_shuffler::seed::{
    inherent_applied, seed_result, signer_of, start_inherents, Error, InherentsAction,
    INHERENT_COUNT,
};

#[test]
fn error_messages() {
    assert_eq!(Error::InherentApplyError.message(), "Cannot apply inherents");
    assert_eq!(Error::SeedFetchingError.message(), "Cannot read seed from the runtime api ");
}

#[test]
fn signer_of_cases() {
    let who = [5u8; 32];
    assert_eq!(signer_of::<()>(Ok(Some(who))), Some(who));
    assert_eq!(signer_of::<()>(Ok(None)), None);
    assert_eq!(signer_of::<&str>(Err("runtime error")), None);
}

#[test]
fn seed_result_cases() {
    assert_eq!(seed_result::<[u8; 32], ()>(Ok([1u8; 32])), Ok([1u8; 32]));
    assert_eq!(seed_result::<[u8; 32], &str>(Err("no seed")), Err(Error::SeedFetchingError));
}

type Outcome = Result<Result<Result<(), u8>, u16>, u32>;

#[test]
fn inherents_all_succeed() {
    assert_eq!(INHERENT_COUNT, 2);
    let (run, action) = start_inherents(5);
    assert_eq!(run.total, 2);
    assert_eq!(action, InherentsAction::Apply(0));
    let ok: Outcome = Ok(Ok(Ok(())));
    let (run, action) = inherent_applied(run, &ok);
    assert_eq!(action, InherentsAction::Apply(1));
    let (run, action) = inherent_applied(run, &ok);
    assert_eq!(run.applied, 2);
    assert_eq!(action, InherentsAction::FetchSeed);
}

#[test]
fn inherents_short_blocks() {
    let (run, action) = start_inherents(0);
    assert_eq!(run.total, 0);
    assert_eq!(action, InherentsAction::FetchSeed);
    let (run, action) = start_inherents(1);
    assert_eq!(run.total, 1);
    assert_eq!(action, InherentsAction::Apply(0));
    let ok: Outcome = Ok(Ok(Ok(())));
    let (_, action) = inherent_applied(run, &ok);
    assert_eq!(action, InherentsAction::FetchSeed);
}

#[test]
fn inherents_failure_stops() {
    let failures: Vec<Outcome> = vec![Ok(Ok(Err(1))), Ok(Err(2)), Err(3)];
    for f in failures.iter() {
        let (run, _) = start_inherents(3);
        let (run, action) = inherent_applied(run, f);
        assert_eq!(run.applied, 0);
        assert_eq!(action, InherentsAction::Fail(Error::InherentApplyError));
    }
    let (run, _) = start_inherents(3);
    let ok: Outcome = Ok(Ok(Ok(())));
    let (run, _) = inherent_applied(run, &ok);
    let bad: Outcome = Err(7);
    let (run, action) = inherent_applied(run, &bad);
    assert_eq!(run.applied, 1);
    assert_eq!(action, InherentsAction::Fail(Error::InherentApplyError));
}
