//! The single-flight decision functions on concrete observations.

use aba_cache::flight::{get_or_update_step, get_step, put_step, CacheError, GetStep, Probe,
    UpdateStep};

#[test]
fn get_resolves_missing_and_ready() {
    assert!(matches!(get_step::<u32>(Probe::Missing), GetStep::Done(None)));
    assert!(matches!(get_step(Probe::Ready(5u32)), GetStep::Done(Some(5))));
    assert!(matches!(get_step::<u32>(Probe::Pending), GetStep::Wait));
}

#[test]
fn get_or_update_starts_only_on_missing() {
    assert!(matches!(get_or_update_step::<u32>(Probe::Missing), UpdateStep::Start));
    assert!(matches!(get_or_update_step(Probe::Ready(9u32)), UpdateStep::Done(9)));
    assert!(matches!(get_or_update_step::<u32>(Probe::Pending), UpdateStep::Wait));
}

#[test]
fn put_is_rejected_exactly_while_in_flight() {
    assert_eq!(put_step::<u32>(Probe::Missing), Ok(None));
    assert_eq!(put_step(Probe::Ready(3u32)), Ok(Some(3)));
    assert_eq!(
        put_step::<u32>(Probe::Pending),
        Err(CacheError::UpdateInProgress)
    );
}
