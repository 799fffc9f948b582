//! `protect_cause` narrows a scope to one cause: a matching cause lands in it, any
//! other resolves to the next accepting scope around it, or to none.
//!
//! A jump is played by returning `None` from the code of the scope that was hit.

use setback::{
    protect, protect_cause, recover, RecoveryError, RecoveryFailure, SharedRegistry, UNREPORTED,
};

const OOM: i32 = 2;
const STACK_OVERFLOW: i32 = 1;

#[test]
fn matching_cause_recovers() {
    const TID: usize = 71;
    let reg = SharedRegistry::new();

    let r: Result<(), RecoveryError> = protect_cause(&mut reg.access(), TID, OOM, 0x7100, || {
        assert_eq!(recover(&mut reg.access(), TID, OOM), Ok(0x7100));
        None
    });

    assert_eq!(r, Err(RecoveryError { cause: OOM }));
}

#[test]
fn non_matching_cause_is_skipped() {
    const TID: usize = 72;
    let reg = SharedRegistry::new();

    let r: Result<&str, RecoveryError> = protect_cause(&mut reg.access(), TID, OOM, 0x7200, || {
        let miss = recover(&mut reg.access(), TID, STACK_OVERFLOW);
        assert_eq!(miss, Err(RecoveryFailure));
        Some("ran to completion")
    });

    assert_eq!(r, Ok("ran to completion"));
}

#[test]
fn non_matching_inner_resolves_to_outer() {
    const TID: usize = 73;
    let reg = SharedRegistry::new();

    let outer: Result<(), RecoveryError> = protect(&mut reg.access(), TID, 0x7300, || {
        let inner = &mut reg.access();
        let _inner: Result<(), RecoveryError> = protect_cause(inner, TID, OOM, 0x7310, || {
            // The inner scope accepts only `OOM`, so this resolves to the outer one.
            assert_eq!(recover(&mut reg.access(), TID, STACK_OVERFLOW), Ok(0x7300));
            None
        });
        None
    });

    assert_eq!(outer, Err(RecoveryError { cause: STACK_OVERFLOW }));
    assert_eq!(recover(&mut reg.access(), TID, OOM), Err(RecoveryFailure));
}

/// The scopes that a jump abandons leave the registry with it.
#[test]
fn abandoned_scope_cannot_be_found_again() {
    const TID: usize = 74;
    let reg = SharedRegistry::new();

    let outer: Result<(), RecoveryError> = protect(&mut reg.access(), TID, 0x7400, || {
        let inner = &mut reg.access();
        let _inner: Result<(), RecoveryError> = protect_cause(inner, TID, OOM, 0x7410, || {
            assert_eq!(recover(&mut reg.access(), TID, OOM), Ok(0x7410));
            assert_eq!(recover(&mut reg.access(), TID, STACK_OVERFLOW), Ok(0x7400));
            assert_eq!(recover(&mut reg.access(), TID, OOM), Ok(0x7400));
            None
        });
        None
    });

    assert_eq!(outer, Err(RecoveryError { cause: OOM }));
}

/// Skipping goes on through any number of scopes.
#[test]
fn every_rejecting_scope_is_skipped() {
    const TID: usize = 75;
    let reg = SharedRegistry::new();

    let outer: Result<(), RecoveryError> = protect_cause(&mut reg.access(), TID, 9, 0x7500, || {
        let _: Result<(), RecoveryError> = protect_cause(&mut reg.access(), TID, 8, 0x7510, || {
            let _: Result<(), RecoveryError> = protect_cause(&mut reg.access(), TID, 7, 0x7520, || {
                assert_eq!(recover(&mut reg.access(), TID, 6), Err(RecoveryFailure));
                assert_eq!(recover(&mut reg.access(), TID, 9), Ok(0x7500));
                None
            });
            None
        });
        None
    });

    assert_eq!(outer, Err(RecoveryError { cause: 9 }));
}

/// A recovery into a scope around takes the mark out of the scope that it jumps past.
/// Were that scope to answer nevertheless, it would have no cause to report.
#[test]
fn scope_that_was_jumped_past_has_no_cause() {
    const TID: usize = 76;
    let reg = SharedRegistry::new();

    let outer: Result<(), RecoveryError> = protect(&mut reg.access(), TID, 0x7600, || {
        let inner = &mut reg.access();
        let inner: Result<(), RecoveryError> = protect_cause(inner, TID, OOM, 0x7610, || {
            assert_eq!(recover(&mut reg.access(), TID, STACK_OVERFLOW), Ok(0x7600));
            None
        });
        assert_eq!(inner, Err(RecoveryError { cause: UNREPORTED }));
        None
    });

    assert_eq!(outer, Err(RecoveryError { cause: STACK_OVERFLOW }));
}
