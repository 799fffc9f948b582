//! A cause chosen at `recover` is carried in the mark and comes back as
//! `RecoveryError::cause`.
//!
//! A jump is played by returning `None` from the code of the scope that was hit.

use setback::{
    conclude, protect, recover, Mark, RecoveryError, RecoveryFailure, SharedRegistry, ThreadId,
    UNREPORTED,
};

/// Enters a scope under `tid`, then recovers it with `cause` from inside its code.
fn roundtrip(tid: ThreadId, cause: i32) -> Result<(), RecoveryError> {
    let reg = SharedRegistry::new();
    protect(&mut reg.access(), tid, 0x1100, || {
        assert_eq!(recover(&mut reg.access(), tid, cause), Ok(0x1100));
        None
    })
}

#[test]
fn arbitrary_causes_survive_the_jump() {
    for cause in [1, 2, 8, 9, -1, i32::MIN, i32::MAX] {
        assert_eq!(roundtrip(11, cause), Err(RecoveryError { cause }));
    }
}

#[test]
fn recover_without_active_scope_errs() {
    let reg = SharedRegistry::new();
    let outcome = recover(&mut reg.access(), 987, 1);
    assert_eq!(outcome, Err(RecoveryFailure));
}

#[test]
fn scope_is_gone_once_it_was_left() {
    let reg = SharedRegistry::new();
    assert_eq!(protect(&mut reg.access(), 12, 0x1200, || Some(5)), Ok(5));
    assert_eq!(recover(&mut reg.access(), 12, 1), Err(RecoveryFailure));
}

#[test]
fn registries_are_separate() {
    let one = SharedRegistry::new();
    let two = SharedRegistry::new();
    let r = protect(&mut one.access(), 13, 0x1300, || Some(recover(&mut two.access(), 13, 1)));
    assert_eq!(r, Ok(Err(RecoveryFailure)));
}

#[test]
fn failure_in_words() {
    assert_eq!(RecoveryFailure.message(), "setback recovery failure (no active scope)");
}

#[test]
fn conclusion_for_each_outcome() {
    let silent = Mark { tid: 1, accepts: None, jmpbuf: 2, cause: None };
    let hit = Mark { tid: 1, accepts: None, jmpbuf: 2, cause: Some(-5) };
    assert_eq!(conclude(Some("v"), Some(hit)), Ok("v"));
    assert_eq!(conclude(Some("v"), None), Ok("v"));
    assert_eq!(conclude::<&str>(None, Some(hit)), Err(RecoveryError { cause: -5 }));
    assert_eq!(conclude::<&str>(None, Some(silent)), Err(RecoveryError { cause: UNREPORTED }));
    assert_eq!(conclude::<&str>(None, None), Err(RecoveryError { cause: UNREPORTED }));
}

/// All ways to a registry lead to the same marks, and one way serves many calls.
#[test]
fn accesses_lead_to_one_registry() {
    let reg = SharedRegistry::new();
    let mut access = reg.access();
    for cause in [5, -5] {
        let r: Result<(), RecoveryError> = protect(&mut access, 14, 0x1400, || {
            assert_eq!(recover(&mut reg.access(), 14, cause), Ok(0x1400));
            None
        });
        assert_eq!(r, Err(RecoveryError { cause }));
        assert_eq!(recover(&mut access, 14, cause), Err(RecoveryFailure));
    }
}
