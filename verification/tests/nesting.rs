//! For one thread, scopes form a stack inside the one list of marks: a recovery
//! resolves to the innermost live scope of its thread.
//!
//! A jump is played by returning `None` from the code of the scope that was hit.

use setback::{
    conclude, protect, recover, RecoveryError, RecoveryFailure, Registry, SharedRegistry,
};

#[test]
fn recovery_into_inner_leaves_the_outer_scope_intact() {
    const TID: usize = 41;
    let c = 7;
    let reg = SharedRegistry::new();

    let outer: Result<&str, RecoveryError> = protect(&mut reg.access(), TID, 0x4100, || {
        let inner: Result<(), RecoveryError> = protect(&mut reg.access(), TID, 0x4110, || {
            assert_eq!(recover(&mut reg.access(), TID, c), Ok(0x4110));
            None
        });
        assert_eq!(inner, Err(RecoveryError { cause: c }));
        Some("outer ran to completion")
    });

    assert_eq!(outer, Ok("outer ran to completion"));
}

#[test]
fn recovery_peels_the_nest_innermost_first() {
    const TID: usize = 52;
    let (c_inner, c_middle, c_outer) = (1, 2, 3);
    let reg = SharedRegistry::new();

    let outer: Result<(), RecoveryError> = protect(&mut reg.access(), TID, 0x5200, || {
        let middle: Result<(), RecoveryError> = protect(&mut reg.access(), TID, 0x5210, || {
            let inner: Result<(), RecoveryError> = protect(&mut reg.access(), TID, 0x5220, || {
                assert_eq!(recover(&mut reg.access(), TID, c_inner), Ok(0x5220));
                None
            });
            assert_eq!(inner, Err(RecoveryError { cause: c_inner }));
            assert_eq!(recover(&mut reg.access(), TID, c_middle), Ok(0x5210));
            None
        });
        assert_eq!(middle, Err(RecoveryError { cause: c_middle }));
        assert_eq!(recover(&mut reg.access(), TID, c_outer), Ok(0x5200));
        None
    });

    assert_eq!(outer, Err(RecoveryError { cause: c_outer }));
}

#[test]
fn find_reports_a_miss_while_nested_marks_are_live() {
    const OUTER_TID: usize = 63;
    const INNER_TID: usize = 64;
    const ABSENT_TID: usize = 6399;
    let reg = SharedRegistry::new();

    let outer: Result<&str, RecoveryError> = protect(&mut reg.access(), OUTER_TID, 0x6300, || {
        let inner: Result<&str, RecoveryError> = protect(&mut reg.access(), INNER_TID, 0x6400, || {
            let miss = recover(&mut reg.access(), ABSENT_TID, 1);
            assert_eq!(miss, Err(RecoveryFailure));
            Some("inner ran to completion")
        });
        assert_eq!(inner, Ok("inner ran to completion"));
        Some("outer ran to completion")
    });

    assert_eq!(outer, Ok("outer ran to completion"));
}

/// Another thread's mark sits nearer the head. The recovery skips it, and this
/// thread's mark then leaves from behind it.
#[test]
fn find_skips_another_threads_mark_in_the_global_list() {
    const MAIN_TID: usize = 100;
    const FOREIGN_TID: usize = 200;
    let c = 42;

    let mut reg = Registry::new();
    let main_mark = reg.push(MAIN_TID, None, 0x10000);
    let foreign_mark = reg.push(FOREIGN_TID, None, 0x20000);
    assert_eq!(reg.recover(MAIN_TID, c), Ok(0x10000));
    let left = reg.unlink(main_mark);
    let main: Result<(), RecoveryError> = conclude(None, left);
    assert_eq!(main, Err(RecoveryError { cause: c }));

    assert_eq!(reg.find(FOREIGN_TID, c), Some(foreign_mark));
    let left = reg.unlink(foreign_mark);
    let foreign: Result<&str, RecoveryError> = conclude(Some("foreign ran to completion"), left);
    assert_eq!(foreign, Ok("foreign ran to completion"));
}

/// The registry is usable from several threads' scopes that do not nest.
#[test]
fn scopes_of_two_threads_leave_in_any_order() {
    let mut reg = Registry::new();
    let a = reg.push(1, None, 0xa0);
    let b = reg.push(2, None, 0xb0);
    let c = reg.push(1, None, 0xc0);
    assert_eq!(reg.unlink(b).map(|m| m.jmpbuf), Some(0xb0));
    assert_eq!(reg.find(2, 0), None);
    assert_eq!(reg.find(1, 0), Some(c));
    assert_eq!(reg.unlink(c).map(|m| m.jmpbuf), Some(0xc0));
    assert_eq!(reg.find(1, 0), Some(a));
    assert_eq!(reg.unlink(a).map(|m| m.jmpbuf), Some(0xa0));
    assert_eq!(reg.find(1, 0), None);
}

/// A scope with scopes nested in it leaves the list as it was, whether its code runs to
/// its end or is abandoned.
#[test]
fn lone_scope_restores_the_list() {
    for abandoned in [false, true] {
        let mut reg = Registry::new();
        let first = reg.push(1, Some(4), 0x10);
        let second = reg.push(2, None, 0x20);
        let third = reg.push(1, None, 0x30);
        assert_eq!(reg.recover(1, 9), Ok(0x30));

        let scope = reg.push(1, None, 0x40);
        let inner = reg.push(1, Some(5), 0x50);
        let innermost = reg.push(1, Some(6), 0x60);
        if abandoned {
            assert_eq!(reg.recover(1, 7), Ok(0x40));
        } else {
            assert!(reg.unlink(innermost).is_some());
            assert!(reg.unlink(inner).is_some());
        }
        let left = reg.unlink(scope).unwrap();
        assert_eq!(left.cause, if abandoned { Some(7) } else { None });

        assert_eq!(reg.find(1, 4), Some(third));
        let mark = reg.unlink(third).unwrap();
        assert_eq!((mark.tid, mark.accepts, mark.jmpbuf, mark.cause), (1, None, 0x30, Some(9)));
        assert_eq!(reg.find(1, 4), Some(first));
        let mark = reg.unlink(second).unwrap();
        assert_eq!((mark.tid, mark.accepts, mark.jmpbuf, mark.cause), (2, None, 0x20, None));
        let mark = reg.unlink(first).unwrap();
        assert_eq!((mark.tid, mark.accepts, mark.jmpbuf, mark.cause), (1, Some(4), 0x10, None));
        assert_eq!(reg.find(1, 4), None);
        assert_eq!(reg.find(2, 0), None);
    }
}

/// A scope is linked while its code runs, and neither before nor after.
#[test]
fn scope_is_linked_while_its_code_runs() {
    let reg = SharedRegistry::new();
    assert_eq!(recover(&mut reg.access(), 3, 1), Err(RecoveryFailure));
    let r: Result<u8, RecoveryError> = protect(&mut reg.access(), 3, 0x300, || {
        let nested: Result<u8, RecoveryError> = protect(&mut reg.access(), 3, 0x310, || Some(1));
        assert_eq!(nested, Ok(1));
        assert_eq!(recover(&mut reg.access(), 3, 1), Ok(0x300));
        None
    });
    assert_eq!(r, Err(RecoveryError { cause: 1 }));
    assert_eq!(recover(&mut reg.access(), 3, 1), Err(RecoveryFailure));
}

/// A scope that is jumped into more than once answers the last cause.
#[test]
fn last_cause_is_reported() {
    let reg = SharedRegistry::new();
    let r: Result<(), RecoveryError> = protect(&mut reg.access(), 3, 0x300, || {
        assert_eq!(recover(&mut reg.access(), 3, 1), Ok(0x300));
        assert_eq!(recover(&mut reg.access(), 3, 2), Ok(0x300));
        None
    });
    assert_eq!(r, Err(RecoveryError { cause: 2 }));
}
