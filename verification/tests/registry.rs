//! The list of marks by itself.

use setback::{Mark, RecoveryFailure, Registry};

#[test]
fn empty_registry_finds_nothing() {
    let mut reg = Registry::new();
    assert_eq!(reg.find(0, 0), None);
    assert_eq!(reg.recover(0, 0), Err(RecoveryFailure));
}

#[test]
fn newest_mark_of_the_thread_is_found_first() {
    let mut reg = Registry::new();
    let outer = reg.push(5, None, 0x100);
    let inner = reg.push(5, None, 0x200);
    assert_ne!(outer, inner);
    assert_eq!(reg.find(5, 3), Some(inner));
    assert_eq!(reg.recover(5, 3), Ok(0x200));
}

#[test]
fn unlinked_mark_comes_back_as_it_was() {
    let mut reg = Registry::new();
    let id = reg.push(5, Some(3), 0x100);
    let mark = Mark { tid: 5, accepts: Some(3), jmpbuf: 0x100, cause: None };
    assert_eq!(reg.unlink(id), Some(mark));
    assert_eq!(reg.unlink(id), None);
}

#[test]
fn recovery_writes_the_cause_of_its_target_alone() {
    let mut reg = Registry::new();
    let outer = reg.push(5, None, 0x100);
    let foreign = reg.push(6, None, 0x200);
    let inner = reg.push(5, None, 0x300);
    assert_eq!(reg.recover(5, -9), Ok(0x300));
    assert_eq!(reg.unlink(inner).unwrap().cause, Some(-9));
    assert_eq!(reg.unlink(outer).unwrap().cause, None);
    assert_eq!(reg.unlink(foreign).unwrap().cause, None);
}

#[test]
fn later_recovery_overwrites_the_cause() {
    let mut reg = Registry::new();
    let id = reg.push(5, None, 0x100);
    assert_eq!(reg.recover(5, 1), Ok(0x100));
    assert_eq!(reg.recover(5, 2), Ok(0x100));
    assert_eq!(reg.unlink(id).unwrap().cause, Some(2));
}

#[test]
fn miss_changes_nothing() {
    let mut reg = Registry::new();
    let id = reg.push(5, Some(3), 0x100);
    assert_eq!(reg.recover(5, 4), Err(RecoveryFailure));
    assert_eq!(reg.recover(6, 3), Err(RecoveryFailure));
    let mark = Mark { tid: 5, accepts: Some(3), jmpbuf: 0x100, cause: None };
    assert_eq!(reg.unlink(id), Some(mark));
}

#[test]
fn recovery_drops_the_nested_marks_of_its_thread_only() {
    let mut reg = Registry::new();
    let target = reg.push(5, None, 0x100);
    let foreign = reg.push(6, Some(1), 0x200);
    let first = reg.push(5, Some(1), 0x300);
    let second = reg.push(5, Some(2), 0x400);
    assert_eq!(reg.recover(5, 3), Ok(0x100));
    assert_eq!(reg.unlink(first), None);
    assert_eq!(reg.unlink(second), None);
    assert_eq!(reg.find(6, 1), Some(foreign));
    assert_eq!(reg.find(5, 1), Some(target));
    assert_eq!(reg.unlink(target).unwrap().cause, Some(3));
    assert_eq!(reg.unlink(foreign).unwrap().jmpbuf, 0x200);
}

/// A slot that is used again does not answer to the handle of the mark before.
#[test]
fn old_handle_does_not_reach_a_new_mark() {
    let mut reg = Registry::new();
    let old = reg.push(5, None, 0x100);
    assert!(reg.unlink(old).is_some());
    let new = reg.push(6, None, 0x200);
    assert_ne!(old, new);
    assert_eq!(reg.unlink(old), None);
    assert_eq!(reg.unlink(new).unwrap().tid, 6);
}

/// Head, middle and tail marks leave, and the rest stay in order.
#[test]
fn unlinking_anywhere_keeps_the_order() {
    for gone in 0..4 {
        let mut reg = Registry::new();
        let mut ids = vec![];
        for i in 0..4 {
            ids.push(reg.push(9, None, 0x10 * (i + 1)));
        }
        assert!(reg.unlink(ids[gone]).is_some());
        for i in [3usize, 2, 1, 0] {
            if i != gone {
                assert_eq!(reg.find(9, 0), Some(ids[i]));
                assert!(reg.unlink(ids[i]).is_some());
            }
        }
        assert_eq!(reg.find(9, 0), None);
    }
}

/// However often a slot is used again, its marks have different handles.
#[test]
fn handles_are_given_out_once() {
    let mut reg = Registry::new();
    let mut seen = vec![];
    for i in 0..100usize {
        let id = reg.push(i % 3, None, i);
        assert!(!seen.contains(&id));
        seen.push(id);
        if i % 4 != 0 {
            assert_eq!(reg.unlink(id).map(|m| m.jmpbuf), Some(i));
        }
    }
}
