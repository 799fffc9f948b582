//! The constants that the frames of a scope are laid out by.

use setback::{check_jmpbuf, JmpBufMisfit, JMPBUF_ALIGN, JMPBUF_BYTES, RECOVERY_GAP_BYTES};

#[test]
fn gap_size_is_aligned_and_nonzero() {
    let gap = RECOVERY_GAP_BYTES;
    assert!(gap >= 8, "gap must be at least a word: {gap}");
    assert_eq!(gap % 8, 0, "gap must keep the stack 8-aligned: {gap}");
}

#[test]
fn gap_size_is_the_documented_one() {
    assert_eq!(RECOVERY_GAP_BYTES, 64);
}

#[test]
fn jmpbuf_fits_up_to_the_storage() {
    assert_eq!((JMPBUF_BYTES, JMPBUF_ALIGN), (512, 16));
    assert_eq!(check_jmpbuf(200, 8), Ok(()));
    assert_eq!(check_jmpbuf(512, 16), Ok(()));
    assert_eq!(check_jmpbuf(513, 16), Err(JmpBufMisfit::Size));
    assert_eq!(check_jmpbuf(512, 32), Err(JmpBufMisfit::Alignment));
    assert_eq!(check_jmpbuf(513, 32), Err(JmpBufMisfit::Size));
    assert_eq!(
        JmpBufMisfit::Size.message(),
        "setback: jmp_buf larger than reserved storage"
    );
    assert_eq!(
        JmpBufMisfit::Alignment.message(),
        "setback: jmp_buf alignment exceeds storage alignment"
    );
}
