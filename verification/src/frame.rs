//! What the code that jumps and the frames that it jumps to agree on.
use vstd::prelude::*;

verus! {

/// Bytes of stack that are reserved below a recovery mark before protected code runs:
/// the gap that a fault handler may rely on when it chooses where to run `recover`.
pub const RECOVERY_GAP_BYTES: usize = 64;

/// What a call that saves a `jmp_buf` and runs code returns when that code returned.
/// Every other outcome is a jump.
pub const SETBACK_OK: i32 = 0;

/// Bytes of storage that a scope reserves for its `jmp_buf`.
pub const JMPBUF_BYTES: usize = 512;

/// Alignment of that storage.
pub const JMPBUF_ALIGN: usize = 16;

/// Why a platform's `jmp_buf` cannot be kept in the reserved storage.
#[derive(Debug, Clone, Copy, PartialEq, Eq, Structural)]
pub enum JmpBufMisfit {
    /// It is larger than the storage.
    Size,
    /// It asks for more than the storage's alignment.
    Alignment,
}

impl JmpBufMisfit {
    /// The misfit in words.
    pub fn message(&self) -> (text: &'static str)
        ensures
            text@ == match *self {
                JmpBufMisfit::Size => "setback: jmp_buf larger than reserved storage"@,
                JmpBufMisfit::Alignment =>
                    "setback: jmp_buf alignment exceeds storage alignment"@,
            },
    {
        match self {
            JmpBufMisfit::Size => "setback: jmp_buf larger than reserved storage",
            JmpBufMisfit::Alignment => "setback: jmp_buf alignment exceeds storage alignment",
        }
    }
}

/// Whether a `jmp_buf` of `size` bytes, aligned to `align`, can be kept in the reserved
/// storage. A size that is too large is reported before the alignment.
pub fn check_jmpbuf(size: usize, align: usize) -> (r: Result<(), JmpBufMisfit>)
    ensures
        r == if size > JMPBUF_BYTES {
            Err::<(), JmpBufMisfit>(JmpBufMisfit::Size)
        } else if align > JMPBUF_ALIGN {
            Err(JmpBufMisfit::Alignment)
        } else {
            Ok(())
        },
{
    if size > JMPBUF_BYTES {
        return Err(JmpBufMisfit::Size);
    }
    if align > JMPBUF_ALIGN {
        return Err(JmpBufMisfit::Alignment);
    }
    Ok(())
}

} // verus!
