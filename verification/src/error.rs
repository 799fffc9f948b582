use vstd::prelude::*;

verus! {

/// What a protected scope reports when its stack was abandoned by a jump.
#[derive(Debug, Clone, Copy, PartialEq, Eq, Structural)]
pub struct RecoveryError {
    /// The code that the caller of `recover` chose for this abandonment. The
    /// library gives it no meaning: the caller decides what each value stands for.
    pub cause: i32,
}

/// What `recover` reports when no active scope of the thread accepts the cause.
#[derive(Debug, Clone, Copy, PartialEq, Eq, Structural)]
pub struct RecoveryFailure;

impl RecoveryFailure {
    /// The failure in words.
    pub fn message(&self) -> (text: &'static str)
        ensures
            text@ == "setback recovery failure (no active scope)"@,
    {
        "setback recovery failure (no active scope)"
    }
}

} // verus!
