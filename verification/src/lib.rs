//! Failure recovery on top of `setjmp` and `longjmp`: which scope a fault jumps back
//! to, and what that scope then reports.
//!
//! `protect` runs code in a scope and answers `Ok` of its value, or `Err` with a cause
//! if a jump abandoned the code's stack. `recover`, called for the thread that
//! faulted, decides which of the thread's scopes to jump to. All scopes of all threads
//! are marks in one `SharedRegistry`, a doubly linked list with the newest mark at its
//! head. It is reached through an `Access`, one operation at a time, each in a critical
//! section; the protected code runs outside it.
//!
//! `Registry` is that list by itself, with contracts that say exactly what each
//! operation does to the sequence of marks, and `laws` what follows from one operation
//! to the next. `scope` says of the shared registry, over the operations that all threads
//! make on it in turn, where a scope was entered and left and where a recovery was
//! decided, and that these are all the operations that the call made. `life` holds what
//! follows for the life of a scope: that its mark is linked while it lasts, what a missing
//! mark means, and that a scope leaves the list as it was. `calls` holds what follows for
//! a call of `protect` as a whole: which of two outcomes it has, that an abandoned one
//! answers the cause of the recovery that jumped into it, and that the list is afterwards
//! what it was before.
//!
//! `behaviour` and `protection` say what all this is for, of the calls themselves and for
//! all inputs, in the arguments, the results and the fields of marks.
//!
//! The jump itself, and the frames that it abandons, are outside this library.

pub mod behaviour;
pub mod calls;
pub mod error;
pub mod frame;
pub mod laws;
pub mod life;
pub mod model;
pub mod operation;
pub mod protection;
pub mod registry;
pub mod scope;
pub mod section;

pub use error::{RecoveryError, RecoveryFailure};
pub use frame::{check_jmpbuf, JmpBufMisfit};
pub use frame::{JMPBUF_ALIGN, JMPBUF_BYTES, RECOVERY_GAP_BYTES, SETBACK_OK};
pub use model::{Entry, Mark, MarkId, ThreadId};
pub use registry::Registry;
pub use scope::{conclude, protect, protect_cause, recover, UNREPORTED};
pub use section::{Access, SharedRegistry};
