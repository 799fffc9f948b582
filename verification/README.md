# setback

Failure recovery for Rust built on C `setjmp`/`longjmp`. Set a mark, run a closure,
and get `Ok(value)` back, or, if a stack overflow, an exhausted heap or an explicit
trigger fires while it runs, `Err(RecoveryError)`, with the abandoned stack leaked.

- `src/` is the verified library. It keeps the registry of active scopes, decides which
  scope a recovery jumps to, and what that scope then reports. `Registry` is the list of
  marks with exact contracts, and `scope` shares it between threads through
  [`critical-section`](https://docs.rs/critical-section). `laws` proves of the list what
  each operation does for the next: a recovery resolves to the innermost accepting scope
  of its thread, and other threads' scopes neither change that nor are changed by it.
  `life` and `calls` prove of the shared registry, from what `protect` and `recover`
  promise, what holds of a scope from its start to its end and of a call as a whole: the
  mark is linked all the while, the cause that was asked for is the cause that is
  reported, and where no other thread acts the whole list is afterwards as it was before.
- `src/section.rs` holds the shared registry, and all that is taken on trust.
- `app/` arms the jumps: the `unsafe` calls into C, and the static registry.
- `extras/setback.c` is the C side, to be compiled and linked with `app/`.
- `tests/` runs the library without jumps: a scope's code reports that it was abandoned
  where a jump would have abandoned it.

A scope keeps its mark in the registry's storage, which entering a scope may grow.
Leaving a scope and recovering never allocate. So an out-of-memory handler may recover
from any allocation but that one: while a mark is being linked the registry is in use, and
a `recover` from within panics.

The library selects no critical-section implementation: the final binary supplies one.
The tests run with the std-backed one.
