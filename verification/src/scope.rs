//! Protected scopes over a registry that all threads share.
use crate::error::{RecoveryError, RecoveryFailure};
use crate::model;
use crate::model::{Mark, MarkId, ThreadId};
use crate::operation::{Enter, Leave, Recover};
use crate::section;
use crate::section::{Access, SharedRegistry};
use vstd::prelude::*;

verus! {

/// The cause of an abandoned scope whose mark holds none. A jump that `recover`
/// decided always finds one.
pub const UNREPORTED: i32 = 0;

/// What a scope answers: the value that its code returned, or, if its stack was
/// abandoned, the cause that its mark holds.
pub open spec fn concluded<R>(value: Option<R>, mark: Option<Mark>) -> Result<R, RecoveryError> {
    match value {
        Some(value) => Ok(value),
        None => Err(
            RecoveryError {
                cause: match mark {
                    Some(mark) => match mark.cause {
                        Some(cause) => cause,
                        None => UNREPORTED,
                    },
                    None => UNREPORTED,
                },
            },
        ),
    }
}

/// Decides what a scope answers, from what its code returned, or `None` if its stack
/// was abandoned, and from its mark as it was when the scope was left.
pub fn conclude<R>(value: Option<R>, mark: Option<Mark>) -> (r: Result<R, RecoveryError>)
    ensures
        r == concluded(value, mark),
{
    match value {
        Some(value) => Ok(value),
        None => {
            let reported: Option<i32> = match mark {
                Some(mark) => mark.cause,
                None => None,
            };
            let cause: i32 = match reported {
                Some(cause) => cause,
                None => UNREPORTED,
            };
            Err(RecoveryError { cause })
        },
    }
}

/// The operation after the first `i` entered a scope with `mark`, under the handle `id`.
pub open spec fn entered_at(registry: SharedRegistry, mark: Mark, i: nat, id: MarkId) -> bool {
    registry.lived(i + 1) && model::enters(registry.held(i), id, mark, registry.held(i + 1))
}

/// A scope with `mark` was entered.
pub open spec fn entered(registry: SharedRegistry, mark: Mark) -> bool {
    exists|i: nat, id: MarkId| entered_at(registry, mark, i, id)
}

/// The operation after the first `j` left the scope with handle `id`, whose code ran to
/// its end or else was abandoned, and handed back `left`.
pub open spec fn left_at(
    registry: SharedRegistry,
    j: nat,
    id: MarkId,
    completed: bool,
    left: Option<Mark>,
) -> bool {
    registry.lived(j + 1) && model::leaves(
        registry.held(j),
        id,
        completed,
        left,
        registry.held(j + 1),
    )
}

/// The operation after the first `i` entered a scope with `mark`, under the handle `id`.
/// The one after the first `j` left it and handed back `left`; by then its code had run to
/// its end, or else was abandoned. That was later than the entering if the handle had
/// been given out by then.
pub open spec fn scope_at(
    registry: SharedRegistry,
    mark: Mark,
    i: nat,
    id: MarkId,
    j: nat,
    completed: bool,
    left: Option<Mark>,
) -> bool {
    &&& entered_at(registry, mark, i, id)
    &&& left_at(registry, j, id, completed, left)
    &&& left is Some ==> i < j
    &&& registry.held(j).issued.contains(id) ==> i < j
}

/// `r` is what a scope with `mark` answers whose code ran as `run`. The scope was entered
/// and left in `registry`. These two operations are all that an access made meanwhile: it
/// had made `before`, and then has made `after`.
pub open spec fn answers<R, F: FnOnce() -> Option<R>>(
    registry: SharedRegistry,
    mark: Mark,
    run: F,
    before: Seq<nat>,
    after: Seq<nat>,
    r: Result<R, RecoveryError>,
) -> bool {
    exists|i: nat, id: MarkId, j: nat, left: Option<Mark>, value: Option<R>| #[trigger]
        scope_at(registry, mark, i, id, j, value is Some, left) && #[trigger] run.ensures(
            (),
            value,
        ) && r == concluded(value, left) && after == before + seq![i, j]
}

/// The operation after the first `n` decided a recovery of `tid` for `cause`, and
/// answered `r`.
pub open spec fn decided_at(
    registry: SharedRegistry,
    n: nat,
    tid: ThreadId,
    cause: i32,
    r: Result<usize, RecoveryFailure>,
) -> bool {
    registry.lived(n + 1) && model::decides(
        registry.held(n),
        tid,
        cause,
        r,
        registry.held(n + 1),
    )
}

/// Handles stay given out.
pub(crate) proof fn lemma_issued_stays(registry: SharedRegistry, m: nat, n: nat, id: MarkId)
    requires
        registry.lived(n),
        m <= n,
        registry.held(m).issued.contains(id),
    ensures
        registry.held(n).issued.contains(id),
    decreases n - m,
{
    if m < n {
        assert(registry.steps(m));
        lemma_issued_stays(registry, m + 1, n, id);
    }
}

/// Runs `run` in a scope of thread `tid` with the given filter on causes.
fn scoped<R, F: FnOnce() -> Option<R>>(
    access: &mut Access<'_>,
    tid: ThreadId,
    accepts: Option<i32>,
    jmpbuf: usize,
    run: F,
) -> (r: Result<R, RecoveryError>)
    requires
        entered(old(access).registry(), model::fresh(tid, accepts, jmpbuf)) ==> run.requires(()),
    ensures
        final(access).registry() == old(access).registry(),
        answers(
            old(access).registry(),
            model::fresh(tid, accepts, jmpbuf),
            run,
            old(access).made(),
            final(access).made(),
            r,
        ),
{
    let ghost registry = access.registry();
    let ghost mark = model::fresh(tid, accepts, jmpbuf);
    let ghost before = access.made();
    let id = access.submit(Enter { tid, accepts, jmpbuf });
    let ghost i = choose|i: nat| #[trigger]
        registry.served(i, Enter { tid, accepts, jmpbuf }, id) && access.made() == before.push(i);
    proof {
        section::lemma_served(registry, i, Enter { tid, accepts, jmpbuf }, id);
        assert(entered_at(registry, mark, i, id));
    }
    let value = run();
    let completed: bool = value.is_some();
    let left = access.submit(Leave { id, completed });
    proof {
        let j = choose|j: nat| #[trigger]
            registry.served(j, Leave { id, completed }, left) && access.made() == before.push(
                i,
            ).push(j);
        section::lemma_served(registry, j, Leave { id, completed }, left);
        assert(left_at(registry, j, id, completed, left));
        if left is Some {
            let k = choose|k: int| model::is_at(registry.held(j).marks, k, id);
            assert(registry.held(j).issued.contains(registry.held(j).marks[k].id));
        }
        if registry.held(j).issued.contains(id) && j <= i {
            // The handle was not given out before the scope was entered.
            lemma_issued_stays(registry, j, i, id);
        }
        assert(scope_at(registry, mark, i, id, j, completed, left));
        assert(before.push(i).push(j) =~= before + seq![i, j]);
    }
    conclude(value, left)
}

/// Runs `run` under recovery protection, in a scope of thread `tid`.
///
/// `run` arms the `jmp_buf` at address `jmpbuf`, runs the protected code, and returns
/// `Some` of its value, or `None` when the code was abandoned by a jump to that
/// `jmp_buf`. The scope answers `Ok` of the value, or `Err` with the cause that the
/// recovery reported. Scopes nest: a recovery resolves to the innermost one of its
/// thread.
///
/// The call makes two operations through `access`: it enters the scope before `run` is
/// called, which may rely on it, and leaves it after `run` returned. What is kept of the
/// leaving says how the code ended. Code that uses the registry meanwhile does so through
/// an access of its own.
pub fn protect<R, F: FnOnce() -> Option<R>>(
    access: &mut Access<'_>,
    tid: ThreadId,
    jmpbuf: usize,
    run: F,
) -> (r: Result<R, RecoveryError>)
    requires
        entered(old(access).registry(), model::fresh(tid, None, jmpbuf)) ==> run.requires(()),
    ensures
        final(access).registry() == old(access).registry(),
        answers(
            old(access).registry(),
            model::fresh(tid, None, jmpbuf),
            run,
            old(access).made(),
            final(access).made(),
            r,
        ),
{
    scoped(access, tid, None, jmpbuf, run)
}

/// Like `protect`, for one cause alone: a recovery for any other cause skips this
/// scope as if it belonged to another thread.
pub fn protect_cause<R, F: FnOnce() -> Option<R>>(
    access: &mut Access<'_>,
    tid: ThreadId,
    cause: i32,
    jmpbuf: usize,
    run: F,
) -> (r: Result<R, RecoveryError>)
    requires
        entered(old(access).registry(), model::fresh(tid, Some(cause), jmpbuf))
            ==> run.requires(()),
    ensures
        final(access).registry() == old(access).registry(),
        answers(
            old(access).registry(),
            model::fresh(tid, Some(cause), jmpbuf),
            run,
            old(access).made(),
            final(access).made(),
            r,
        ),
{
    scoped(access, tid, Some(cause), jmpbuf, run)
}

/// Decides a recovery of thread `tid` for `cause`, from a fault or out-of-memory
/// handler: the address of the `jmp_buf` to jump to, on the stack of that thread, or
/// a failure if none of its active scopes accepts the cause.
///
/// It is one operation. The mark of the scope to jump to then holds `cause`, and the scope
/// answers `Err` with it.
pub fn recover(access: &mut Access<'_>, tid: ThreadId, cause: i32) -> (r: Result<
    usize,
    RecoveryFailure,
>)
    ensures
        final(access).registry() == old(access).registry(),
        exists|n: nat|
            #[trigger] decided_at(old(access).registry(), n, tid, cause, r)
                && final(access).made() == old(access).made().push(n),
{
    let ghost registry = access.registry();
    let ghost before = access.made();
    let r = access.submit(Recover { tid, cause });
    proof {
        let n = choose|n: nat| #[trigger]
            registry.served(n, Recover { tid, cause }, r) && access.made() == before.push(n);
        section::lemma_served(registry, n, Recover { tid, cause }, r);
        assert(decided_at(registry, n, tid, cause, r));
    }
    r
}

} // verus!
