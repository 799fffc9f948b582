//! What holds of a call of `protect` or `protect_cause` as a whole, and of a call of
//! `recover` that jumps into it.
use crate::error::RecoveryError;
use crate::life;
use crate::model;
use crate::model::{Mark, MarkId, ThreadId};
use crate::scope;
use crate::section::SharedRegistry;
use vstd::prelude::*;

verus! {

/// The operation by which a call entered its scope. The call's access had made `before`,
/// and then has made `after`.
pub open spec fn entering(before: Seq<nat>, after: Seq<nat>) -> nat {
    after[before.len() as int]
}

/// The operation by which a call left its scope.
pub open spec fn leaving(before: Seq<nat>, after: Seq<nat>) -> nat {
    after[before.len() as int + 1]
}

/// The handle of the scope that the operation after the first `i` entered.
pub open spec fn handle(registry: SharedRegistry, i: nat) -> MarkId {
    registry.held(i + 1).marks[0].id
}

/// A recovery jumped into the scope with handle `id`, after the first `i + 1` operations
/// and within the first `j`.
pub open spec fn was_hit(registry: SharedRegistry, i: nat, id: MarkId, j: nat) -> bool {
    exists|m: nat, cause: i32| i < m < j && #[trigger] life::hits_at(registry, m, id, cause)
}

/// The operation after the first `m` is the last recovery, within the first `j`
/// operations, that jumped into the scope with handle `id`. It was for `cause`.
pub open spec fn last_hit(
    registry: SharedRegistry,
    i: nat,
    id: MarkId,
    j: nat,
    m: nat,
    cause: i32,
) -> bool {
    &&& i < m < j
    &&& life::hits_at(registry, m, id, cause)
    &&& forall|l: nat, c: i32| m < l < j ==> !#[trigger] life::hits_at(registry, l, id, c)
}

/// The scope was left after it was entered, and meanwhile nothing took its mark out: no
/// other call left the scope, and no recovery of its thread went to a scope around it,
/// which would have abandoned the call itself.
pub open spec fn undisturbed(registry: SharedRegistry, i: nat, id: MarkId, j: nat) -> bool {
    &&& i < j
    &&& forall|m: nat| i < m < j ==> !#[trigger] life::taken_out_at(registry, m, id)
}

/// What a call says of the scope that it entered and left.
pub(crate) proof fn lemma_scope_of_call<R, F: FnOnce() -> Option<R>>(
    registry: SharedRegistry,
    mark: Mark,
    run: F,
    before: Seq<nat>,
    after: Seq<nat>,
    r: Result<R, RecoveryError>,
) -> (res: (Option<Mark>, Option<R>))
    requires
        scope::answers(registry, mark, run, before, after, r),
    ensures
        ({
            let i = entering(before, after);
            let j = leaving(before, after);
            let (left, value) = res;
            &&& after == before + seq![i, j]
            &&& scope::scope_at(registry, mark, i, handle(registry, i), j, value is Some, left)
            &&& run.ensures((), value)
            &&& r == scope::concluded(value, left)
        }),
{
    let (i, id, j, left, value) = choose|
        i: nat,
        id: MarkId,
        j: nat,
        left: Option<Mark>,
        value: Option<R>,
    | #[trigger]
        scope::scope_at(registry, mark, i, id, j, value is Some, left) && #[trigger] run.ensures(
            (),
            value,
        ) && r == scope::concluded(value, left) && after == before + seq![i, j];
    assert(after[before.len() as int] == i);
    assert(after[before.len() as int + 1] == j);
    (left, value)
}

/// A call makes two operations. The first puts its mark in front of the list as it was,
/// and the second leaves that scope and keeps how its code ended. The call answers `Ok` of
/// a value only if its code returned that value, and `Err` only if its code was abandoned:
/// then with the cause that a recovery into this very scope was for, or with `UNREPORTED`
/// if at the end its mark held no cause or was not linked.
pub proof fn law_call_answers_for_its_code<R, F: FnOnce() -> Option<R>>(
    registry: SharedRegistry,
    mark: Mark,
    run: F,
    before: Seq<nat>,
    after: Seq<nat>,
    r: Result<R, RecoveryError>,
)
    requires
        scope::answers(registry, mark, run, before, after, r),
        mark.cause is None,
    ensures
        ({
            let i = entering(before, after);
            let j = leaving(before, after);
            let id = handle(registry, i);
            &&& after == before + seq![i, j]
            &&& registry.held(i + 1).marks == model::pushed(registry.held(i).marks, id, mark)
            &&& registry.held(j + 1).ended == registry.held(j).ended.insert(id, r is Ok)
            &&& !model::is_linked(registry.held(j + 1).marks, id)
            &&& match r {
                Ok(value) => run.ensures((), Some(value)),
                Err(e) => {
                    &&& run.ensures((), None::<R>)
                    &&& if model::is_linked(registry.held(j).marks, id) && life::mark_of(
                        registry.held(j).marks,
                        id,
                    ).cause is Some {
                        exists|m: nat| i < m < j && #[trigger]
                            life::hits_at(registry, m, id, e.cause)
                    } else {
                        e.cause == scope::UNREPORTED
                    }
                },
            }
        }),
{
    let i = entering(before, after);
    let j = leaving(before, after);
    let id = handle(registry, i);
    let (left, value) = lemma_scope_of_call(registry, mark, run, before, after, r);
    assert(life::over_at(registry, j, id)) by {
        assert(scope::left_at(registry, j, id, value is Some, left));
    }
    life::lemma_over_is_gone(registry, j, id);
    if left is Some {
        life::law_mark_stays_as_entered(registry, mark, i, id, j, value is Some, left, j);
        if value is None && left->0.cause is Some {
            life::law_reported_cause_was_asked_for::<R>(
                registry,
                mark,
                i,
                id,
                j,
                value is Some,
                left,
                left->0.cause->0,
            );
            let m = choose|m: nat|
                i < m < j && #[trigger] life::hits_at(registry, m, id, left->0.cause->0);
            assert(life::hits_at(registry, m, id, r->Err_0.cause));
        }
    }
}

/// Where a scope was hit there is a last hit.
proof fn lemma_last_hit(registry: SharedRegistry, i: nat, id: MarkId, n: nat)
    requires
        was_hit(registry, i, id, n),
    ensures
        exists|m: nat, cause: i32| last_hit(registry, i, id, n, m, cause),
    decreases n,
{
    let (m, cause) = choose|m: nat, cause: i32|
        i < m < n && #[trigger] life::hits_at(registry, m, id, cause);
    let l = (n - 1) as nat;
    if i < l && exists|c: i32| life::hits_at(registry, l, id, c) {
        let c = choose|c: i32| life::hits_at(registry, l, id, c);
        assert(last_hit(registry, i, id, n, l, c));
    } else {
        assert(m < l);
        assert(was_hit(registry, i, id, l));
        lemma_last_hit(registry, i, id, l);
        let (k, c) = choose|k: nat, c: i32| last_hit(registry, i, id, l, k, c);
        assert(last_hit(registry, i, id, n, k, c));
    }
}

/// An undisturbed scope is still linked when it is left.
proof fn lemma_undisturbed_is_linked(
    registry: SharedRegistry,
    mark: Mark,
    i: nat,
    id: MarkId,
    j: nat,
    completed: bool,
    left: Option<Mark>,
)
    requires
        scope::scope_at(registry, mark, i, id, j, completed, left),
        undisturbed(registry, i, id, j),
    ensures
        left is Some,
{
    if left is None {
        life::law_missing_mark_was_taken_out(registry, mark, i, id, j, completed);
    }
}

/// A call has one of two outcomes. Let a jump into its scope be what abandons its code,
/// and the only thing that does. Then it answers `Ok`, of a value that its code returned,
/// if and only if no recovery jumped into its scope. And it answers `Err` with a cause if
/// and only if a recovery for that cause jumped into this very scope, as the last one that
/// did.
pub proof fn law_call_has_two_outcomes<R, F: FnOnce() -> Option<R>>(
    registry: SharedRegistry,
    mark: Mark,
    run: F,
    before: Seq<nat>,
    after: Seq<nat>,
    r: Result<R, RecoveryError>,
)
    requires
        scope::answers(registry, mark, run, before, after, r),
        ({
            let i = entering(before, after);
            let j = leaving(before, after);
            let id = handle(registry, i);
            &&& undisturbed(registry, i, id, j)
            &&& registry.held(j + 1).ended[id] <==> !was_hit(registry, i, id, j)
        }),
    ensures
        ({
            let i = entering(before, after);
            let j = leaving(before, after);
            let id = handle(registry, i);
            &&& r is Ok <==> !was_hit(registry, i, id, j)
            &&& r matches Ok(value) ==> run.ensures((), Some(value))
            &&& forall|cause: i32|
                r == Err::<R, RecoveryError>(RecoveryError { cause }) <==> exists|m: nat|
                    #[trigger] last_hit(registry, i, id, j, m, cause)
        }),
{
    let i = entering(before, after);
    let j = leaving(before, after);
    let id = handle(registry, i);
    let (left, value) = lemma_scope_of_call(registry, mark, run, before, after, r);
    lemma_undisturbed_is_linked(registry, mark, i, id, j, value is Some, left);
    assert forall|m: nat, cause: i32| #[trigger]
        last_hit(registry, i, id, j, m, cause) implies r == Err::<R, RecoveryError>(
        RecoveryError { cause },
    ) by {
        assert(was_hit(registry, i, id, j));
        life::law_asked_cause_is_reported::<R>(
            registry,
            mark,
            i,
            id,
            j,
            value is Some,
            left,
            m,
            cause,
        );
    }
    if r is Err {
        lemma_last_hit(registry, i, id, j);
        let (m, cause) = choose|m: nat, cause: i32| last_hit(registry, i, id, j, m, cause);
        assert(r == Err::<R, RecoveryError>(RecoveryError { cause }));
    }
}

/// Where no other thread acts, the list is after a call what it was before, whether the
/// call answers `Ok` or `Err`: the same marks with the same causes in the same order. The
/// call's own mark is not in it, nor that of any scope that was entered meanwhile. Its
/// code may have run any scopes of its thread, which are over when the call leaves.
pub proof fn law_lone_call_restores_the_list<R, F: FnOnce() -> Option<R>>(
    registry: SharedRegistry,
    mark: Mark,
    run: F,
    before: Seq<nat>,
    after: Seq<nat>,
    r: Result<R, RecoveryError>,
)
    requires
        scope::answers(registry, mark, run, before, after, r),
        ({
            let i = entering(before, after);
            let j = leaving(before, after);
            let id = handle(registry, i);
            &&& undisturbed(registry, i, id, j)
            &&& forall|m: nat| i < m < j ==> #[trigger] life::inner_at(registry, m, id, mark.tid)
            &&& life::all_over(registry, i, j)
        }),
    ensures
        ({
            let i = entering(before, after);
            let j = leaving(before, after);
            let list = registry.held(j + 1).marks;
            &&& list == registry.held(i).marks
            &&& !model::is_linked(list, handle(registry, i))
            &&& forall|other: Mark, m: nat, inner: MarkId|
                i < m < j && #[trigger] scope::entered_at(registry, other, m, inner)
                    ==> !model::is_linked(list, inner)
        }),
{
    let i = entering(before, after);
    let j = leaving(before, after);
    let id = handle(registry, i);
    let (left, value) = lemma_scope_of_call(registry, mark, run, before, after, r);
    lemma_undisturbed_is_linked(registry, mark, i, id, j, value is Some, left);
    life::law_lone_scope_restores_the_list(registry, mark, i, id, j, value is Some, left);
    assert(registry.held(i).wf());
    assert forall|other: Mark, m: nat, inner: MarkId|
        i < m < j && #[trigger] scope::entered_at(registry, other, m, inner)
            implies !model::is_linked(registry.held(j + 1).marks, inner) by {
        let base = registry.held(i).marks;
        if model::is_linked(base, inner) {
            let k = choose|k: int| model::is_at(base, k, inner);
            assert(registry.held(i).issued.contains(base[k].id));
            scope::lemma_issued_stays(registry, i, m, inner);
        }
    }
}

/// A recovery of `tid` for `cause` that finds a call's scope as the innermost one that
/// accepts it answers the address of that scope's `jmp_buf`. When it returns, the scope's
/// mark holds the cause. The call, being abandoned by that jump and by no later one,
/// answers `Err` with the cause.
pub proof fn law_call_answers_the_recovery<R, F: FnOnce() -> Option<R>>(
    registry: SharedRegistry,
    mark: Mark,
    run: F,
    before: Seq<nat>,
    after: Seq<nat>,
    r: Result<R, RecoveryError>,
    n: nat,
    tid: ThreadId,
    cause: i32,
    jmpbuf: usize,
)
    requires
        scope::answers(registry, mark, run, before, after, r),
        scope::decided_at(registry, n, tid, cause, Ok(jmpbuf)),
        ({
            let i = entering(before, after);
            let j = leaving(before, after);
            let id = handle(registry, i);
            &&& undisturbed(registry, i, id, j)
            &&& exists|k: int| #[trigger]
                model::is_target(registry.held(n).marks, k, tid, cause) && registry.held(
                    n,
                ).marks[k].id == id
            &&& !registry.held(j + 1).ended[id]
            &&& forall|l: nat, c: i32| n < l < j ==> !#[trigger] life::hits_at(registry, l, id, c)
        }),
    ensures
        ({
            let i = entering(before, after);
            let j = leaving(before, after);
            let id = handle(registry, i);
            &&& i < n < j
            &&& mark.tid == tid
            &&& mark.jmpbuf == jmpbuf
            &&& model::is_linked(registry.held(n + 1).marks, id)
            &&& life::mark_of(registry.held(n + 1).marks, id) == (Mark {
                cause: Some(cause),
                ..mark
            })
            &&& r == Err::<R, RecoveryError>(RecoveryError { cause })
        }),
{
    let i = entering(before, after);
    let j = leaving(before, after);
    let id = handle(registry, i);
    let s = registry.held(n).marks;
    let (left, value) = lemma_scope_of_call(registry, mark, run, before, after, r);
    lemma_undisturbed_is_linked(registry, mark, i, id, j, value is Some, left);
    let k = choose|k: int| #[trigger]
        model::is_target(s, k, tid, cause) && jmpbuf == s[k].mark.jmpbuf && registry.held(
            n + 1,
        ).marks == model::recovered(s, k, cause);
    let l = choose|l: int| #[trigger] model::is_target(s, l, tid, cause) && s[l].id == id;
    assert(k == l);
    assert(model::is_at(s, k, id));
    assert(life::hits_at(registry, n, id, cause));
    life::law_jump_falls_within_the_scope(
        registry,
        mark,
        i,
        id,
        j,
        value is Some,
        left,
        n,
        cause,
    );
    life::law_asked_cause_is_reported::<R>(
        registry,
        mark,
        i,
        id,
        j,
        value is Some,
        left,
        n,
        cause,
    );
    life::law_mark_stays_as_entered(registry, mark, i, id, j, value is Some, left, n);
    assert(registry.held(n).wf() && registry.held(n + 1).wf());
    life::lemma_mark_of(s, k, id);
    life::lemma_hit_mark(registry.held(n), registry.held(n + 1), id, cause);
}

} // verus!
