//! What holds of a scope over the life of the registry that it is entered and left in.
use crate::error::{RecoveryError, RecoveryFailure};
use crate::model;
use crate::model::{Entry, Mark, MarkId, Snapshot, ThreadId};
use crate::scope;
use crate::section::SharedRegistry;
use vstd::prelude::*;

verus! {

/// A recovery for `cause` from `s` to `t` jumps into the scope with handle `id`.
pub open spec fn hits(s: Seq<Entry>, id: MarkId, cause: i32, t: Seq<Entry>) -> bool {
    exists|k: int| #[trigger]
        model::is_at(s, k, id) && model::is_target(s, k, s[k].mark.tid, cause) && t
            == model::recovered(s, k, cause)
}

/// The operation after the first `n` is a recovery for `cause` that jumps into the scope
/// with handle `id`.
pub open spec fn hits_at(registry: SharedRegistry, n: nat, id: MarkId, cause: i32) -> bool {
    hits(registry.held(n).marks, id, cause, registry.held(n + 1).marks)
}

/// The marks after a recovery are among those before it, but for the target's cause.
proof fn lemma_recovered_at(s: Seq<Entry>, k: int, cause: i32, l: int)
    requires
        0 <= k < s.len(),
        0 <= l < model::recovered(s, k, cause).len(),
    ensures
        ({
            let e = model::recovered(s, k, cause)[l];
            e == model::with_cause(s[k], cause) || exists|a: int|
                0 <= a < s.len() && a != k && s[a] == e
        }),
{
    let tid = s[k].mark.tid;
    let kept = model::foreign(s.take(k), tid);
    let t = model::recovered(s, k, cause);
    if l < kept.len() {
        let pred = |e: Entry| e.mark.tid != tid;
        assert(t[l] == kept[l]);
        assert(s.take(k).filter(pred).contains(t[l]));
        s.take(k).lemma_filter_contains_rev(pred, t[l]);
        let a = s.take(k).index_of(t[l]);
        assert(s[a] == t[l]);
    } else if l > kept.len() {
        let a = l - kept.len() + k;
        assert(s[a] == t[l]);
    }
}

/// A handle that was given out and is not linked is not linked again by any operation.
proof fn lemma_gone_stays_gone(s: Snapshot, t: Snapshot, id: MarkId)
    requires
        model::step(s, t),
        s.issued.contains(id),
        !model::is_linked(s.marks, id),
    ensures
        t.issued.contains(id),
        !model::is_linked(t.marks, id),
{
    if model::is_linked(t.marks, id) {
        let l = choose|l: int| model::is_at(t.marks, l, id);
        if exists|i: MarkId, m: Mark| m.cause is None && #[trigger] model::enters(s, i, m, t) {
            assert(l > 0);
            assert(model::is_at(s.marks, l - 1, id));
        } else if exists|i: MarkId, c: bool, m: Option<Mark>| #[trigger]
            model::leaves(s, i, c, m, t) {
            let (i, c, m) = choose|i: MarkId, c: bool, m: Option<Mark>| #[trigger]
                model::leaves(s, i, c, m, t);
            if m is Some {
                let k = choose|k: int| #[trigger]
                    model::is_at(s.marks, k, i) && t.marks == s.marks.remove(k);
                assert(model::is_at(s.marks, if l < k { l } else { l + 1 }, id));
            }
        } else {
            let (tid, cause, r) = choose|tid: ThreadId, cause: i32, r: Result<usize, RecoveryFailure>|
             #[trigger] model::decides(s, tid, cause, r, t);
            if r is Ok {
                let k = choose|k: int| #[trigger]
                    model::is_target(s.marks, k, tid, cause) && t.marks == model::recovered(
                        s.marks,
                        k,
                        cause,
                    );
                lemma_recovered_at(s.marks, k, cause, l);
                if t.marks[l] == model::with_cause(s.marks[k], cause) {
                    assert(model::is_at(s.marks, k, id));
                } else {
                    let a = choose|a: int|
                        0 <= a < s.marks.len() && a != k && s.marks[a] == t.marks[l];
                    assert(model::is_at(s.marks, a, id));
                }
            }
        }
    }
}

/// An operation that keeps a mark linked changes nothing of it, unless it is a recovery
/// that jumps into its scope.
proof fn lemma_kept_mark(s: Snapshot, t: Snapshot, k: int, l: int, id: MarkId)
    requires
        model::step(s, t),
        s.wf(),
        t.wf(),
        model::is_at(s.marks, k, id),
        model::is_at(t.marks, l, id),
    ensures
        t.marks[l] == s.marks[k] || exists|c: i32| #[trigger]
            hits(s.marks, id, c, t.marks) && t.marks[l] == model::with_cause(s.marks[k], c),
{
    if exists|i: MarkId, m: Mark| m.cause is None && #[trigger] model::enters(s, i, m, t) {
        assert(t.marks[k + 1] == s.marks[k]);
        assert(l == k + 1);
    } else if exists|i: MarkId, c: bool, m: Option<Mark>| #[trigger]
            model::leaves(s, i, c, m, t) {
        let (i, c, m) = choose|i: MarkId, c: bool, m: Option<Mark>| #[trigger]
                model::leaves(s, i, c, m, t);
        if m is Some {
            let a = choose|a: int| #[trigger]
                model::is_at(s.marks, a, i) && t.marks == s.marks.remove(a);
            let b = if l < a { l } else { l + 1 };
            assert(t.marks[l] == s.marks[b]);
            assert(b == k);
        } else {
            assert(k == l);
        }
    } else {
        let (tid, cause, r) = choose|tid: ThreadId, cause: i32, r: Result<usize, RecoveryFailure>|
         #[trigger] model::decides(s, tid, cause, r, t);
        if r is Ok {
            let a = choose|a: int| #[trigger]
                model::is_target(s.marks, a, tid, cause) && t.marks == model::recovered(
                    s.marks,
                    a,
                    cause,
                );
            lemma_recovered_at(s.marks, a, cause, l);
            if t.marks[l] == model::with_cause(s.marks[a], cause) {
                assert(s.marks[a].id == id);
                assert(a == k);
                assert(model::is_at(s.marks, a, id));
                assert(hits(s.marks, id, cause, t.marks));
            } else {
                let b = choose|b: int|
                    0 <= b < s.marks.len() && b != a && s.marks[b] == t.marks[l];
                assert(b == k);
            }
        } else {
            assert(k == l);
        }
    }
}

/// A scope whose mark is still linked when it is left was linked all the while.
pub proof fn law_scope_stays_linked(
    registry: SharedRegistry,
    mark: Mark,
    i: nat,
    id: MarkId,
    j: nat,
    completed: bool,
    left: Option<Mark>,
    n: nat,
)
    requires
        scope::scope_at(registry, mark, i, id, j, completed, left),
        left is Some,
        i < n <= j,
    ensures
        model::is_linked(registry.held(n).marks, id),
    decreases j - n,
{
    if n == j {
    } else {
        law_scope_stays_linked(registry, mark, i, id, j, completed, left, n + 1);
        assert(registry.steps(n));
        scope::lemma_issued_stays(registry, i + 1, n, id);
        if !model::is_linked(registry.held(n).marks, id) {
            lemma_gone_stays_gone(registry.held(n), registry.held(n + 1), id);
        }
    }
}

/// The mark with handle `id`, where one is linked.
pub open spec fn mark_of(s: Seq<Entry>, id: MarkId) -> Mark {
    s[choose|k: int| model::is_at(s, k, id)].mark
}

/// The mark with a handle is the one at its position.
pub(crate) proof fn lemma_mark_of(s: Seq<Entry>, k: int, id: MarkId)
    requires
        model::distinct_ids(s),
        model::is_at(s, k, id),
    ensures
        mark_of(s, id) == s[k].mark,
{
    let l = choose|l: int| model::is_at(s, l, id);
    assert(l == k);
}

/// From one operation to the next, the mark of a scope stays as it is, or takes the
/// cause of the recovery that jumps into the scope.
proof fn lemma_mark_step(s: Snapshot, t: Snapshot, id: MarkId)
    requires
        model::step(s, t),
        s.wf(),
        t.wf(),
        model::is_linked(s.marks, id),
        model::is_linked(t.marks, id),
    ensures
        mark_of(t.marks, id) == mark_of(s.marks, id) || exists|c: i32| #[trigger]
            hits(s.marks, id, c, t.marks) && mark_of(t.marks, id) == (Mark {
                cause: Some(c),
                ..mark_of(s.marks, id)
            }),
{
    let k = choose|k: int| model::is_at(s.marks, k, id);
    let l = choose|l: int| model::is_at(t.marks, l, id);
    lemma_kept_mark(s, t, k, l, id);
}

/// A recovery that jumps into a scope leaves its cause in the mark.
pub(crate) proof fn lemma_hit_mark(s: Snapshot, t: Snapshot, id: MarkId, cause: i32)
    requires
        s.wf(),
        t.wf(),
        hits(s.marks, id, cause, t.marks),
    ensures
        model::is_linked(t.marks, id),
        mark_of(t.marks, id) == (Mark { cause: Some(cause), ..mark_of(s.marks, id) }),
{
    let k = choose|k: int| #[trigger]
        model::is_at(s.marks, k, id) && model::is_target(s.marks, k, s.marks[k].mark.tid, cause)
            && t.marks == model::recovered(s.marks, k, cause);
    let l = model::foreign(s.marks.take(k), s.marks[k].mark.tid).len() as int;
    assert(t.marks[l] == model::with_cause(s.marks[k], cause));
    assert(model::is_at(t.marks, l, id));
    lemma_mark_of(s.marks, k, id);
    lemma_mark_of(t.marks, l, id);
}

/// While a scope lasts, its mark is the one that it was entered with, but for the cause.
pub proof fn law_mark_stays_as_entered(
    registry: SharedRegistry,
    mark: Mark,
    i: nat,
    id: MarkId,
    j: nat,
    completed: bool,
    left: Option<Mark>,
    n: nat,
)
    requires
        scope::scope_at(registry, mark, i, id, j, completed, left),
        left is Some,
        i < n <= j,
    ensures
        model::is_linked(registry.held(n).marks, id),
        ({
            let now = mark_of(registry.held(n).marks, id);
            now == Mark { cause: now.cause, ..mark }
        }),
        n == i + 1 ==> mark_of(registry.held(n).marks, id) == mark,
        n == j ==> left == Some(mark_of(registry.held(n).marks, id)),
    decreases n,
{
    law_scope_stays_linked(registry, mark, i, id, j, completed, left, n);
    if n == i + 1 {
        assert(model::is_at(registry.held(n).marks, 0, id));
        lemma_mark_of(registry.held(n).marks, 0, id);
    } else {
        let m = (n - 1) as nat;
        law_mark_stays_as_entered(registry, mark, i, id, j, completed, left, m);
        assert(registry.steps(m));
        lemma_mark_step(registry.held(m), registry.held(n), id);
    }
    if n == j {
        let k = choose|k: int| #[trigger]
            model::is_at(registry.held(j).marks, k, id) && left->0 == registry.held(j).marks[k].mark;
        lemma_mark_of(registry.held(j).marks, k, id);
    }
}

/// A mark that holds a cause has it from a recovery that jumped into its scope.
proof fn lemma_cause_has_origin(
    registry: SharedRegistry,
    mark: Mark,
    i: nat,
    id: MarkId,
    j: nat,
    completed: bool,
    left: Option<Mark>,
    n: nat,
    cause: i32,
)
    requires
        scope::scope_at(registry, mark, i, id, j, completed, left),
        left is Some,
        mark.cause is None,
        i < n <= j,
        mark_of(registry.held(n).marks, id).cause == Some(cause),
    ensures
        exists|m: nat| i < m < n && #[trigger] hits_at(registry, m, id, cause),
    decreases n,
{
    law_mark_stays_as_entered(registry, mark, i, id, j, completed, left, n);
    let m = (n - 1) as nat;
    law_mark_stays_as_entered(registry, mark, i, id, j, completed, left, m);
    assert(registry.steps(m));
    lemma_mark_step(registry.held(m), registry.held(n), id);
    assert forall|c: i32| #[trigger] hits(
        registry.held(m).marks,
        id,
        c,
        registry.held(n).marks,
    ) implies hits_at(registry, m, id, c) by {}
    if mark_of(registry.held(m).marks, id) == mark_of(registry.held(n).marks, id) {
        lemma_cause_has_origin(registry, mark, i, id, j, completed, left, m, cause);
    }
}

/// A scope that was abandoned answers a cause that it was asked for: while the scope
/// lasted, a recovery for that cause jumped into this very scope.
pub proof fn law_reported_cause_was_asked_for<R>(
    registry: SharedRegistry,
    mark: Mark,
    i: nat,
    id: MarkId,
    j: nat,
    completed: bool,
    left: Option<Mark>,
    cause: i32,
)
    requires
        scope::scope_at(registry, mark, i, id, j, completed, left),
        mark.cause is None,
        left matches Some(now) && now.cause == Some(cause),
    ensures
        scope::concluded::<R>(None, left) == Err::<R, RecoveryError>(RecoveryError { cause }),
        exists|m: nat| i < m < j && #[trigger] hits_at(registry, m, id, cause),
{
    law_mark_stays_as_entered(registry, mark, i, id, j, completed, left, j);
    lemma_cause_has_origin(registry, mark, i, id, j, completed, left, j, cause);
}

/// The cause of the last recovery that jumped into a scope is what its mark holds from
/// then on.
proof fn lemma_last_cause_stays(
    registry: SharedRegistry,
    mark: Mark,
    i: nat,
    id: MarkId,
    j: nat,
    completed: bool,
    left: Option<Mark>,
    m: nat,
    cause: i32,
    n: nat,
)
    requires
        scope::scope_at(registry, mark, i, id, j, completed, left),
        left is Some,
        i < m < n <= j,
        hits_at(registry, m, id, cause),
        forall|l: nat, c: i32| m < l < j ==> !#[trigger] hits_at(registry, l, id, c),
    ensures
        mark_of(registry.held(n).marks, id).cause == Some(cause),
    decreases n,
{
    if n == m + 1 {
        lemma_hit_mark(registry.held(m), registry.held(n), id, cause);
    } else {
        let l = (n - 1) as nat;
        lemma_last_cause_stays(registry, mark, i, id, j, completed, left, m, cause, l);
        law_scope_stays_linked(registry, mark, i, id, j, completed, left, l);
        law_scope_stays_linked(registry, mark, i, id, j, completed, left, n);
        assert(registry.steps(l));
        lemma_mark_step(registry.held(l), registry.held(n), id);
        assert forall|c: i32| !#[trigger] hits(
            registry.held(l).marks,
            id,
            c,
            registry.held(n).marks,
        ) by {
            assert(!hits_at(registry, l, id, c));
        }
    }
}

/// A recovery that succeeds jumps into a scope of the thread that it was asked for: the
/// address that it answers is that of the scope's `jmp_buf`, and the scope's mark then
/// holds the cause.
pub proof fn law_recovery_jumps_into_a_scope(
    registry: SharedRegistry,
    n: nat,
    tid: ThreadId,
    cause: i32,
    jmpbuf: usize,
)
    requires
        scope::decided_at(registry, n, tid, cause, Ok(jmpbuf)),
    ensures
        exists|id: MarkId| #[trigger]
            hits_at(registry, n, id, cause) && mark_of(registry.held(n).marks, id).tid == tid
                && mark_of(registry.held(n).marks, id).jmpbuf == jmpbuf && mark_of(
                registry.held(n + 1).marks,
                id,
            ).cause == Some(cause),
{
    let s = registry.held(n).marks;
    let k = choose|k: int| #[trigger]
        model::is_target(s, k, tid, cause) && jmpbuf == s[k].mark.jmpbuf
            && registry.held(n + 1).marks == model::recovered(s, k, cause);
    let id = s[k].id;
    assert(model::is_at(s, k, id));
    assert(registry.held(n).wf());
    lemma_mark_of(s, k, id);
    assert(hits_at(registry, n, id, cause));
    assert(registry.held(n + 1).wf());
    lemma_hit_mark(registry.held(n), registry.held(n + 1), id, cause);
}

/// A handle that was given out and is not linked is never linked again.
proof fn lemma_gone_for_good(registry: SharedRegistry, m: nat, n: nat, id: MarkId)
    requires
        registry.lived(n),
        m <= n,
        registry.held(m).issued.contains(id),
        !model::is_linked(registry.held(m).marks, id),
    ensures
        !model::is_linked(registry.held(n).marks, id),
    decreases n - m,
{
    if m < n {
        assert(registry.steps(m));
        lemma_gone_stays_gone(registry.held(m), registry.held(m + 1), id);
        lemma_gone_for_good(registry, m + 1, n, id);
    }
}

/// A recovery jumps into a scope only while the scope lasts.
pub proof fn law_jump_falls_within_the_scope(
    registry: SharedRegistry,
    mark: Mark,
    i: nat,
    id: MarkId,
    j: nat,
    completed: bool,
    left: Option<Mark>,
    m: nat,
    cause: i32,
)
    requires
        scope::scope_at(registry, mark, i, id, j, completed, left),
        left is Some,
        registry.lived(m + 1),
        hits_at(registry, m, id, cause),
    ensures
        i < m < j,
{
    let s = registry.held(m);
    assert(s.wf() && registry.held(m + 1).wf());
    lemma_hit_mark(s, registry.held(m + 1), id, cause);
    let k = choose|k: int| #[trigger] model::is_at(s.marks, k, id);
    assert(s.issued.contains(s.marks[k].id));
    if m <= i {
        scope::lemma_issued_stays(registry, m, i, id);
    }
    if m >= j {
        let before = registry.held(j).marks;
        let p = choose|p: int| #[trigger] model::is_at(before, p, id);
        assert(registry.held(j).wf());
        assert(registry.held(j).issued.contains(before[p].id));
        assert(scope::left_at(registry, j, id, completed, Some(left->0)));
        lemma_taken_out_is_gone(registry, j, id);
        lemma_gone_for_good(registry, j + 1, m + 1, id);
    }
}

/// A scope that a recovery jumped into answers, being abandoned, the cause of that
/// recovery, or of the last one if there were more.
pub proof fn law_asked_cause_is_reported<R>(
    registry: SharedRegistry,
    mark: Mark,
    i: nat,
    id: MarkId,
    j: nat,
    completed: bool,
    left: Option<Mark>,
    m: nat,
    cause: i32,
)
    requires
        scope::scope_at(registry, mark, i, id, j, completed, left),
        left is Some,
        registry.lived(m + 1),
        hits_at(registry, m, id, cause),
        forall|l: nat, c: i32| m < l < j ==> !#[trigger] hits_at(registry, l, id, c),
    ensures
        scope::concluded::<R>(None, left) == Err::<R, RecoveryError>(RecoveryError { cause }),
{
    law_jump_falls_within_the_scope(registry, mark, i, id, j, completed, left, m, cause);
    lemma_last_cause_stays(registry, mark, i, id, j, completed, left, m, cause, j);
    law_mark_stays_as_entered(registry, mark, i, id, j, completed, left, j);
}

/// The scope with handle `inner` is nested in the one with handle `outer`.
pub open spec fn nested_in(s: Seq<Entry>, inner: MarkId, outer: MarkId) -> bool {
    exists|a: int, b: int| #[trigger]
        model::is_at(s, a, inner) && #[trigger] model::is_at(s, b, outer) && a < b
}

/// The operation after the first `n` takes the mark with handle `id` out of the list: it
/// leaves that scope, or is a recovery of its thread into a scope around it.
pub open spec fn taken_out_at(registry: SharedRegistry, n: nat, id: MarkId) -> bool {
    ||| exists|completed: bool, mark: Mark| #[trigger]
        scope::left_at(registry, n, id, completed, Some(mark))
    ||| exists|outer: MarkId, cause: i32| #[trigger]
        hits_at(registry, n, outer, cause) && nested_in(registry.held(n).marks, id, outer)
            && mark_of(registry.held(n).marks, id).tid == mark_of(
            registry.held(n).marks,
            outer,
        ).tid
}

/// A recovery keeps the marks of other threads, and those behind its target.
proof fn lemma_recovery_keeps(s: Seq<Entry>, k: int, cause: i32, p: int)
    requires
        0 <= k < s.len(),
        0 <= p < s.len(),
        p >= k || s[p].mark.tid != s[k].mark.tid,
    ensures
        model::is_linked(model::recovered(s, k, cause), s[p].id),
{
    let tid = s[k].mark.tid;
    let kept = model::foreign(s.take(k), tid);
    let t = model::recovered(s, k, cause);
    if p < k {
        let pred = |e: Entry| e.mark.tid != tid;
        assert(s.take(k)[p] == s[p]);
        s.take(k).lemma_filter_contains(pred, p);
        let l = kept.index_of(s[p]);
        assert(t[l] == s[p]);
        assert(model::is_at(t, l, s[p].id));
    } else {
        assert(model::is_at(t, kept.len() + p - k, s[p].id));
    }
}

/// A recovery drops the marks of its thread that are nested in its target.
proof fn lemma_recovery_drops(s: Seq<Entry>, k: int, cause: i32, p: int)
    requires
        model::distinct_ids(s),
        0 <= p < k < s.len(),
        s[p].mark.tid == s[k].mark.tid,
    ensures
        !model::is_linked(model::recovered(s, k, cause), s[p].id),
{
    let tid = s[k].mark.tid;
    let kept = model::foreign(s.take(k), tid);
    let t = model::recovered(s, k, cause);
    if model::is_linked(t, s[p].id) {
        let l = choose|l: int| model::is_at(t, l, s[p].id);
        if l < kept.len() {
            let pred = |e: Entry| e.mark.tid != tid;
            assert(t[l] == kept[l]);
            s.take(k).lemma_filter_pred(pred, l);
            assert(s.take(k).filter(pred).contains(t[l]));
            s.take(k).lemma_filter_contains_rev(pred, t[l]);
            let a = s.take(k).index_of(t[l]);
            assert(s[a] == t[l]);
            assert(a == p);
        } else if l > kept.len() {
            assert(t[l] == s[l - kept.len() + k]);
        }
    }
}

/// An operation after which a mark is not linked any more took it out.
proof fn lemma_taken_out_in_one(registry: SharedRegistry, n: nat, id: MarkId)
    requires
        registry.lived(n + 1),
        model::is_linked(registry.held(n).marks, id),
        !model::is_linked(registry.held(n + 1).marks, id),
    ensures
        taken_out_at(registry, n, id),
{
    let s = registry.held(n);
    let t = registry.held(n + 1);
    let p = choose|p: int| model::is_at(s.marks, p, id);
    assert(registry.steps(n));
    assert(s.wf());
    if exists|i: MarkId, m: Mark| m.cause is None && #[trigger] model::enters(s, i, m, t) {
        assert(model::is_at(t.marks, p + 1, id));
    } else if exists|i: MarkId, c: bool, m: Option<Mark>| #[trigger] model::leaves(s, i, c, m, t) {
        let (i, c, m) = choose|i: MarkId, c: bool, m: Option<Mark>| #[trigger]
            model::leaves(s, i, c, m, t);
        let k = choose|k: int| #[trigger]
            model::is_at(s.marks, k, i) && t.marks == s.marks.remove(k);
        if k != p {
            assert(model::is_at(t.marks, if p < k { p } else { p - 1 }, id));
        }
        assert(scope::left_at(registry, n, id, c, Some(m->0)));
    } else {
        let (tid, cause, r) = choose|tid: ThreadId, cause: i32, r: Result<usize, RecoveryFailure>|
         #[trigger] model::decides(s, tid, cause, r, t);
        let k = choose|k: int| #[trigger]
            model::is_target(s.marks, k, tid, cause) && t.marks == model::recovered(
                s.marks,
                k,
                cause,
            );
        if p >= k || s.marks[p].mark.tid != s.marks[k].mark.tid {
            lemma_recovery_keeps(s.marks, k, cause, p);
        }
        let outer = s.marks[k].id;
        assert(model::is_at(s.marks, k, outer));
        assert(hits_at(registry, n, outer, cause));
        lemma_mark_of(s.marks, p, id);
        lemma_mark_of(s.marks, k, outer);
    }
}

/// A mark that was linked and later is not was taken out in between.
proof fn lemma_taken_out(registry: SharedRegistry, m: nat, n: nat, id: MarkId)
    requires
        registry.lived(n),
        m < n,
        model::is_linked(registry.held(m).marks, id),
        !model::is_linked(registry.held(n).marks, id),
    ensures
        exists|l: nat| m <= l < n && #[trigger] taken_out_at(registry, l, id),
    decreases n - m,
{
    if model::is_linked(registry.held(m + 1).marks, id) {
        lemma_taken_out(registry, m + 1, n, id);
    } else {
        lemma_taken_out_in_one(registry, m, id);
    }
}

/// A mark that is taken out is not linked after that.
proof fn lemma_taken_out_is_gone(registry: SharedRegistry, n: nat, id: MarkId)
    requires
        registry.lived(n + 1),
        taken_out_at(registry, n, id),
    ensures
        !model::is_linked(registry.held(n + 1).marks, id),
{
    let s = registry.held(n).marks;
    let t = registry.held(n + 1).marks;
    assert(registry.held(n).wf());
    if exists|completed: bool, mark: Mark| #[trigger]
        scope::left_at(registry, n, id, completed, Some(mark)) {
        let (completed, mark) = choose|completed: bool, mark: Mark| #[trigger]
            scope::left_at(registry, n, id, completed, Some(mark));
        let p = choose|p: int| #[trigger] model::is_at(s, p, id) && t == s.remove(p);
        if model::is_linked(t, id) {
            let q = choose|q: int| model::is_at(t, q, id);
            assert(t[q] == s[if q < p { q } else { q + 1 }]);
        }
    } else {
        let (outer, cause) = choose|outer: MarkId, cause: i32| #[trigger]
            hits_at(registry, n, outer, cause) && nested_in(s, id, outer) && mark_of(s, id).tid
                == mark_of(s, outer).tid;
        let (p, b) = choose|a: int, b: int| #[trigger]
            model::is_at(s, a, id) && #[trigger] model::is_at(s, b, outer) && a < b;
        let k = choose|k: int| #[trigger]
            model::is_at(s, k, outer) && model::is_target(s, k, s[k].mark.tid, cause) && t
                == model::recovered(s, k, cause);
        assert(k == b);
        lemma_mark_of(s, p, id);
        lemma_mark_of(s, k, outer);
        lemma_recovery_drops(s, k, cause, p);
    }
}

/// A scope whose mark is not linked any more when it is left: an operation took the mark
/// out after the scope was entered. It left that scope, or was a recovery of the thread
/// into a scope around it.
pub proof fn law_missing_mark_was_taken_out(
    registry: SharedRegistry,
    mark: Mark,
    i: nat,
    id: MarkId,
    j: nat,
    completed: bool,
)
    requires
        scope::scope_at(registry, mark, i, id, j, completed, None),
        i < j,
    ensures
        exists|m: nat| i < m < j && #[trigger] taken_out_at(registry, m, id),
{
    assert(model::is_at(registry.held(i + 1).marks, 0, id));
    if i + 1 < j {
        lemma_taken_out(registry, i + 1, j, id);
        let m = choose|l: nat| i + 1 <= l < j && #[trigger] taken_out_at(registry, l, id);
        assert(i < m < j && taken_out_at(registry, m, id));
    }
}

/// `t` is what thread `tid` makes of `s` by an operation in the scope with handle `id`:
/// it enters a scope, leaves one that is nested in that scope, or recovers.
pub open spec fn inner_step(s: Snapshot, t: Snapshot, id: MarkId, tid: ThreadId) -> bool {
    ||| exists|i: MarkId, mark: Mark| mark.tid == tid && #[trigger] model::enters(s, i, mark, t)
    ||| exists|i: MarkId, c: bool, left: Option<Mark>|
        (left is Some ==> nested_in(s.marks, i, id)) && #[trigger] model::leaves(s, i, c, left, t)
    ||| exists|cause: i32, r: Result<usize, RecoveryFailure>| #[trigger]
        model::decides(s, tid, cause, r, t)
}

/// The operation after the first `n` is one of thread `tid` in the scope with handle
/// `id`.
pub open spec fn inner_at(registry: SharedRegistry, n: nat, id: MarkId, tid: ThreadId) -> bool {
    inner_step(registry.held(n), registry.held(n + 1), id, tid)
}

/// The mark with handle `id` is at position `p` of `s`, behind marks of its thread `tid`
/// only, and in front of `base`.
spec fn sits_on(s: Seq<Entry>, p: int, id: MarkId, tid: ThreadId, base: Seq<Entry>) -> bool {
    &&& model::is_at(s, p, id)
    &&& s[p].mark.tid == tid
    &&& forall|a: int| 0 <= a < p ==> (#[trigger] s[a]).mark.tid == tid
    &&& s.skip(p + 1) == base
}

/// No mark of another thread is among marks of one thread.
proof fn lemma_foreign_of_own(s: Seq<Entry>, tid: ThreadId)
    requires
        forall|a: int| 0 <= a < s.len() ==> (#[trigger] s[a]).mark.tid == tid,
    ensures
        model::foreign(s, tid) == Seq::<Entry>::empty(),
    decreases s.len(),
{
    reveal(Seq::filter);
    if s.len() > 0 {
        let rest = s.drop_last();
        assert forall|a: int| 0 <= a < rest.len() implies (#[trigger] rest[a]).mark.tid == tid by {
            assert(rest[a] == s[a]);
        }
        lemma_foreign_of_own(rest, tid);
    }
}

/// A recovery of the thread that keeps the scope keeps what is behind it, and leaves in
/// front of it no more than marks of the thread.
proof fn lemma_recovery_sits(
    s: Seq<Entry>,
    p: int,
    id: MarkId,
    tid: ThreadId,
    base: Seq<Entry>,
    k: int,
    cause: i32,
)
    requires
        model::distinct_ids(s),
        sits_on(s, p, id, tid, base),
        model::is_target(s, k, tid, cause),
        model::is_linked(model::recovered(s, k, cause), id),
    ensures
        k <= p,
        sits_on(model::recovered(s, k, cause), p - k, id, tid, base),
{
    let t = model::recovered(s, k, cause);
    if k > p {
        lemma_recovery_drops(s, k, cause, p);
    }
    assert forall|a: int| 0 <= a < s.take(k).len() implies (#[trigger] s.take(k)[a]).mark.tid
        == tid by {
        assert(s.take(k)[a] == s[a]);
    }
    lemma_foreign_of_own(s.take(k), tid);
    assert(t =~= seq![model::with_cause(s[k], cause)] + s.skip(k + 1));
    assert(t.skip(p - k + 1) =~= s.skip(p + 1));
    assert forall|a: int| 0 <= a < p - k implies (#[trigger] t[a]).mark.tid == tid by {
        if a > 0 {
            assert(t[a] == s[a + k]);
        }
    }
    if p > k {
        assert(t[p - k] == s[p]);
    }
}

/// An operation in a scope that keeps the scope keeps what is behind it.
proof fn lemma_inner_step_sits(
    s: Snapshot,
    t: Snapshot,
    p: int,
    id: MarkId,
    tid: ThreadId,
    base: Seq<Entry>,
)
    requires
        s.wf(),
        t.wf(),
        inner_step(s, t, id, tid),
        sits_on(s.marks, p, id, tid, base),
        model::is_linked(t.marks, id),
    ensures
        exists|q: int| sits_on(t.marks, q, id, tid, base),
{
    if exists|i: MarkId, mark: Mark| mark.tid == tid && #[trigger] model::enters(s, i, mark, t) {
        assert(t.marks[p + 1] == s.marks[p]);
        assert forall|a: int| 0 <= a < p + 1 implies (#[trigger] t.marks[a]).mark.tid == tid by {
            if a > 0 {
                assert(t.marks[a] == s.marks[a - 1]);
            }
        }
        assert(t.marks.skip(p + 2) =~= s.marks.skip(p + 1));
        assert(sits_on(t.marks, p + 1, id, tid, base));
    } else if exists|i: MarkId, c: bool, left: Option<Mark>|
        (left is Some ==> nested_in(s.marks, i, id)) && #[trigger] model::leaves(s, i, c, left, t) {
        let (i, c, left) = choose|i: MarkId, c: bool, left: Option<Mark>|
            (left is Some ==> nested_in(s.marks, i, id)) && #[trigger]
                model::leaves(s, i, c, left, t);
        if left is Some {
            let (a, b) = choose|a: int, b: int| #[trigger]
                model::is_at(s.marks, a, i) && #[trigger] model::is_at(s.marks, b, id) && a < b;
            assert(b == p);
            let k = choose|k: int| #[trigger]
                model::is_at(s.marks, k, i) && t.marks == s.marks.remove(k);
            assert(k == a);
            assert(t.marks[p - 1] == s.marks[p]);
            assert forall|c: int| 0 <= c < p - 1 implies (#[trigger] t.marks[c]).mark.tid
                == tid by {
                assert(t.marks[c] == s.marks[if c < k { c } else { c + 1 }]);
            }
            assert(t.marks.skip(p) =~= s.marks.skip(p + 1));
            assert(sits_on(t.marks, p - 1, id, tid, base));
        } else {
            assert(sits_on(t.marks, p, id, tid, base));
        }
    } else {
        let (cause, r) = choose|cause: i32, r: Result<usize, RecoveryFailure>| #[trigger]
            model::decides(s, tid, cause, r, t);
        if r is Ok {
            let k = choose|k: int| #[trigger]
                model::is_target(s.marks, k, tid, cause) && t.marks == model::recovered(
                    s.marks,
                    k,
                    cause,
                );
            lemma_recovery_sits(s.marks, p, id, tid, base, k, cause);
        } else {
            assert(sits_on(t.marks, p, id, tid, base));
        }
    }
}

/// While only its own thread acts, a scope sits on what was linked when it was entered.
proof fn lemma_lone_scope_sits(
    registry: SharedRegistry,
    mark: Mark,
    i: nat,
    id: MarkId,
    j: nat,
    completed: bool,
    left: Option<Mark>,
    n: nat,
)
    requires
        scope::scope_at(registry, mark, i, id, j, completed, left),
        left is Some,
        forall|m: nat| i < m < j ==> #[trigger] inner_at(registry, m, id, mark.tid),
        i < n <= j,
    ensures
        exists|q: int|
            sits_on(registry.held(n).marks, q, id, mark.tid, registry.held(i).marks),
    decreases n,
{
    let base = registry.held(i).marks;
    if n == i + 1 {
        let t = registry.held(n).marks;
        assert(t.skip(1) =~= base);
        assert(sits_on(t, 0, id, mark.tid, base));
    } else {
        let m = (n - 1) as nat;
        lemma_lone_scope_sits(registry, mark, i, id, j, completed, left, m);
        let p = choose|p: int| sits_on(registry.held(m).marks, p, id, mark.tid, base);
        law_scope_stays_linked(registry, mark, i, id, j, completed, left, n);
        assert(inner_at(registry, m, id, mark.tid));
        lemma_inner_step_sits(registry.held(m), registry.held(n), p, id, mark.tid, base);
    }
}

/// An operation that links a mark enters its scope.
proof fn lemma_linked_by_entering(registry: SharedRegistry, n: nat, id: MarkId)
    requires
        registry.lived(n + 1),
        !model::is_linked(registry.held(n).marks, id),
        model::is_linked(registry.held(n + 1).marks, id),
    ensures
        exists|mark: Mark| scope::entered_at(registry, mark, n, id),
{
    let s = registry.held(n);
    let t = registry.held(n + 1);
    let l = choose|l: int| model::is_at(t.marks, l, id);
    assert(registry.steps(n));
    if exists|i: MarkId, m: Mark| m.cause is None && #[trigger] model::enters(s, i, m, t) {
        let (i, m) = choose|i: MarkId, m: Mark|
            m.cause is None && #[trigger] model::enters(s, i, m, t);
        if l > 0 {
            assert(model::is_at(s.marks, l - 1, id));
        }
        assert(scope::entered_at(registry, m, n, id));
    } else if exists|i: MarkId, c: bool, m: Option<Mark>| #[trigger] model::leaves(s, i, c, m, t) {
        let (i, c, m) = choose|i: MarkId, c: bool, m: Option<Mark>| #[trigger]
            model::leaves(s, i, c, m, t);
        if m is Some {
            let k = choose|k: int| #[trigger]
                model::is_at(s.marks, k, i) && t.marks == s.marks.remove(k);
            assert(model::is_at(s.marks, if l < k { l } else { l + 1 }, id));
        }
    } else {
        let (tid, cause, r) = choose|tid: ThreadId, cause: i32, r: Result<usize, RecoveryFailure>|
         #[trigger] model::decides(s, tid, cause, r, t);
        if r is Ok {
            let k = choose|k: int| #[trigger]
                model::is_target(s.marks, k, tid, cause) && t.marks == model::recovered(
                    s.marks,
                    k,
                    cause,
                );
            lemma_recovered_at(s.marks, k, cause, l);
            if t.marks[l] == model::with_cause(s.marks[k], cause) {
                assert(model::is_at(s.marks, k, id));
            } else {
                let a = choose|a: int|
                    0 <= a < s.marks.len() && a != k && s.marks[a] == t.marks[l];
                assert(model::is_at(s.marks, a, id));
            }
        }
    }
}

/// A mark that was not linked and later is was entered in between.
proof fn lemma_entered_between(registry: SharedRegistry, m: nat, n: nat, id: MarkId)
    requires
        registry.lived(n),
        m < n,
        !model::is_linked(registry.held(m).marks, id),
        model::is_linked(registry.held(n).marks, id),
    ensures
        exists|mark: Mark, l: nat| m <= l < n && #[trigger]
            scope::entered_at(registry, mark, l, id),
    decreases n - m,
{
    if model::is_linked(registry.held(m + 1).marks, id) {
        lemma_linked_by_entering(registry, m, id);
        let mark = choose|mark: Mark| scope::entered_at(registry, mark, m, id);
        assert(scope::entered_at(registry, mark, m, id));
    } else {
        lemma_entered_between(registry, m + 1, n, id);
        let (mark, l) = choose|mark: Mark, l: nat| m + 1 <= l < n && #[trigger]
            scope::entered_at(registry, mark, l, id);
        assert(scope::entered_at(registry, mark, l, id));
    }
}

/// The operation after the first `n` leaves the scope with handle `id`, or takes its mark
/// out.
pub open spec fn over_at(registry: SharedRegistry, n: nat, id: MarkId) -> bool {
    ||| exists|completed: bool, left: Option<Mark>| #[trigger]
        scope::left_at(registry, n, id, completed, left)
    ||| taken_out_at(registry, n, id)
}

/// Every scope that was entered after the first `i + 1` operations is over after the first
/// `j` ones.
pub open spec fn all_over(registry: SharedRegistry, i: nat, j: nat) -> bool {
    forall|mark: Mark, m: nat, id: MarkId|
        i < m < j && #[trigger] scope::entered_at(registry, mark, m, id) ==> exists|l: nat|
            m < l < j && #[trigger] over_at(registry, l, id)
}

/// A scope that is over is not linked.
pub(crate) proof fn lemma_over_is_gone(registry: SharedRegistry, n: nat, id: MarkId)
    requires
        registry.lived(n + 1),
        over_at(registry, n, id),
    ensures
        !model::is_linked(registry.held(n + 1).marks, id),
{
    if taken_out_at(registry, n, id) {
        lemma_taken_out_is_gone(registry, n, id);
    }
}

/// Where no other thread acts, a scope that returns leaves the whole list as it was: the
/// same marks with the same causes in the same order. It may have run any scopes nested
/// in it, which are over when it returns.
pub proof fn law_lone_scope_restores_the_list(
    registry: SharedRegistry,
    mark: Mark,
    i: nat,
    id: MarkId,
    j: nat,
    completed: bool,
    left: Option<Mark>,
)
    requires
        scope::scope_at(registry, mark, i, id, j, completed, left),
        left is Some,
        forall|m: nat| i < m < j ==> #[trigger] inner_at(registry, m, id, mark.tid),
        all_over(registry, i, j),
    ensures
        registry.held(j + 1).marks == registry.held(i).marks,
{
    let base = registry.held(i).marks;
    let s = registry.held(j).marks;
    lemma_lone_scope_sits(registry, mark, i, id, j, completed, left, j);
    let p = choose|p: int| sits_on(s, p, id, mark.tid, base);
    assert(registry.held(j).wf());
    if p > 0 {
        let inner = s[0].id;
        let first = registry.held(i + 1).marks;
        assert(model::is_at(s, 0, inner));
        if model::is_linked(first, inner) {
            let l = choose|l: int| model::is_at(first, l, inner);
            assert(first[0].id == id);
            if l > 0 {
                assert(first[l] == base[l - 1]);
                assert(base[l - 1] == s[l + p]);
            }
        }
        lemma_entered_between(registry, i + 1, j, inner);
        let (mk, m) = choose|mk: Mark, m: nat| i + 1 <= m < j && #[trigger]
            scope::entered_at(registry, mk, m, inner);
        let l = choose|l: nat| m < l < j && #[trigger] over_at(registry, l, inner);
        lemma_over_is_gone(registry, l, inner);
        scope::lemma_issued_stays(registry, m + 1, l + 1, inner);
        lemma_gone_for_good(registry, l + 1, j, inner);
    }
    let k = choose|k: int| #[trigger]
        model::is_at(s, k, id) && registry.held(j + 1).marks == s.remove(k);
    assert(k == 0);
    assert(s.remove(0) =~= s.skip(1));
}

} // verus!
