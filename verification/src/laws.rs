//! What holds of the registry as a whole, over any order in which threads use it.
use crate::error::{RecoveryError, RecoveryFailure};
use crate::model;
use crate::model::{Entry, Mark, MarkId, ThreadId};
use crate::scope;
use vstd::prelude::*;

verus! {

/// `t` is what some operation of a thread other than `tid` makes of `s`: it enters a
/// scope, leaves one, recovers into one, or fails to recover.
pub open spec fn foreign_step(s: Seq<Entry>, t: Seq<Entry>, tid: ThreadId) -> bool {
    ||| exists|id: MarkId, mark: Mark| mark.tid != tid && #[trigger] model::links(s, id, mark, t)
    ||| exists|id: MarkId, left: Option<Mark>|
        (left matches Some(mark) ==> mark.tid != tid) && #[trigger] model::unlinks(s, id, left, t)
    ||| exists|other: ThreadId, cause: i32, r: Result<usize, RecoveryFailure>|
        other != tid && #[trigger] model::recovers(s, other, cause, r, t)
}

/// The registry goes through `states` while every thread but `tid` may use it.
pub open spec fn foreign_run(states: Seq<Seq<Entry>>, tid: ThreadId) -> bool {
    &&& states.len() > 0
    &&& forall|i: int| 0 <= i < states.len() - 1 ==> #[trigger] foreign_step_at(states, i, tid)
}

/// Another thread than `tid` leads from the `i`-th of `states` to the one after it.
pub open spec fn foreign_step_at(states: Seq<Seq<Entry>>, i: int, tid: ThreadId) -> bool {
    foreign_step(states[i], states[i + 1], tid)
}

/// From `s` to `t` the scopes of thread `tid` stay as they are, with their causes and
/// in their order.
pub open spec fn calm(s: Seq<Entry>, t: Seq<Entry>, tid: ThreadId) -> bool {
    model::own(t, tid) == model::own(s, tid)
}

/// A single mark is its thread's own, and no other's.
proof fn lemma_own_one(e: Entry, tid: ThreadId)
    ensures
        model::own(seq![e], tid) == if e.mark.tid == tid {
            seq![e]
        } else {
            Seq::empty()
        },
{
    reveal(Seq::filter);
    assert(seq![e].drop_last() =~= Seq::empty());
    assert(model::own(seq![e].drop_last(), tid) =~= Seq::empty());
    if e.mark.tid == tid {
        assert(model::own(seq![e], tid) =~= seq![e]);
    }
}

/// The marks of a thread in two sequences are its marks in one and then in the other.
proof fn lemma_own_add(a: Seq<Entry>, b: Seq<Entry>, tid: ThreadId)
    ensures
        model::own(a + b, tid) == model::own(a, tid) + model::own(b, tid),
{
    Seq::filter_distributes_over_add(a, b, |e: Entry| e.mark.tid == tid);
}

/// The marks of a thread before, at and after a position.
proof fn lemma_own_split(s: Seq<Entry>, k: int, tid: ThreadId)
    requires
        0 <= k < s.len(),
    ensures
        model::own(s, tid) == model::own(s.take(k), tid) + model::own(seq![s[k]], tid) + model::own(
            s.skip(k + 1),
            tid,
        ),
{
    assert(s =~= s.take(k) + seq![s[k]] + s.skip(k + 1));
    lemma_own_add(s.take(k) + seq![s[k]], s.skip(k + 1), tid);
    lemma_own_add(s.take(k), seq![s[k]], tid);
}

/// Dropping one thread's marks keeps the marks of every other thread.
proof fn lemma_own_of_foreign(s: Seq<Entry>, gone: ThreadId, tid: ThreadId)
    ensures
        model::own(model::foreign(s, gone), tid) == if gone == tid {
            Seq::empty()
        } else {
            model::own(s, tid)
        },
    decreases s.len(),
{
    reveal(Seq::filter);
    if s.len() > 0 {
        let rest = s.drop_last();
        lemma_own_of_foreign(rest, gone, tid);
        if s.last().mark.tid != gone {
            let kept = model::foreign(rest, gone);
            assert(kept.push(s.last()).drop_last() =~= kept);
        }
    }
}

/// What a recovery does to the marks of each thread.
proof fn lemma_own_recovered(s: Seq<Entry>, k: int, cause: i32, tid: ThreadId)
    requires
        0 <= k < s.len(),
    ensures
        model::own(model::recovered(s, k, cause), tid) == if s[k].mark.tid == tid {
            seq![model::with_cause(s[k], cause)] + model::own(s.skip(k + 1), tid)
        } else {
            model::own(s, tid)
        },
{
    let gone = s[k].mark.tid;
    let hit = model::with_cause(s[k], cause);
    lemma_own_add(model::foreign(s.take(k), gone) + seq![hit], s.skip(k + 1), tid);
    lemma_own_add(model::foreign(s.take(k), gone), seq![hit], tid);
    lemma_own_of_foreign(s.take(k), gone, tid);
    lemma_own_one(hit, tid);
    lemma_own_one(s[k], tid);
    lemma_own_split(s, k, tid);
    if gone == tid {
        assert(Seq::<Entry>::empty() + seq![hit] =~= seq![hit]);
    }
}

/// A recovery either has exactly one target or none: it is decided by the list.
pub proof fn law_recovery_is_decided(s: Seq<Entry>, tid: ThreadId, cause: i32)
    ensures
        model::none_admits(s, tid, cause) <==> !(exists|k: int|
            model::is_target(s, k, tid, cause)),
        forall|j: int, k: int| #[trigger]
            model::is_target(s, j, tid, cause) && #[trigger] model::is_target(s, k, tid, cause)
                ==> j == k,
    decreases s.len(),
{
    if !model::none_admits(s, tid, cause) {
        let last = s.len() - 1;
        let init = s.take(last);
        law_recovery_is_decided(init, tid, cause);
        if model::none_admits(init, tid, cause) {
            assert forall|j: int| 0 <= j < last implies !s[j].mark.spec_admits(tid, cause) by {
                assert(init[j] == s[j]);
            }
            assert(model::is_target(s, last, tid, cause));
        } else {
            let k = choose|k: int| model::is_target(init, k, tid, cause);
            assert forall|j: int| 0 <= j < k implies !s[j].mark.spec_admits(tid, cause) by {
                assert(init[j] == s[j]);
            }
            assert(init[k] == s[k]);
            assert(model::is_target(s, k, tid, cause));
        }
    }
}

/// The scope that a thread entered last is the one that a recovery resolves to, if it
/// accepts the cause.
pub proof fn law_innermost_scope_is_the_target(
    s: Seq<Entry>,
    id: MarkId,
    mark: Mark,
    tid: ThreadId,
    cause: i32,
)
    requires
        mark.spec_admits(tid, cause),
    ensures
        model::is_target(model::pushed(s, id, mark), 0, tid, cause),
{
}

/// A scope that does not admit a recovery is skipped, whether its thread differs or
/// its cause: with it or without it, the recovery resolves to the same mark, or to none.
pub proof fn law_other_scope_is_skipped(
    s: Seq<Entry>,
    id: MarkId,
    mark: Mark,
    tid: ThreadId,
    cause: i32,
)
    requires
        !mark.spec_admits(tid, cause),
    ensures
        forall|k: int| #[trigger]
            model::is_target(s, k, tid, cause) <==> model::is_target(
                model::pushed(s, id, mark),
                k + 1,
                tid,
                cause,
            ),
        model::none_admits(s, tid, cause) <==> model::none_admits(
            model::pushed(s, id, mark),
            tid,
            cause,
        ),
{
    let t = model::pushed(s, id, mark);
    assert(t[0].mark == mark);
    assert(forall|j: int| 0 <= j < s.len() ==> #[trigger] s[j] == t[j + 1]);
    assert forall|k: int| #[trigger] model::is_target(s, k, tid, cause) implies model::is_target(
        t,
        k + 1,
        tid,
        cause,
    ) by {
        assert(t[k + 1] == s[k]);
        assert forall|j: int| 0 <= j < k + 1 implies !t[j].mark.spec_admits(tid, cause) by {
            if j > 0 {
                assert(t[j] == s[j - 1]);
            }
        }
    }
    if model::none_admits(s, tid, cause) {
        assert forall|j: int| 0 <= j < t.len() implies !t[j].mark.spec_admits(tid, cause) by {
            if j > 0 {
                assert(t[j] == s[j - 1]);
            }
        }
    }
}

/// Leaving a scope undoes entering it.
pub proof fn law_leave_undoes_enter(
    s: Seq<Entry>,
    id: MarkId,
    mark: Mark,
    t: Seq<Entry>,
    left: Option<Mark>,
    u: Seq<Entry>,
)
    requires
        model::links(s, id, mark, t),
        model::unlinks(t, id, left, u),
    ensures
        left == Some(mark),
        u == s,
{
    assert(model::is_at(t, 0, id));
    assert forall|k: int| #[trigger] model::is_at(t, k, id) implies k == 0 by {
        if k > 0 {
            assert(model::is_at(s, k - 1, id));
        }
    }
    assert(t.remove(0) =~= s);
}

/// A scope that was left is not found again.
pub proof fn law_left_scope_is_gone(
    s: Seq<Entry>,
    id: MarkId,
    left: Option<Mark>,
    t: Seq<Entry>,
)
    requires
        model::distinct_ids(s),
        model::unlinks(s, id, left, t),
    ensures
        !model::is_linked(t, id),
{
    if left is Some {
        let k = choose|k: int| #[trigger] model::is_at(s, k, id) && t == s.remove(k);
        assert forall|j: int| !model::is_at(t, j, id) by {
            if 0 <= j < t.len() {
                assert(t[j] == s[if j < k { j } else { j + 1 }]);
            }
        }
    }
}

/// An operation of another thread does not touch a thread's scopes.
pub proof fn law_foreign_step_is_calm(s: Seq<Entry>, t: Seq<Entry>, tid: ThreadId)
    requires
        foreign_step(s, t, tid),
    ensures
        calm(s, t, tid),
{
    if exists|id: MarkId, mark: Mark| mark.tid != tid && #[trigger] model::links(s, id, mark, t) {
        let (id, mark) = choose|id: MarkId, mark: Mark|
            mark.tid != tid && #[trigger] model::links(s, id, mark, t);
        lemma_own_add(seq![Entry { id, mark }], s, tid);
        lemma_own_one(Entry { id, mark }, tid);
        assert(model::own(t, tid) =~= model::own(s, tid));
    } else if exists|id: MarkId, left: Option<Mark>|
        (left matches Some(mark) ==> mark.tid != tid) && #[trigger] model::unlinks(s, id, left, t) {
        let (id, left) = choose|id: MarkId, left: Option<Mark>|
            (left matches Some(mark) ==> mark.tid != tid) && #[trigger] model::unlinks(
                s,
                id,
                left,
                t,
            );
        if left is Some {
            let k = choose|k: int| #[trigger]
                model::is_at(s, k, id) && left->0 == s[k].mark && t == s.remove(k);
            assert(t =~= s.take(k) + s.skip(k + 1));
            lemma_own_add(s.take(k), s.skip(k + 1), tid);
            lemma_own_split(s, k, tid);
            lemma_own_one(s[k], tid);
            assert(model::own(t, tid) =~= model::own(s, tid));
        }
    } else {
        let (other, cause, r) = choose|
            other: ThreadId,
            cause: i32,
            r: Result<usize, RecoveryFailure>,
        |
            other != tid && #[trigger] model::recovers(s, other, cause, r, t);
        if r is Ok {
            let k = choose|k: int| #[trigger]
                model::is_target(s, k, other, cause) && t == model::recovered(s, k, cause);
            lemma_own_recovered(s, k, cause, tid);
        }
    }
}

/// Whatever other threads do meanwhile, a thread finds its scopes as it left them.
pub proof fn law_foreign_run_is_calm(states: Seq<Seq<Entry>>, tid: ThreadId)
    requires
        foreign_run(states, tid),
    ensures
        calm(states.first(), states.last(), tid),
    decreases states.len(),
{
    if states.len() > 1 {
        let init = states.drop_last();
        assert forall|i: int| 0 <= i < init.len() - 1 implies #[trigger] foreign_step_at(
            init,
            i,
            tid,
        ) by {
            assert(foreign_step_at(states, i, tid));
        }
        law_foreign_run_is_calm(init, tid);
        let n = states.len() - 2;
        assert(foreign_step_at(states, n, tid));
        law_foreign_step_is_calm(states[n], states[n + 1], tid);
    }
}

/// Dropping one thread's marks a second time changes nothing.
proof fn lemma_foreign_of_foreign(s: Seq<Entry>, tid: ThreadId)
    ensures
        model::foreign(model::foreign(s, tid), tid) == model::foreign(s, tid),
    decreases s.len(),
{
    reveal(Seq::filter);
    if s.len() > 0 {
        let rest = s.drop_last();
        lemma_foreign_of_foreign(rest, tid);
        if s.last().mark.tid != tid {
            let kept = model::foreign(rest, tid);
            assert(kept.push(s.last()).drop_last() =~= kept);
        }
    }
}

/// A mark of a thread is among the marks of that thread, and the other way round.
proof fn lemma_own_contains(s: Seq<Entry>, tid: ThreadId, e: Entry)
    ensures
        model::own(s, tid).contains(e) <==> s.contains(e) && e.mark.tid == tid,
{
    let pred = |e: Entry| e.mark.tid == tid;
    if s.filter(pred).contains(e) {
        s.lemma_filter_contains_rev(pred, e);
        let i = s.filter(pred).index_of(e);
        s.lemma_filter_pred(pred, i);
    }
    if s.contains(e) && e.mark.tid == tid {
        s.lemma_filter_contains(pred, s.index_of(e));
    }
}

/// The target among all marks is the target among the thread's own marks.
proof fn lemma_target_of_own(s: Seq<Entry>, k: int, tid: ThreadId, cause: i32)
    requires
        model::is_target(s, k, tid, cause),
    ensures
        ({
            let i = model::own(s.take(k), tid).len() as int;
            model::is_target(model::own(s, tid), i, tid, cause) && model::own(s, tid)[i] == s[k]
        }),
{
    let before = model::own(s.take(k), tid);
    lemma_own_split(s, k, tid);
    lemma_own_one(s[k], tid);
    assert(model::own(s, tid)[before.len() as int] == s[k]);
    assert forall|j: int| 0 <= j < before.len() implies !model::own(s, tid)[j].mark.spec_admits(
        tid,
        cause,
    ) by {
        let e = before[j];
        assert(before.contains(e));
        lemma_own_contains(s.take(k), tid, e);
        assert(s.take(k)[s.take(k).index_of(e)] == e);
        assert(s[s.take(k).index_of(e)] == e);
    }
}

/// Where a recovery leads depends on the thread's own marks alone. However the marks
/// of other threads interleave with them, it is the same scope, or none.
pub proof fn law_recovery_depends_on_own_marks(
    s: Seq<Entry>,
    t: Seq<Entry>,
    tid: ThreadId,
    cause: i32,
)
    requires
        calm(s, t, tid),
    ensures
        model::none_admits(s, tid, cause) <==> model::none_admits(t, tid, cause),
        forall|j: int, k: int| #[trigger]
            model::is_target(s, j, tid, cause) && #[trigger] model::is_target(t, k, tid, cause)
                ==> s[j] == t[k],
{
    law_recovery_is_decided(s, tid, cause);
    law_recovery_is_decided(t, tid, cause);
    law_recovery_is_decided(model::own(s, tid), tid, cause);
    assert forall|j: int, k: int| #[trigger]
        model::is_target(s, j, tid, cause) && #[trigger] model::is_target(
            t,
            k,
            tid,
            cause,
        ) implies s[j] == t[k] by {
        lemma_target_of_own(s, j, tid, cause);
        lemma_target_of_own(t, k, tid, cause);
    }
    if !model::none_admits(s, tid, cause) {
        let j = choose|j: int| model::is_target(s, j, tid, cause);
        lemma_own_contains(s, tid, s[j]);
        lemma_own_contains(t, tid, s[j]);
        assert(s.contains(s[j]));
        assert(t[t.index_of(s[j])].mark.spec_admits(tid, cause));
    }
    if !model::none_admits(t, tid, cause) {
        let k = choose|k: int| model::is_target(t, k, tid, cause);
        lemma_own_contains(t, tid, t[k]);
        lemma_own_contains(s, tid, t[k]);
        assert(t.contains(t[k]));
        assert(s[s.index_of(t[k])].mark.spec_admits(tid, cause));
    }
}

/// A recovery leaves the marks of all other threads as they are.
pub proof fn law_recovery_keeps_foreign_marks(s: Seq<Entry>, k: int, tid: ThreadId, cause: i32)
    requires
        model::is_target(s, k, tid, cause),
    ensures
        model::foreign(model::recovered(s, k, cause), tid) == model::foreign(s, tid),
{
    let pred = |e: Entry| e.mark.tid != tid;
    let hit = model::with_cause(s[k], cause);
    let gap = Seq::<Entry>::empty();
    let (front, back) = (s.take(k), s.skip(k + 1));
    assert(seq![hit].filter(pred) =~= gap && seq![s[k]].filter(pred) =~= gap) by {
        reveal_with_fuel(Seq::filter, 2);
        assert(seq![hit].drop_last() =~= gap && seq![s[k]].drop_last() =~= gap);
    }
    assert(s =~= front + seq![s[k]] + back);
    Seq::filter_distributes_over_add(front + seq![s[k]], back, pred);
    Seq::filter_distributes_over_add(front, seq![s[k]], pred);
    Seq::filter_distributes_over_add(model::foreign(front, tid) + seq![hit], back, pred);
    Seq::filter_distributes_over_add(model::foreign(front, tid), seq![hit], pred);
    lemma_foreign_of_foreign(front, tid);
}

/// After a recovery the target is the innermost scope of its thread, and the scopes
/// around it are as before: the abandoned ones can no longer be found.
pub proof fn law_recovered_scope_is_innermost(s: Seq<Entry>, k: int, tid: ThreadId, cause: i32)
    requires
        model::is_target(s, k, tid, cause),
    ensures
        model::own(model::recovered(s, k, cause), tid) == seq![model::with_cause(s[k], cause)]
            + model::own(s.skip(k + 1), tid),
{
    lemma_own_recovered(s, k, cause, tid);
}

/// Where all scopes of the thread accept every cause, a recovery goes to its innermost
/// scope and changes nothing but the cause of that mark.
pub proof fn law_catch_all_recovery_only_reports(
    s: Seq<Entry>,
    k: int,
    tid: ThreadId,
    cause: i32,
)
    requires
        model::is_target(s, k, tid, cause),
        forall|j: int|
            0 <= j < s.len() && (#[trigger] s[j]).mark.tid == tid ==> s[j].mark.accepts is None,
    ensures
        forall|j: int| 0 <= j < k ==> (#[trigger] s[j]).mark.tid != tid,
        model::recovered(s, k, cause) == s.update(k, model::with_cause(s[k], cause)),
{
    assert forall|j: int| 0 <= j < k implies (#[trigger] s[j]).mark.tid != tid by {
        assert(!s[j].mark.spec_admits(tid, cause));
    }
    lemma_foreign_of_none(s.take(k), tid);
    assert(model::recovered(s, k, cause) =~= s.update(k, model::with_cause(s[k], cause)));
}

/// Dropping the marks of a thread that has none changes nothing.
proof fn lemma_foreign_of_none(s: Seq<Entry>, tid: ThreadId)
    requires
        forall|j: int| 0 <= j < s.len() ==> (#[trigger] s[j]).mark.tid != tid,
    ensures
        model::foreign(s, tid) == s,
    decreases s.len(),
{
    reveal(Seq::filter);
    if s.len() > 0 {
        let rest = s.drop_last();
        assert forall|j: int| 0 <= j < rest.len() implies (#[trigger] rest[j]).mark.tid != tid by {
            assert(rest[j] == s[j]);
        }
        lemma_foreign_of_none(rest, tid);
        assert(rest.push(s.last()) =~= s);
    }
}

/// The cause that a recovery was asked for is what the target's mark holds when its
/// scope is left, and what the scope then answers, whatever other threads do in between.
pub proof fn law_cause_survives_the_jump<R>(
    s: Seq<Entry>,
    k: int,
    tid: ThreadId,
    cause: i32,
    t: Seq<Entry>,
    mark: Option<Mark>,
    u: Seq<Entry>,
)
    requires
        model::is_target(s, k, tid, cause),
        calm(model::recovered(s, k, cause), t, tid),
        model::distinct_ids(t),
        model::unlinks(t, s[k].id, mark, u),
    ensures
        mark == Some(Mark { cause: Some(cause), ..s[k].mark }),
        scope::concluded::<R>(None, mark) == Err::<R, RecoveryError>(RecoveryError { cause }),
{
    let hit = model::with_cause(s[k], cause);
    law_recovered_scope_is_innermost(s, k, tid, cause);
    assert(model::own(t, tid)[0] == hit);
    lemma_own_contains(t, tid, hit);
    assert(model::is_at(t, t.index_of(hit), s[k].id));
}

/// A scope that is entered and left leaves no trace for its thread. What runs in it may
/// enter and leave scopes in turn, and other threads may do as they like: both are calm.
pub proof fn law_completed_scope_is_calm(
    s: Seq<Entry>,
    id: MarkId,
    mark: Mark,
    t: Seq<Entry>,
    left: Option<Mark>,
    u: Seq<Entry>,
)
    requires
        calm(model::pushed(s, id, mark), t, mark.tid),
        model::distinct_ids(t),
        model::unlinks(t, id, left, u),
    ensures
        left == Some(mark),
        calm(s, u, mark.tid),
{
    let tid = mark.tid;
    let e = Entry { id, mark };
    lemma_own_add(seq![e], s, tid);
    lemma_own_one(e, tid);
    lemma_unlink_innermost(t, e, model::own(s, tid), left, u);
}

/// Once the target of a recovery has left, the thread's scopes are the ones around
/// it: recoveries peel a nest from the inside out.
pub proof fn law_recovery_peels_the_nest(
    s: Seq<Entry>,
    k: int,
    tid: ThreadId,
    cause: i32,
    t: Seq<Entry>,
    left: Option<Mark>,
    u: Seq<Entry>,
)
    requires
        model::is_target(s, k, tid, cause),
        calm(model::recovered(s, k, cause), t, tid),
        model::distinct_ids(t),
        model::unlinks(t, s[k].id, left, u),
    ensures
        calm(s.skip(k + 1), u, tid),
{
    law_recovered_scope_is_innermost(s, k, tid, cause);
    lemma_unlink_innermost(
        t,
        model::with_cause(s[k], cause),
        model::own(s.skip(k + 1), tid),
        left,
        u,
    );
}

/// A scope that a recovery jumps to leaves no trace for its thread either: when it has
/// left, the thread's scopes are those that were active when it was entered. The scopes
/// `nested` in it, which the jump abandoned, are gone.
pub proof fn law_recovered_scope_is_calm(
    before: Seq<Entry>,
    id: MarkId,
    mark: Mark,
    nested: Seq<Entry>,
    s: Seq<Entry>,
    k: int,
    cause: i32,
    t: Seq<Entry>,
    left: Option<Mark>,
    u: Seq<Entry>,
)
    requires
        model::own(s, mark.tid) == nested + model::own(
            model::pushed(before, id, mark),
            mark.tid,
        ),
        model::distinct_ids(s),
        model::is_target(s, k, mark.tid, cause),
        s[k].id == id,
        calm(model::recovered(s, k, cause), t, mark.tid),
        model::distinct_ids(t),
        model::unlinks(t, id, left, u),
    ensures
        calm(before, u, mark.tid),
{
    let tid = mark.tid;
    let e = Entry { id, mark };
    let rest = model::own(before, tid);
    lemma_own_add(seq![e], before, tid);
    lemma_own_one(e, tid);
    law_recovery_peels_the_nest(s, k, tid, cause, t, left, u);
    lemma_own_split(s, k, tid);
    lemma_own_one(s[k], tid);
    let all = model::own(s, tid);
    let i = model::own(s.take(k), tid).len() as int;
    let j = nested.len() as int;
    assert(all[i] == s[k]);
    assert(all[j] == e);
    lemma_own_distinct(s, tid);
    assert(i == j);
    assert(all.skip(i + 1) =~= model::own(s.skip(k + 1), tid));
    assert(all.skip(j + 1) =~= rest);
}

/// The marks of one thread have distinct handles if all marks have.
proof fn lemma_own_distinct(s: Seq<Entry>, tid: ThreadId)
    requires
        model::distinct_ids(s),
    ensures
        model::distinct_ids(model::own(s, tid)),
    decreases s.len(),
{
    reveal(Seq::filter);
    if s.len() > 0 {
        let rest = s.drop_last();
        lemma_own_distinct(rest, tid);
        assert forall|i: int| 0 <= i < model::own(rest, tid).len() implies model::own(
            rest,
            tid,
        )[i].id != s.last().id by {
            let e = model::own(rest, tid)[i];
            lemma_own_contains(rest, tid, e);
            assert(rest[rest.index_of(e)] == s[rest.index_of(e)]);
        }
    }
}

/// Unlinking the innermost mark of a thread leaves the thread's other marks.
proof fn lemma_unlink_innermost(
    t: Seq<Entry>,
    e: Entry,
    rest: Seq<Entry>,
    left: Option<Mark>,
    u: Seq<Entry>,
)
    requires
        model::distinct_ids(t),
        model::own(t, e.mark.tid) == seq![e] + rest,
        model::unlinks(t, e.id, left, u),
    ensures
        left == Some(e.mark),
        model::own(u, e.mark.tid) == rest,
{
    let tid = e.mark.tid;
    assert(model::own(t, tid)[0] == e);
    lemma_own_contains(t, tid, e);
    let j = t.index_of(e);
    assert(model::is_at(t, j, e.id));
    assert(u == t.remove(j));
    lemma_remove_innermost(t, j, e, rest);
}

/// Removing the innermost mark of a thread leaves the thread's other marks.
proof fn lemma_remove_innermost(t: Seq<Entry>, j: int, e: Entry, rest: Seq<Entry>)
    requires
        model::distinct_ids(t),
        model::is_at(t, j, e.id),
        model::own(t, e.mark.tid) == seq![e] + rest,
    ensures
        t[j] == e,
        model::own(t.remove(j), e.mark.tid) == rest,
{
    let tid = e.mark.tid;
    let front = model::own(t.take(j), tid);
    let back = model::own(t.skip(j + 1), tid);
    assert(t[j] == e) by {
        assert(model::own(t, tid)[0] == e);
        lemma_own_contains(t, tid, e);
        assert(t[t.index_of(e)] == e);
    }
    assert(model::own(t, tid) == front + seq![e] + back) by {
        lemma_own_split(t, j, tid);
        lemma_own_one(e, tid);
    }
    assert(front.len() == 0) by {
        if front.len() > 0 {
            assert((seq![e] + rest)[0] == e);
            assert((front + seq![e] + back)[0] == front[0]);
            assert(front.contains(e));
            lemma_own_contains(t.take(j), tid, e);
            let h = t.take(j).index_of(e);
            assert(t.take(j)[h] == t[h]);
        }
    }
    assert(back == rest) by {
        assert((front + seq![e] + back).skip(1) =~= back);
        assert((seq![e] + rest).skip(1) =~= rest);
    }
    assert(model::own(t.remove(j), tid) == front + back) by {
        assert(t.remove(j) =~= t.take(j) + t.skip(j + 1));
        lemma_own_add(t.take(j), t.skip(j + 1), tid);
    }
    assert(front + back =~= back);
}

} // verus!
