//! What the functions on the list of marks are for, said of their calls: what goes in,
//! what comes out, and how the calls relate. Of a mark it speaks by its fields alone.
//!
//! A call is given by the list that it is made on, which `old` and `final` show before and
//! after it, by its other arguments and by its result.
use crate::error::{RecoveryError, RecoveryFailure};
use crate::frame::{check_jmpbuf, JmpBufMisfit};
use crate::frame::{JMPBUF_ALIGN, JMPBUF_BYTES, RECOVERY_GAP_BYTES, SETBACK_OK};
use crate::laws;
use crate::model;
use crate::model::{Entry, Mark, MarkId, ThreadId};
use crate::registry::Registry;
use crate::scope::{conclude, UNREPORTED};
use vstd::prelude::*;

verus! {

/// A mark admits a recovery of its own thread, whatever that thread's number, for every
/// cause, or for the one cause that it names, whatever that is. It admits nothing else.
pub proof fn law_mark_admits_its_thread_and_cause(
    mark: Mark,
    tid: ThreadId,
    cause: i32,
    yes: bool,
)
    requires
        call_ensures(Mark::admits, (&mark, tid, cause), yes),
    ensures
        yes ==> mark.tid == tid,
        yes && mark.accepts is Some ==> mark.accepts == Some(cause),
        !yes ==> mark.tid != tid || (mark.accepts is Some && mark.accepts != Some(cause)),
{
}

/// A new list is empty: no recovery finds a scope in it, and no handle is linked.
pub proof fn law_new_list_is_empty(
    new: Registry,
    reg: &mut Registry,
    tid: ThreadId,
    cause: i32,
    r: Result<usize, RecoveryFailure>,
    same: &mut Registry,
    id: MarkId,
    left: Option<Mark>,
)
    requires
        call_ensures(Registry::new, (), new),
        *old(reg) == new,
        call_ensures(Registry::recover, (reg, tid, cause), r),
        *old(same) == new,
        call_ensures(Registry::unlink, (same, id), left),
    ensures
        new@.len() == 0,
        r is Err,
        left is None,
{
}

/// Linking puts one mark in front of the list, which stays as it is behind it. The mark
/// holds the three arguments as they were given, and no cause.
pub proof fn law_linked_mark_holds_the_arguments(
    reg: &mut Registry,
    tid: ThreadId,
    accepts: Option<i32>,
    jmpbuf: usize,
    id: MarkId,
)
    requires
        call_ensures(Registry::push, (reg, tid, accepts, jmpbuf), id),
    ensures
        final(reg)@.len() == old(reg)@.len() + 1,
        final(reg)@[0].id == id,
        final(reg)@[0].mark.tid == tid,
        final(reg)@[0].mark.accepts == accepts,
        final(reg)@[0].mark.jmpbuf == jmpbuf,
        final(reg)@[0].mark.cause is None,
        final(reg)@.skip(1) == old(reg)@,
        forall|k: int| 0 <= k < old(reg)@.len() ==> (#[trigger] old(reg)@[k]).id != id,
{
    assert(final(reg)@.skip(1) =~= old(reg)@);
    assert forall|k: int| 0 <= k < old(reg)@.len() implies (#[trigger] old(reg)@[k]).id != id by {
        if old(reg)@[k].id == id {
            assert(model::is_at(old(reg)@, k, id));
        }
    }
}

/// The scope that was entered last is the one that a recovery of its thread jumps to, for
/// every cause that it accepts: the recovery answers the very address that was linked.
pub proof fn law_recovery_finds_the_scope_just_entered(
    entering: &mut Registry,
    tid: ThreadId,
    accepts: Option<i32>,
    jmpbuf: usize,
    id: MarkId,
    reg: &mut Registry,
    cause: i32,
    r: Result<usize, RecoveryFailure>,
)
    requires
        call_ensures(Registry::push, (entering, tid, accepts, jmpbuf), id),
        accepts is None || accepts == Some(cause),
        *old(reg) == *final(entering),
        call_ensures(Registry::recover, (reg, tid, cause), r),
    ensures
        r == Ok::<usize, RecoveryFailure>(jmpbuf),
{
    let s = old(reg)@;
    assert(s[0].mark.spec_admits(tid, cause));
    assert(r is Ok);
    let k = choose|k: int| #[trigger]
        model::is_target(s, k, tid, cause) && r->Ok_0 == s[k].mark.jmpbuf;
    assert(k == 0);
}

/// A recovery passes a scope of another thread, or one for another cause: it answers what
/// it would without that scope.
pub proof fn law_recovery_passes_other_scopes(
    entering: &mut Registry,
    other: ThreadId,
    accepts: Option<i32>,
    jmpbuf: usize,
    id: MarkId,
    with: &mut Registry,
    without: &mut Registry,
    tid: ThreadId,
    cause: i32,
    r: Result<usize, RecoveryFailure>,
    q: Result<usize, RecoveryFailure>,
)
    requires
        call_ensures(Registry::push, (entering, other, accepts, jmpbuf), id),
        other != tid || (accepts is Some && accepts != Some(cause)),
        *old(with) == *final(entering),
        call_ensures(Registry::recover, (with, tid, cause), r),
        *old(without) == *old(entering),
        call_ensures(Registry::recover, (without, tid, cause), q),
    ensures
        r is Ok <==> q is Ok,
        r is Ok ==> r->Ok_0 == q->Ok_0,
{
    let s = old(entering)@;
    let t = final(entering)@;
    let mark = Mark { tid: other, accepts, jmpbuf, cause: None };
    assert(t == model::pushed(s, id, mark));
    assert(!mark.spec_admits(tid, cause));
    laws::law_other_scope_is_skipped(s, id, mark, tid, cause);
    laws::law_recovery_is_decided(s, tid, cause);
    laws::law_recovery_is_decided(t, tid, cause);
    if q is Ok {
        let k = choose|k: int| #[trigger]
            model::is_target(s, k, tid, cause) && q->Ok_0 == s[k].mark.jmpbuf;
        assert(model::is_target(t, k + 1, tid, cause));
        assert(t[k + 1] == s[k]);
    }
}

/// A recovery fails only if every linked mark of its thread is for one other cause. Then
/// it changes nothing.
pub proof fn law_failed_recovery_had_no_scope(
    reg: &mut Registry,
    tid: ThreadId,
    cause: i32,
    r: Result<usize, RecoveryFailure>,
)
    requires
        call_ensures(Registry::recover, (reg, tid, cause), r),
        r is Err,
    ensures
        forall|j: int|
            0 <= j < old(reg)@.len() && (#[trigger] old(reg)@[j]).mark.tid == tid
                ==> old(reg)@[j].mark.accepts is Some && old(reg)@[j].mark.accepts != Some(cause),
        final(reg)@ == old(reg)@,
{
    assert forall|j: int|
        0 <= j < old(reg)@.len() && (#[trigger] old(reg)@[j]).mark.tid == tid
            implies old(reg)@[j].mark.accepts is Some && old(reg)@[j].mark.accepts != Some(
        cause,
    ) by {
        assert(!old(reg)@[j].mark.spec_admits(tid, cause));
    }
}

/// A recovery succeeds wherever a linked mark of its thread accepts the cause.
pub proof fn law_active_scope_is_recovered(
    reg: &mut Registry,
    tid: ThreadId,
    cause: i32,
    r: Result<usize, RecoveryFailure>,
    j: int,
)
    requires
        call_ensures(Registry::recover, (reg, tid, cause), r),
        0 <= j < old(reg)@.len(),
        old(reg)@[j].mark.tid == tid,
        old(reg)@[j].mark.accepts is None || old(reg)@[j].mark.accepts == Some(cause),
    ensures
        r is Ok,
{
    assert(old(reg)@[j].mark.spec_admits(tid, cause));
}

/// A recovery that succeeds goes to one mark of its thread, which is for every cause or
/// for this one. It is the newest such mark, and its address is the answer. That mark then
/// holds the cause. Of the newer marks those of other threads stay, in their order. The
/// older marks stay as they are.
pub proof fn law_recovery_goes_to_the_innermost_scope(
    reg: &mut Registry,
    tid: ThreadId,
    cause: i32,
    r: Result<usize, RecoveryFailure>,
) -> (k: int)
    requires
        call_ensures(Registry::recover, (reg, tid, cause), r),
        r is Ok,
    ensures
        0 <= k < old(reg)@.len(),
        old(reg)@[k].mark.tid == tid,
        old(reg)@[k].mark.accepts is None || old(reg)@[k].mark.accepts == Some(cause),
        r->Ok_0 == old(reg)@[k].mark.jmpbuf,
        forall|j: int|
            0 <= j < k && (#[trigger] old(reg)@[j]).mark.tid == tid
                ==> old(reg)@[j].mark.accepts is Some && old(reg)@[j].mark.accepts != Some(cause),
        final(reg)@ == old(reg)@.take(k).filter(|e: Entry| e.mark.tid != tid) + seq![
            Entry {
                id: old(reg)@[k].id,
                mark: Mark {
                    tid,
                    accepts: old(reg)@[k].mark.accepts,
                    jmpbuf: old(reg)@[k].mark.jmpbuf,
                    cause: Some(cause),
                },
            },
        ] + old(reg)@.skip(k + 1),
{
    let s = old(reg)@;
    let k = choose|k: int| model::is_target(s, k, tid, cause);
    laws::law_recovery_is_decided(s, tid, cause);
    assert forall|j: int| 0 <= j < k && (#[trigger] s[j]).mark.tid == tid implies s[j].mark.accepts
        is Some && s[j].mark.accepts != Some(cause) by {
        assert(!s[j].mark.spec_admits(tid, cause));
    }
    k
}

/// Where the scopes of a thread are for every cause, the cause has no say in where a
/// recovery of the thread goes, nor in whether it succeeds.
pub proof fn law_no_cause_has_a_meaning(
    one: &mut Registry,
    two: &mut Registry,
    tid: ThreadId,
    cause: i32,
    other: i32,
    r: Result<usize, RecoveryFailure>,
    q: Result<usize, RecoveryFailure>,
)
    requires
        *old(one) == *old(two),
        forall|j: int|
            0 <= j < old(one)@.len() && (#[trigger] old(one)@[j]).mark.tid == tid
                ==> old(one)@[j].mark.accepts is None,
        call_ensures(Registry::recover, (one, tid, cause), r),
        call_ensures(Registry::recover, (two, tid, other), q),
    ensures
        r is Ok <==> q is Ok,
        r is Ok ==> r->Ok_0 == q->Ok_0,
{
    let s = old(one)@;
    if r is Ok {
        let k = law_recovery_goes_to_the_innermost_scope(one, tid, cause, r);
        law_active_scope_is_recovered(two, tid, other, q, k);
        let l = law_recovery_goes_to_the_innermost_scope(two, tid, other, q);
        assert(k == l) by {
            assert(s[k].mark.tid == tid && s[l].mark.tid == tid);
        }
    } else if q is Ok {
        let l = law_recovery_goes_to_the_innermost_scope(two, tid, other, q);
        law_active_scope_is_recovered(one, tid, cause, r, l);
    }
}

/// Unlinking takes one mark out and hands it back as it is in the list: the one with that
/// handle. The others stay in their order. If there is none, nothing changes.
pub proof fn law_unlinking_takes_out_one_mark(
    reg: &mut Registry,
    id: MarkId,
    left: Option<Mark>,
)
    requires
        call_ensures(Registry::unlink, (reg, id), left),
    ensures
        left is Some <==> exists|k: int|
            0 <= k < old(reg)@.len() && (#[trigger] old(reg)@[k]).id == id,
        left is None ==> final(reg)@ == old(reg)@,
        left is Some ==> exists|k: int|
            0 <= k < old(reg)@.len() && (#[trigger] old(reg)@[k]).id == id && left == Some(
                old(reg)@[k].mark,
            ) && final(reg)@ == old(reg)@.take(k) + old(reg)@.skip(k + 1),
{
    let s = old(reg)@;
    if left is Some {
        let k = choose|k: int| #[trigger]
            model::is_at(s, k, id) && left->0 == s[k].mark && final(reg)@ == s.remove(k);
        assert(s[k].id == id);
        assert(s.remove(k) =~= s.take(k) + s.skip(k + 1));
    } else {
        assert forall|k: int| 0 <= k < s.len() implies (#[trigger] s[k]).id != id by {
            if s[k].id == id {
                assert(model::is_at(s, k, id));
            }
        }
    }
}

/// A mark leaves once: its handle is not linked after that.
pub proof fn law_mark_leaves_once(
    reg: &mut Registry,
    id: MarkId,
    left: Option<Mark>,
    again: &mut Registry,
    second: Option<Mark>,
)
    requires
        old(reg).wf(),
        call_ensures(Registry::unlink, (reg, id), left),
        *old(again) == *final(reg),
        call_ensures(Registry::unlink, (again, id), second),
    ensures
        second is None,
        final(again)@ == final(reg)@,
{
    old(reg).lemma_handles(Map::empty());
    laws::law_left_scope_is_gone(old(reg)@, id, left, final(reg)@);
    if second is Some {
        let k = choose|k: int| #[trigger]
            model::is_at(old(again)@, k, id) && second->0 == old(again)@[k].mark;
        assert(model::is_linked(old(again)@, id));
    }
}

/// Leaving a scope right after it was entered hands back a mark with what it was entered
/// with and no cause, and restores the list. The code's value is then the answer.
pub proof fn law_completed_scope_answers_its_value<R>(
    entering: &mut Registry,
    tid: ThreadId,
    accepts: Option<i32>,
    jmpbuf: usize,
    id: MarkId,
    leaving: &mut Registry,
    left: Option<Mark>,
    value: R,
    answer: Result<R, RecoveryError>,
)
    requires
        call_ensures(Registry::push, (entering, tid, accepts, jmpbuf), id),
        *old(leaving) == *final(entering),
        call_ensures(Registry::unlink, (leaving, id), left),
        call_ensures(conclude::<R>, (Some(value), left), answer),
    ensures
        left == Some(Mark { tid, accepts, jmpbuf, cause: None }),
        final(leaving)@ == old(entering)@,
        answer == Ok::<R, RecoveryError>(value),
{
    laws::law_leave_undoes_enter(
        old(entering)@,
        id,
        Mark { tid, accepts, jmpbuf, cause: None },
        final(entering)@,
        left,
        final(leaving)@,
    );
}

/// Whatever cause a recovery is asked for comes back: a scope is entered, a recovery of
/// its thread that it accepts jumps to its address, and when it is left, its mark holds
/// the cause, the list is as before, and the abandoned scope answers the cause.
pub proof fn law_any_cause_comes_back<R>(
    entering: &mut Registry,
    tid: ThreadId,
    accepts: Option<i32>,
    jmpbuf: usize,
    id: MarkId,
    recovering: &mut Registry,
    cause: i32,
    r: Result<usize, RecoveryFailure>,
    leaving: &mut Registry,
    left: Option<Mark>,
    answer: Result<R, RecoveryError>,
)
    requires
        call_ensures(Registry::push, (entering, tid, accepts, jmpbuf), id),
        accepts is None || accepts == Some(cause),
        *old(recovering) == *final(entering),
        call_ensures(Registry::recover, (recovering, tid, cause), r),
        *old(leaving) == *final(recovering),
        call_ensures(Registry::unlink, (leaving, id), left),
        call_ensures(conclude::<R>, (None::<R>, left), answer),
    ensures
        r == Ok::<usize, RecoveryFailure>(jmpbuf),
        left == Some(Mark { tid, accepts, jmpbuf, cause: Some(cause) }),
        final(leaving)@ == old(entering)@,
        answer == Err::<R, RecoveryError>(RecoveryError { cause }),
{
    let base = old(entering)@;
    let s = final(entering)@;
    law_linked_mark_holds_the_arguments(entering, tid, accepts, jmpbuf, id);
    law_recovery_finds_the_scope_just_entered(
        entering,
        tid,
        accepts,
        jmpbuf,
        id,
        recovering,
        cause,
        r,
    );
    let k = law_recovery_goes_to_the_innermost_scope(recovering, tid, cause, r);
    assert(k == 0);
    let hit = Entry { id, mark: Mark { tid, accepts, jmpbuf, cause: Some(cause) } };
    reveal(Seq::filter);
    assert(s.take(0).filter(|e: Entry| e.mark.tid != tid) =~= Seq::<Entry>::empty());
    assert(final(recovering)@ =~= seq![hit] + base);
    laws::law_leave_undoes_enter(
        base,
        id,
        hit.mark,
        final(recovering)@,
        left,
        final(leaving)@,
    );
}

/// A scope that was left is not recovered: after it was entered and left, a recovery
/// answers what it would have before.
pub proof fn law_left_scope_is_not_recovered(
    entering: &mut Registry,
    tid: ThreadId,
    accepts: Option<i32>,
    jmpbuf: usize,
    id: MarkId,
    leaving: &mut Registry,
    left: Option<Mark>,
    after: &mut Registry,
    before: &mut Registry,
    cause: i32,
    r: Result<usize, RecoveryFailure>,
    q: Result<usize, RecoveryFailure>,
)
    requires
        call_ensures(Registry::push, (entering, tid, accepts, jmpbuf), id),
        *old(leaving) == *final(entering),
        call_ensures(Registry::unlink, (leaving, id), left),
        *old(after) == *final(leaving),
        call_ensures(Registry::recover, (after, tid, cause), r),
        *old(before) == *old(entering),
        call_ensures(Registry::recover, (before, tid, cause), q),
    ensures
        r is Ok <==> q is Ok,
        r is Ok ==> r->Ok_0 == q->Ok_0,
{
    let s = old(entering)@;
    laws::law_leave_undoes_enter(
        s,
        id,
        Mark { tid, accepts, jmpbuf, cause: None },
        final(entering)@,
        left,
        final(leaving)@,
    );
    laws::law_recovery_is_decided(s, tid, cause);
}

/// Threads do not disturb each other: what a recovery of one thread answers is the same
/// before and after a recovery of another.
pub proof fn law_recovery_leaves_other_threads_alone(
    reg: &mut Registry,
    other: ThreadId,
    first: i32,
    p: Result<usize, RecoveryFailure>,
    after: &mut Registry,
    before: &mut Registry,
    tid: ThreadId,
    cause: i32,
    r: Result<usize, RecoveryFailure>,
    q: Result<usize, RecoveryFailure>,
)
    requires
        other != tid,
        call_ensures(Registry::recover, (reg, other, first), p),
        *old(after) == *final(reg),
        call_ensures(Registry::recover, (after, tid, cause), r),
        *old(before) == *old(reg),
        call_ensures(Registry::recover, (before, tid, cause), q),
    ensures
        r is Ok <==> q is Ok,
        r is Ok ==> r->Ok_0 == q->Ok_0,
{
    let s = old(reg)@;
    let t = final(reg)@;
    assert(laws::foreign_step(s, t, tid));
    laws::law_foreign_step_is_calm(s, t, tid);
    lemma_same_answer(s, t, tid, cause, q, final(before)@, r, final(after)@);
}

/// Threads do not disturb each other: what a recovery of one thread answers is the same
/// before and after a scope of another is left.
pub proof fn law_leaving_leaves_other_threads_alone(
    reg: &mut Registry,
    id: MarkId,
    left: Option<Mark>,
    after: &mut Registry,
    before: &mut Registry,
    tid: ThreadId,
    cause: i32,
    r: Result<usize, RecoveryFailure>,
    q: Result<usize, RecoveryFailure>,
)
    requires
        call_ensures(Registry::unlink, (reg, id), left),
        left is Some ==> left->0.tid != tid,
        *old(after) == *final(reg),
        call_ensures(Registry::recover, (after, tid, cause), r),
        *old(before) == *old(reg),
        call_ensures(Registry::recover, (before, tid, cause), q),
    ensures
        r is Ok <==> q is Ok,
        r is Ok ==> r->Ok_0 == q->Ok_0,
{
    let s = old(reg)@;
    let t = final(reg)@;
    assert(laws::foreign_step(s, t, tid));
    laws::law_foreign_step_is_calm(s, t, tid);
    lemma_same_answer(s, t, tid, cause, q, final(before)@, r, final(after)@);
}

/// Where a thread's own marks are the same, its recoveries answer the same.
proof fn lemma_same_answer(
    s: Seq<Entry>,
    t: Seq<Entry>,
    tid: ThreadId,
    cause: i32,
    q: Result<usize, RecoveryFailure>,
    s2: Seq<Entry>,
    r: Result<usize, RecoveryFailure>,
    t2: Seq<Entry>,
)
    requires
        laws::calm(s, t, tid),
        model::recovers(s, tid, cause, q, s2),
        model::recovers(t, tid, cause, r, t2),
    ensures
        r is Ok <==> q is Ok,
        r is Ok ==> r->Ok_0 == q->Ok_0,
{
    laws::law_recovery_depends_on_own_marks(s, t, tid, cause);
    laws::law_recovery_is_decided(s, tid, cause);
    laws::law_recovery_is_decided(t, tid, cause);
}

/// Finding a scope and recovering agree: a scope is found where a recovery succeeds. It is
/// the scope that the recovery jumps to, and whose mark then holds the cause.
pub proof fn law_found_scope_is_the_one_recovered(
    here: Registry,
    tid: ThreadId,
    cause: i32,
    found: Option<MarkId>,
    reg: &mut Registry,
    r: Result<usize, RecoveryFailure>,
    leaving: &mut Registry,
    id: MarkId,
    left: Option<Mark>,
)
    requires
        here.wf(),
        call_ensures(Registry::find, (&here, tid, cause), found),
        *old(reg) == here,
        call_ensures(Registry::recover, (reg, tid, cause), r),
        *old(leaving) == *final(reg),
        call_ensures(Registry::unlink, (leaving, id), left),
        found is Some ==> id == found->0,
    ensures
        found is Some <==> r is Ok,
        found is Some ==> left is Some && left->0.tid == tid && left->0.jmpbuf == r->Ok_0
            && left->0.cause == Some(cause),
{
    let s = here@;
    laws::law_recovery_is_decided(s, tid, cause);
    if found is Some {
        let k = choose|k: int| #[trigger]
            model::is_target(s, k, tid, cause) && s[k].id == id;
        let n = law_recovery_goes_to_the_innermost_scope(reg, tid, cause, r);
        assert(model::is_target(s, n, tid, cause));
        assert(n == k);
        let t = final(reg)@;
        let w = s.take(k).filter(|e: Entry| e.mark.tid != tid).len() as int;
        assert(model::is_at(t, w, id));
        final(reg).lemma_handles(Map::empty());
        let l = choose|l: int| #[trigger]
            model::is_at(t, l, id) && left->0 == t[l].mark;
        assert(l == w);
    }
}

/// Two marks never have the same handle, whether the first is still linked when the
/// second is, was recovered, or has left.
pub proof fn law_handles_differ(
    first: &mut Registry,
    tid: ThreadId,
    accepts: Option<i32>,
    jmpbuf: usize,
    id: MarkId,
    recovering: &mut Registry,
    cause: i32,
    r: Result<usize, RecoveryFailure>,
    leaving: &mut Registry,
    gone: MarkId,
    left: Option<Mark>,
    second: &mut Registry,
    tid2: ThreadId,
    accepts2: Option<i32>,
    jmpbuf2: usize,
    id2: MarkId,
)
    requires
        call_ensures(Registry::push, (first, tid, accepts, jmpbuf), id),
        *old(recovering) == *final(first),
        call_ensures(Registry::recover, (recovering, tid, cause), r),
        *old(leaving) == *final(recovering),
        call_ensures(Registry::unlink, (leaving, gone), left),
        *old(second) == *final(first) || *old(second) == *final(recovering) || *old(second)
            == *final(leaving),
        call_ensures(Registry::push, (second, tid2, accepts2, jmpbuf2), id2),
    ensures
        id2 != id,
{
}

/// What a scope answers is its code's value, whatever its mark holds. If its code was
/// abandoned, it is the cause that its mark holds, as it is.
pub proof fn law_answer_is_the_value_or_the_cause<R>(
    value: Option<R>,
    mark: Option<Mark>,
    answer: Result<R, RecoveryError>,
)
    requires
        call_ensures(conclude::<R>, (value, mark), answer),
    ensures
        answer is Ok <==> value is Some,
        value is Some ==> answer->Ok_0 == value->0,
        value is None && mark is Some && mark->0.cause is Some ==> Some(answer->Err_0.cause)
            == mark->0.cause,
        value is None && (mark is None || mark->0.cause is None) ==> answer->Err_0.cause
            == UNREPORTED,
{
}

/// A `jmp_buf` fits if and only if it needs no more than the reserved bytes and no more
/// than their alignment. What is smaller than one that fits, fits.
pub proof fn law_jmpbuf_fits_up_to_the_storage(
    size: usize,
    align: usize,
    r: Result<(), JmpBufMisfit>,
    smaller: usize,
    looser: usize,
    q: Result<(), JmpBufMisfit>,
)
    requires
        call_ensures(check_jmpbuf, (size, align), r),
        call_ensures(check_jmpbuf, (smaller, looser), q),
        smaller <= size,
        looser <= align,
    ensures
        r is Ok ==> q is Ok,
        r is Ok <==> size <= 512 && align <= 16,
        r == Err::<(), JmpBufMisfit>(JmpBufMisfit::Size) <==> size > 512,
        r == Err::<(), JmpBufMisfit>(JmpBufMisfit::Alignment) <==> size <= 512 && align > 16,
{
}

/// The storage is what C and Rust agree on, and so are the gap and the outcome of code
/// that returned.
pub proof fn law_sizes_are_as_agreed()
    ensures
        JMPBUF_BYTES == 512,
        JMPBUF_ALIGN == 16,
        RECOVERY_GAP_BYTES == 64,
        SETBACK_OK == 0,
{
}

/// Each failure has words of its own.
pub proof fn law_failures_have_their_words(
    failure: RecoveryFailure,
    misfit: JmpBufMisfit,
    text: &'static str,
    words: &'static str,
)
    requires
        call_ensures(RecoveryFailure::message, (&failure,), text),
        call_ensures(JmpBufMisfit::message, (&misfit,), words),
    ensures
        text@ == "setback recovery failure (no active scope)"@,
        misfit is Size ==> words@ == "setback: jmp_buf larger than reserved storage"@,
        misfit is Alignment ==> words@ == "setback: jmp_buf alignment exceeds storage alignment"@,
{
}

/// No thread, cause, filter, address or handle is refused: a list in order takes them all.
pub proof fn law_list_takes_every_input(
    reg: &mut Registry,
    tid: ThreadId,
    accepts: Option<i32>,
    jmpbuf: usize,
    cause: i32,
    id: MarkId,
)
    requires
        old(reg).wf(),
    ensures
        call_requires(Registry::push, (reg, tid, accepts, jmpbuf)),
        call_requires(Registry::recover, (reg, tid, cause)),
        call_requires(Registry::unlink, (reg, id)),
        call_requires(Registry::find, (&*old(reg), tid, cause)),
{
}

/// A list stays in order.
pub proof fn law_list_stays_in_order(
    new: Registry,
    pushing: &mut Registry,
    tid: ThreadId,
    accepts: Option<i32>,
    jmpbuf: usize,
    id: MarkId,
    recovering: &mut Registry,
    cause: i32,
    r: Result<usize, RecoveryFailure>,
    leaving: &mut Registry,
    left: Option<Mark>,
)
    requires
        call_ensures(Registry::new, (), new),
        call_ensures(Registry::push, (pushing, tid, accepts, jmpbuf), id),
        call_ensures(Registry::recover, (recovering, tid, cause), r),
        call_ensures(Registry::unlink, (leaving, id), left),
    ensures
        new.wf(),
        final(pushing).wf(),
        final(recovering).wf(),
        final(leaving).wf(),
{
}

} // verus!
