//! What `protect`, `protect_cause` and `recover` are for, said of their calls: what goes
//! in, what comes out, what the registry holds around each operation that a call makes,
//! and how the calls relate. Of a mark it speaks by its fields alone.
//!
//! A call is given by the access that it is made through, which `old` and `final` show
//! before and after it, by its other arguments and by its result. The numbers by which the
//! access's `made` grows are the operations of the call.
use crate::calls;
use crate::error::{RecoveryError, RecoveryFailure};
use crate::laws;
use crate::life;
use crate::model;
use crate::model::{Entry, Mark, MarkId, ThreadId};
use crate::scope;
use crate::scope::{protect, protect_cause, recover, UNREPORTED};
use crate::section::{Access, SharedRegistry};
use vstd::prelude::*;

verus! {

/// A new registry holds no marks, and an access to it has made no operation. So the first
/// operation on it, if it is a recovery, fails.
pub proof fn law_new_registry_is_empty(
    registry: SharedRegistry,
    fresh: Access<'_>,
    access: &mut Access<'_>,
    tid: ThreadId,
    cause: i32,
    r: Result<usize, RecoveryFailure>,
)
    requires
        call_ensures(SharedRegistry::new, (), registry),
        call_ensures(SharedRegistry::access, (&registry,), fresh),
        *old(access) == fresh,
        call_ensures(recover, (access, tid, cause), r),
    ensures
        registry.held(0).marks.len() == 0,
        fresh.registry() == registry,
        fresh.made().len() == 0,
        final(access).made()[0] == 0 ==> r is Err,
{
}

/// What a recovery that succeeds says of the list, mark by mark.
proof fn lemma_jump(
    s: Seq<Entry>,
    tid: ThreadId,
    cause: i32,
    r: Result<usize, RecoveryFailure>,
    t: Seq<Entry>,
) -> (k: int)
    requires
        model::recovers(s, tid, cause, r, t),
        r is Ok,
    ensures
        model::is_target(s, k, tid, cause),
        0 <= k < s.len(),
        s[k].mark.tid == tid,
        s[k].mark.accepts is None || s[k].mark.accepts == Some(cause),
        s[k].mark.jmpbuf == r->Ok_0,
        forall|j: int|
            0 <= j < k && (#[trigger] s[j]).mark.tid == tid ==> s[j].mark.accepts is Some
                && s[j].mark.accepts != Some(cause),
        t == s.take(k).filter(|e: Entry| e.mark.tid != tid) + seq![
            Entry {
                id: s[k].id,
                mark: Mark {
                    tid,
                    accepts: s[k].mark.accepts,
                    jmpbuf: s[k].mark.jmpbuf,
                    cause: Some(cause),
                },
            },
        ] + s.skip(k + 1),
{
    let k = choose|k: int| #[trigger]
        model::is_target(s, k, tid, cause) && r->Ok_0 == s[k].mark.jmpbuf && t
            == model::recovered(s, k, cause);
    assert forall|j: int| 0 <= j < k && (#[trigger] s[j]).mark.tid == tid implies s[j].mark.accepts
        is Some && s[j].mark.accepts != Some(cause) by {
        assert(!s[j].mark.spec_admits(tid, cause));
    }
    k
}

/// A recovery makes one operation. It fails only if every mark of its thread is for one
/// other cause, and then changes nothing.
pub proof fn law_recover_fails_without_a_scope(
    access: &mut Access<'_>,
    tid: ThreadId,
    cause: i32,
    r: Result<usize, RecoveryFailure>,
)
    requires
        call_ensures(recover, (access, tid, cause), r),
        r is Err,
    ensures
        final(access).registry() == old(access).registry(),
        final(access).made().len() == old(access).made().len() + 1,
        final(access).made().drop_last() == old(access).made(),
        ({
            let registry = old(access).registry();
            let n = final(access).made().last();
            let list = registry.held(n).marks;
            &&& registry.held(n + 1).marks == list
            &&& forall|j: int|
                0 <= j < list.len() && (#[trigger] list[j]).mark.tid == tid
                    ==> list[j].mark.accepts is Some && list[j].mark.accepts != Some(cause)
        }),
{
    let registry = old(access).registry();
    let n = final(access).made().last();
    let list = registry.held(n).marks;
    assert(final(access).made().drop_last() =~= old(access).made());
    assert forall|j: int| 0 <= j < list.len() && (#[trigger] list[j]).mark.tid == tid
        implies list[j].mark.accepts is Some && list[j].mark.accepts != Some(cause) by {
        assert(!list[j].mark.spec_admits(tid, cause));
    }
}

/// A recovery makes one operation. It answers the address of the newest mark of its thread
/// that is for every cause or for this one. That mark then holds the cause. Of the newer
/// marks those of other threads stay, in their order, and the older marks stay as they are.
pub proof fn law_recover_jumps_to_the_innermost_scope(
    access: &mut Access<'_>,
    tid: ThreadId,
    cause: i32,
    r: Result<usize, RecoveryFailure>,
)
    requires
        call_ensures(recover, (access, tid, cause), r),
        r is Ok,
    ensures
        final(access).registry() == old(access).registry(),
        final(access).made().len() == old(access).made().len() + 1,
        final(access).made().drop_last() == old(access).made(),
        ({
            let registry = old(access).registry();
            let n = final(access).made().last();
            let list = registry.held(n).marks;
            exists|k: int|
                {
                    &&& 0 <= k < list.len()
                    &&& (#[trigger] list[k]).mark.tid == tid
                    &&& list[k].mark.accepts is None || list[k].mark.accepts == Some(cause)
                    &&& list[k].mark.jmpbuf == r->Ok_0
                    &&& forall|j: int|
                        0 <= j < k && (#[trigger] list[j]).mark.tid == tid
                            ==> list[j].mark.accepts is Some && list[j].mark.accepts != Some(
                            cause,
                        )
                    &&& registry.held(n + 1).marks == list.take(k).filter(
                        |e: Entry| e.mark.tid != tid,
                    ) + seq![
                        Entry {
                            id: list[k].id,
                            mark: Mark {
                                tid,
                                accepts: list[k].mark.accepts,
                                jmpbuf: list[k].mark.jmpbuf,
                                cause: Some(cause),
                            },
                        },
                    ] + list.skip(k + 1)
                }
        }),
{
    let registry = old(access).registry();
    let n = final(access).made().last();
    let list = registry.held(n).marks;
    assert(final(access).made().drop_last() =~= old(access).made());
    let k = lemma_jump(list, tid, cause, r, registry.held(n + 1).marks);
    assert(list[k].mark.tid == tid);
}

/// What a call of `protect` or `protect_cause` says of the list, mark by mark.
proof fn lemma_call<R, F: FnOnce() -> Option<R>>(
    registry: SharedRegistry,
    mark: Mark,
    run: F,
    before: Seq<nat>,
    after: Seq<nat>,
    r: Result<R, RecoveryError>,
)
    requires
        scope::answers(registry, mark, run, before, after, r),
        mark.cause is None,
    ensures
        after.len() == before.len() + 2,
        after.take(before.len() as int) == before,
        ({
            let i = after[before.len() as int];
            let j = after[before.len() as int + 1];
            let new = registry.held(i + 1).marks;
            let last = registry.held(j).marks;
            let end = registry.held(j + 1).marks;
            &&& new.len() == registry.held(i).marks.len() + 1
            &&& new[0].mark == mark
            &&& new.skip(1) == registry.held(i).marks
            &&& forall|k: int| 0 < k < new.len() ==> (#[trigger] new[k]).id != new[0].id
            &&& forall|k: int| 0 <= k < end.len() ==> (#[trigger] end[k]).id != new[0].id
            &&& forall|k: int|
                0 <= k < last.len() && (#[trigger] last[k]).id == new[0].id ==> end
                    == last.take(k) + last.skip(k + 1)
            &&& (forall|k: int| 0 <= k < last.len() ==> (#[trigger] last[k]).id != new[0].id)
                ==> end == last
            &&& r is Ok ==> run.ensures((), Some(r->Ok_0))
            &&& r is Err ==> run.ensures((), None::<R>)
            &&& r is Err ==> forall|k: int|
                0 <= k < last.len() && (#[trigger] last[k]).id == new[0].id
                    && last[k].mark.cause is Some ==> last[k].mark.cause == Some(r->Err_0.cause)
            &&& r is Err && (forall|k: int|
                0 <= k < last.len() && (#[trigger] last[k]).id == new[0].id
                    ==> last[k].mark.cause is None) ==> r->Err_0.cause == UNREPORTED
        }),
{
    calls::law_call_answers_for_its_code(registry, mark, run, before, after, r);
    let (left, value) = calls::lemma_scope_of_call(registry, mark, run, before, after, r);
    let i = calls::entering(before, after);
    let j = calls::leaving(before, after);
    let new = registry.held(i + 1).marks;
    let last = registry.held(j).marks;
    let end = registry.held(j + 1).marks;
    let id = new[0].id;
    assert(after.take(before.len() as int) =~= before);
    assert(new.skip(1) =~= registry.held(i).marks);
    assert(registry.held(i + 1).wf());
    assert(registry.held(j).wf());
    assert forall|k: int| 0 <= k < end.len() implies (#[trigger] end[k]).id != id by {
        if end[k].id == id {
            assert(model::is_at(end, k, id));
        }
    }
    if left is Some {
        let p = choose|p: int| #[trigger]
            model::is_at(last, p, id) && left->0 == last[p].mark && end == last.remove(p);
        assert(last[p].id == id);
        assert(last.remove(p) =~= last.take(p) + last.skip(p + 1));
        assert forall|k: int| 0 <= k < last.len() && (#[trigger] last[k]).id == id implies k
            == p by {}
    } else {
        assert forall|k: int| 0 <= k < last.len() implies (#[trigger] last[k]).id != id by {
            if last[k].id == id {
                assert(model::is_at(last, k, id));
            }
        }
    }
}

/// A call of `protect` makes two operations. The first puts one mark in front of the list,
/// which stays as it is behind it. The mark holds the thread and the address as they were
/// given, is for every cause, holds no cause yet, and has a handle of its own. The second
/// takes that mark out, wherever it then is, and nothing else.
pub proof fn law_protect_links_its_arguments<R, F: FnOnce() -> Option<R>>(
    access: &mut Access<'_>,
    tid: ThreadId,
    jmpbuf: usize,
    run: F,
    r: Result<R, RecoveryError>,
)
    requires
        call_ensures(protect::<R, F>, (access, tid, jmpbuf, run), r),
    ensures
        final(access).registry() == old(access).registry(),
        final(access).made().len() == old(access).made().len() + 2,
        final(access).made().take(old(access).made().len() as int) == old(access).made(),
        ({
            let registry = old(access).registry();
            let i = final(access).made()[old(access).made().len() as int];
            let j = final(access).made().last();
            let new = registry.held(i + 1).marks;
            let last = registry.held(j).marks;
            let end = registry.held(j + 1).marks;
            &&& new.len() == registry.held(i).marks.len() + 1
            &&& new[0].mark.tid == tid
            &&& new[0].mark.accepts is None
            &&& new[0].mark.jmpbuf == jmpbuf
            &&& new[0].mark.cause is None
            &&& new.skip(1) == registry.held(i).marks
            &&& forall|k: int| 0 < k < new.len() ==> (#[trigger] new[k]).id != new[0].id
            &&& forall|k: int| 0 <= k < end.len() ==> (#[trigger] end[k]).id != new[0].id
            &&& forall|k: int|
                0 <= k < last.len() && (#[trigger] last[k]).id == new[0].id ==> end
                    == last.take(k) + last.skip(k + 1)
            &&& (forall|k: int| 0 <= k < last.len() ==> (#[trigger] last[k]).id != new[0].id)
                ==> end == last
        }),
{
    lemma_call(
        old(access).registry(),
        Mark { tid, accepts: None, jmpbuf, cause: None },
        run,
        old(access).made(),
        final(access).made(),
        r,
    );
}

/// A call of `protect_cause` does the same, with a mark that is for the one cause that was
/// given.
pub proof fn law_protect_cause_links_its_arguments<R, F: FnOnce() -> Option<R>>(
    access: &mut Access<'_>,
    tid: ThreadId,
    cause: i32,
    jmpbuf: usize,
    run: F,
    r: Result<R, RecoveryError>,
)
    requires
        call_ensures(protect_cause::<R, F>, (access, tid, cause, jmpbuf, run), r),
    ensures
        final(access).registry() == old(access).registry(),
        final(access).made().len() == old(access).made().len() + 2,
        final(access).made().take(old(access).made().len() as int) == old(access).made(),
        ({
            let registry = old(access).registry();
            let i = final(access).made()[old(access).made().len() as int];
            let j = final(access).made().last();
            let new = registry.held(i + 1).marks;
            let last = registry.held(j).marks;
            let end = registry.held(j + 1).marks;
            &&& new.len() == registry.held(i).marks.len() + 1
            &&& new[0].mark.tid == tid
            &&& new[0].mark.accepts == Some(cause)
            &&& new[0].mark.jmpbuf == jmpbuf
            &&& new[0].mark.cause is None
            &&& new.skip(1) == registry.held(i).marks
            &&& forall|k: int| 0 < k < new.len() ==> (#[trigger] new[k]).id != new[0].id
            &&& forall|k: int| 0 <= k < end.len() ==> (#[trigger] end[k]).id != new[0].id
            &&& forall|k: int|
                0 <= k < last.len() && (#[trigger] last[k]).id == new[0].id ==> end
                    == last.take(k) + last.skip(k + 1)
            &&& (forall|k: int| 0 <= k < last.len() ==> (#[trigger] last[k]).id != new[0].id)
                ==> end == last
        }),
{
    lemma_call(
        old(access).registry(),
        Mark { tid, accepts: Some(cause), jmpbuf, cause: None },
        run,
        old(access).made(),
        final(access).made(),
        r,
    );
}

/// A call of `protect` answers `Ok` of a value only if its code returned that value, and
/// `Err` only if its code was abandoned. Its error is the cause that its mark holds when
/// it is left, as it is.
pub proof fn law_protect_answers_the_value_or_the_cause<R, F: FnOnce() -> Option<R>>(
    access: &mut Access<'_>,
    tid: ThreadId,
    jmpbuf: usize,
    run: F,
    r: Result<R, RecoveryError>,
)
    requires
        call_ensures(protect::<R, F>, (access, tid, jmpbuf, run), r),
    ensures
        r is Ok ==> run.ensures((), Some(r->Ok_0)),
        r is Err ==> run.ensures((), None::<R>),
        ({
            let registry = old(access).registry();
            let i = final(access).made()[old(access).made().len() as int];
            let j = final(access).made().last();
            let id = registry.held(i + 1).marks[0].id;
            let last = registry.held(j).marks;
            &&& r is Err ==> forall|k: int|
                0 <= k < last.len() && (#[trigger] last[k]).id == id && last[k].mark.cause is Some
                    ==> last[k].mark.cause == Some(r->Err_0.cause)
            &&& r is Err && (forall|k: int|
                0 <= k < last.len() && (#[trigger] last[k]).id == id ==> last[k].mark.cause
                    is None) ==> r->Err_0.cause == UNREPORTED
        }),
{
    lemma_call(
        old(access).registry(),
        Mark { tid, accepts: None, jmpbuf, cause: None },
        run,
        old(access).made(),
        final(access).made(),
        r,
    );
}

/// A call of `protect_cause` answers `Ok` of a value only if its code returned that value,
/// and `Err` only if its code was abandoned. If its mark holds a cause when it is left,
/// that is its error, and it is the one cause that the call was for.
pub proof fn law_protect_cause_answers_its_own_cause<R, F: FnOnce() -> Option<R>>(
    access: &mut Access<'_>,
    tid: ThreadId,
    cause: i32,
    jmpbuf: usize,
    run: F,
    r: Result<R, RecoveryError>,
)
    requires
        call_ensures(protect_cause::<R, F>, (access, tid, cause, jmpbuf, run), r),
    ensures
        r is Ok ==> run.ensures((), Some(r->Ok_0)),
        r is Err ==> run.ensures((), None::<R>),
        ({
            let registry = old(access).registry();
            let i = final(access).made()[old(access).made().len() as int];
            let j = final(access).made().last();
            let id = registry.held(i + 1).marks[0].id;
            let last = registry.held(j).marks;
            &&& forall|k: int|
                0 <= k < last.len() && (#[trigger] last[k]).id == id && last[k].mark.cause is Some
                    ==> last[k].mark.cause == Some(cause) && (r is Err ==> r->Err_0.cause == cause)
            &&& r is Err && (forall|k: int|
                0 <= k < last.len() && (#[trigger] last[k]).id == id ==> last[k].mark.cause
                    is None) ==> r->Err_0.cause == UNREPORTED
        }),
{
    let registry = old(access).registry();
    let before = old(access).made();
    let after = final(access).made();
    let mark = Mark { tid, accepts: Some(cause), jmpbuf, cause: None };
    lemma_call(registry, mark, run, before, after, r);
    let (left, value) = calls::lemma_scope_of_call(registry, mark, run, before, after, r);
    let i = calls::entering(before, after);
    let j = calls::leaving(before, after);
    let id = calls::handle(registry, i);
    let last = registry.held(j).marks;
    assert forall|k: int|
        0 <= k < last.len() && (#[trigger] last[k]).id == id && last[k].mark.cause is Some
            implies last[k].mark.cause == Some(cause) by {
        assert(model::is_at(last, k, id));
        assert(registry.held(j).wf());
        life::lemma_mark_of(last, k, id);
        life::law_mark_stays_as_entered(registry, mark, i, id, j, value is Some, left, j);
        let c = last[k].mark.cause->0;
        life::law_reported_cause_was_asked_for::<R>(
            registry,
            mark,
            i,
            id,
            j,
            value is Some,
            left,
            c,
        );
        let m = choose|m: nat| i < m < j && #[trigger] life::hits_at(registry, m, id, c);
        let s = registry.held(m).marks;
        let p = choose|p: int| #[trigger]
            model::is_at(s, p, id) && model::is_target(s, p, s[p].mark.tid, c);
        life::law_mark_stays_as_entered(registry, mark, i, id, j, value is Some, left, m);
        assert(registry.held(m).wf());
        life::lemma_mark_of(s, p, id);
    }
}

/// A recovery that comes next after a call of `protect` has entered its scope jumps into
/// that scope, whatever the thread, the cause and the address are.
pub proof fn law_protected_code_can_recover<R, F: FnOnce() -> Option<R>>(
    access: &mut Access<'_>,
    tid: ThreadId,
    jmpbuf: usize,
    run: F,
    r: Result<R, RecoveryError>,
    inner: &mut Access<'_>,
    cause: i32,
    q: Result<usize, RecoveryFailure>,
)
    requires
        call_ensures(protect::<R, F>, (access, tid, jmpbuf, run), r),
        old(inner).registry() == old(access).registry(),
        call_ensures(recover, (inner, tid, cause), q),
        final(inner).made().last() == final(access).made()[old(access).made().len() as int] + 1,
    ensures
        q == Ok::<usize, RecoveryFailure>(jmpbuf),
{
    law_protect_links_its_arguments(access, tid, jmpbuf, run, r);
    let list = old(inner).registry().held(final(inner).made().last()).marks;
    assert(list[0].mark.tid == tid);
    if q is Err {
        law_recover_fails_without_a_scope(inner, tid, cause, q);
    } else {
        law_recover_jumps_to_the_innermost_scope(inner, tid, cause, q);
    }
}

/// A recovery that comes next after a call of `protect_cause` has entered its scope jumps
/// into that scope if it is for that cause. If it is for another, it answers as if the
/// scope were not there: the address of the newest older mark of the thread that is for
/// every cause or for this one, or a failure if there is none.
pub proof fn law_filtered_code_can_recover<R, F: FnOnce() -> Option<R>>(
    access: &mut Access<'_>,
    tid: ThreadId,
    only: i32,
    jmpbuf: usize,
    run: F,
    r: Result<R, RecoveryError>,
    inner: &mut Access<'_>,
    cause: i32,
    q: Result<usize, RecoveryFailure>,
)
    requires
        call_ensures(protect_cause::<R, F>, (access, tid, only, jmpbuf, run), r),
        old(inner).registry() == old(access).registry(),
        call_ensures(recover, (inner, tid, cause), q),
        final(inner).made().last() == final(access).made()[old(access).made().len() as int] + 1,
    ensures
        cause == only ==> q == Ok::<usize, RecoveryFailure>(jmpbuf),
        ({
            let i = final(access).made()[old(access).made().len() as int];
            let older = old(access).registry().held(i).marks;
            &&& cause != only && q is Err ==> forall|j: int|
                0 <= j < older.len() && (#[trigger] older[j]).mark.tid == tid
                    ==> older[j].mark.accepts is Some && older[j].mark.accepts != Some(cause)
            &&& cause != only && q is Ok ==> exists|k: int|
                {
                    &&& 0 <= k < older.len()
                    &&& (#[trigger] older[k]).mark.tid == tid
                    &&& older[k].mark.accepts is None || older[k].mark.accepts == Some(cause)
                    &&& older[k].mark.jmpbuf == q->Ok_0
                    &&& forall|j: int|
                        0 <= j < k && (#[trigger] older[j]).mark.tid == tid
                            ==> older[j].mark.accepts is Some && older[j].mark.accepts != Some(
                            cause,
                        )
                }
        }),
{
    law_protect_cause_links_its_arguments(access, tid, only, jmpbuf, run, r);
    let i = final(access).made()[old(access).made().len() as int];
    let older = old(access).registry().held(i).marks;
    let list = old(access).registry().held(i + 1).marks;
    assert(list[0].mark.tid == tid);
    assert(forall|k: int| 0 <= k < older.len() ==> #[trigger] older[k] == list.skip(1)[k]);
    assert(forall|k: int| 0 <= k < older.len() ==> #[trigger] older[k] == list[k + 1]);
    if q is Err {
        law_recover_fails_without_a_scope(inner, tid, cause, q);
    } else {
        law_recover_jumps_to_the_innermost_scope(inner, tid, cause, q);
        let k = choose|k: int|
            {
                &&& 0 <= k < list.len()
                &&& (#[trigger] list[k]).mark.tid == tid
                &&& list[k].mark.accepts is None || list[k].mark.accepts == Some(cause)
                &&& list[k].mark.jmpbuf == q->Ok_0
                &&& forall|j: int|
                    0 <= j < k && (#[trigger] list[j]).mark.tid == tid ==> list[j].mark.accepts
                        is Some && list[j].mark.accepts != Some(cause)
            };
        if cause != only {
            assert(older[k - 1] == list[k]);
        }
    }
}

/// Any cause comes back. A call of `protect` enters its scope, a recovery of its thread
/// comes next, and the call leaves after that: if it was abandoned, it answers that cause,
/// whatever it is. The list is as it was before, whether the call answers `Ok` or `Err`.
pub proof fn law_protect_answers_any_cause<R, F: FnOnce() -> Option<R>>(
    access: &mut Access<'_>,
    tid: ThreadId,
    jmpbuf: usize,
    run: F,
    r: Result<R, RecoveryError>,
    inner: &mut Access<'_>,
    cause: i32,
    q: Result<usize, RecoveryFailure>,
)
    requires
        call_ensures(protect::<R, F>, (access, tid, jmpbuf, run), r),
        old(inner).registry() == old(access).registry(),
        call_ensures(recover, (inner, tid, cause), q),
        final(inner).made().last() == final(access).made()[old(access).made().len() as int] + 1,
        final(access).made().last() == final(inner).made().last() + 1,
    ensures
        q == Ok::<usize, RecoveryFailure>(jmpbuf),
        r is Err ==> r->Err_0.cause == cause,
        ({
            let registry = old(access).registry();
            let i = final(access).made()[old(access).made().len() as int];
            let j = final(access).made().last();
            registry.held(j + 1).marks == registry.held(i).marks
        }),
{
    law_protect_links_its_arguments(access, tid, jmpbuf, run, r);
    law_protect_answers_the_value_or_the_cause(access, tid, jmpbuf, run, r);
    law_protected_code_can_recover(access, tid, jmpbuf, run, r, inner, cause, q);
    let registry = old(access).registry();
    let i = final(access).made()[old(access).made().len() as int];
    let base = registry.held(i).marks;
    let list = registry.held(i + 1).marks;
    let last = registry.held(i + 2).marks;
    let k = lemma_jump(list, tid, cause, q, last);
    assert(list[0].mark.tid == tid);
    assert(k == 0);
    reveal(Seq::filter);
    assert(list.take(0).filter(|e: Entry| e.mark.tid != tid) =~= Seq::<Entry>::empty());
    assert(last[0].id == list[0].id);
    assert(last[0].mark.cause == Some(cause));
    assert(last.take(0) + last.skip(1) =~= base);
}

/// The same for one cause: a call of `protect_cause`, abandoned by a recovery for its
/// cause that comes next, answers that cause.
pub proof fn law_protect_cause_answers_any_cause<R, F: FnOnce() -> Option<R>>(
    access: &mut Access<'_>,
    tid: ThreadId,
    cause: i32,
    jmpbuf: usize,
    run: F,
    r: Result<R, RecoveryError>,
    inner: &mut Access<'_>,
    q: Result<usize, RecoveryFailure>,
)
    requires
        call_ensures(protect_cause::<R, F>, (access, tid, cause, jmpbuf, run), r),
        old(inner).registry() == old(access).registry(),
        call_ensures(recover, (inner, tid, cause), q),
        final(inner).made().last() == final(access).made()[old(access).made().len() as int] + 1,
        final(access).made().last() == final(inner).made().last() + 1,
    ensures
        q == Ok::<usize, RecoveryFailure>(jmpbuf),
        r is Err ==> r->Err_0.cause == cause,
        ({
            let registry = old(access).registry();
            let i = final(access).made()[old(access).made().len() as int];
            let j = final(access).made().last();
            registry.held(j + 1).marks == registry.held(i).marks
        }),
{
    law_protect_cause_links_its_arguments(access, tid, cause, jmpbuf, run, r);
    law_protect_cause_answers_its_own_cause(access, tid, cause, jmpbuf, run, r);
    law_filtered_code_can_recover(access, tid, cause, jmpbuf, run, r, inner, cause, q);
    let registry = old(access).registry();
    let i = final(access).made()[old(access).made().len() as int];
    let base = registry.held(i).marks;
    let list = registry.held(i + 1).marks;
    let last = registry.held(i + 2).marks;
    let k = lemma_jump(list, tid, cause, q, last);
    assert(list[0].mark.tid == tid);
    assert(k == 0);
    reveal(Seq::filter);
    assert(list.take(0).filter(|e: Entry| e.mark.tid != tid) =~= Seq::<Entry>::empty());
    assert(last[0].id == list[0].id);
    assert(last[0].mark.cause == Some(cause));
    assert(last.take(0) + last.skip(1) =~= base);
}

/// A call of `protect` that no operation comes between answers `Ok` of its code's value,
/// or `Err` without a cause, and leaves the list as it was.
pub proof fn law_quiet_protect_leaves_no_trace<R, F: FnOnce() -> Option<R>>(
    access: &mut Access<'_>,
    tid: ThreadId,
    jmpbuf: usize,
    run: F,
    r: Result<R, RecoveryError>,
)
    requires
        call_ensures(protect::<R, F>, (access, tid, jmpbuf, run), r),
        final(access).made().last() == final(access).made()[old(access).made().len() as int] + 1,
    ensures
        r is Ok ==> run.ensures((), Some(r->Ok_0)),
        r is Err ==> r->Err_0.cause == UNREPORTED,
        ({
            let registry = old(access).registry();
            let i = final(access).made()[old(access).made().len() as int];
            registry.held(i + 2).marks == registry.held(i).marks
        }),
{
    law_protect_links_its_arguments(access, tid, jmpbuf, run, r);
    law_protect_answers_the_value_or_the_cause(access, tid, jmpbuf, run, r);
    let registry = old(access).registry();
    let i = final(access).made()[old(access).made().len() as int];
    let list = registry.held(i + 1).marks;
    assert(list[0].id == list[0].id);
    assert(list.take(0) + list.skip(1) =~= registry.held(i).marks);
}

/// Where the marks of a thread are for every cause, the cause has no say in where a
/// recovery of the thread goes, nor in whether it succeeds.
pub proof fn law_recover_gives_no_cause_a_meaning(
    one: &mut Access<'_>,
    two: &mut Access<'_>,
    tid: ThreadId,
    cause: i32,
    other: i32,
    r: Result<usize, RecoveryFailure>,
    q: Result<usize, RecoveryFailure>,
)
    requires
        call_ensures(recover, (one, tid, cause), r),
        call_ensures(recover, (two, tid, other), q),
        ({
            let list = old(one).registry().held(final(one).made().last()).marks;
            &&& list == old(two).registry().held(final(two).made().last()).marks
            &&& forall|j: int|
                0 <= j < list.len() && (#[trigger] list[j]).mark.tid == tid
                    ==> list[j].mark.accepts is None
        }),
    ensures
        r is Ok <==> q is Ok,
        r is Ok ==> r->Ok_0 == q->Ok_0,
{
    let list = old(one).registry().held(final(one).made().last()).marks;
    if r is Ok {
        let k = lemma_jump(
            list,
            tid,
            cause,
            r,
            old(one).registry().held(final(one).made().last() + 1).marks,
        );
        assert(list[k].mark.tid == tid);
        if q is Err {
            law_recover_fails_without_a_scope(two, tid, other, q);
        } else {
            let l = lemma_jump(
                list,
                tid,
                other,
                q,
                old(two).registry().held(final(two).made().last() + 1).marks,
            );
            assert(list[l].mark.tid == tid);
            assert(k == l);
        }
    } else if q is Ok {
        let l = lemma_jump(
            list,
            tid,
            other,
            q,
            old(two).registry().held(final(two).made().last() + 1).marks,
        );
        assert(list[l].mark.tid == tid);
        law_recover_fails_without_a_scope(one, tid, cause, r);
    }
}

/// Threads do not disturb each other: a recovery of one that comes right before a recovery
/// of another does not change what the other answers.
pub proof fn law_recover_leaves_other_threads_alone(
    first: &mut Access<'_>,
    other: ThreadId,
    before: i32,
    p: Result<usize, RecoveryFailure>,
    second: &mut Access<'_>,
    tid: ThreadId,
    cause: i32,
    r: Result<usize, RecoveryFailure>,
)
    requires
        other != tid,
        call_ensures(recover, (first, other, before), p),
        call_ensures(recover, (second, tid, cause), r),
        old(second).registry() == old(first).registry(),
        final(second).made().last() == final(first).made().last() + 1,
    ensures
        ({
            let list = old(first).registry().held(final(first).made().last()).marks;
            &&& r is Err ==> forall|j: int|
                0 <= j < list.len() && (#[trigger] list[j]).mark.tid == tid
                    ==> list[j].mark.accepts is Some && list[j].mark.accepts != Some(cause)
            &&& r is Ok ==> exists|k: int|
                {
                    &&& 0 <= k < list.len()
                    &&& (#[trigger] list[k]).mark.tid == tid
                    &&& list[k].mark.accepts is None || list[k].mark.accepts == Some(cause)
                    &&& list[k].mark.jmpbuf == r->Ok_0
                    &&& forall|j: int|
                        0 <= j < k && (#[trigger] list[j]).mark.tid == tid
                            ==> list[j].mark.accepts is Some && list[j].mark.accepts != Some(
                            cause,
                        )
                }
        }),
{
    let registry = old(first).registry();
    let m = final(first).made().last();
    let n = final(second).made().last();
    let s = registry.held(m).marks;
    let t = registry.held(n).marks;
    assert(model::recovers(s, other, before, p, t));
    assert(laws::foreign_step(s, t, tid));
    laws::law_foreign_step_is_calm(s, t, tid);
    laws::law_recovery_depends_on_own_marks(s, t, tid, cause);
    laws::law_recovery_is_decided(s, tid, cause);
    if r is Err {
        assert(model::none_admits(s, tid, cause));
        assert forall|j: int| 0 <= j < s.len() && (#[trigger] s[j]).mark.tid == tid
            implies s[j].mark.accepts is Some && s[j].mark.accepts != Some(cause) by {
            assert(!s[j].mark.spec_admits(tid, cause));
        }
    } else {
        let l = lemma_jump(t, tid, cause, r, registry.held(n + 1).marks);
        assert(!model::none_admits(t, tid, cause)) by {
            assert(t[l].mark.spec_admits(tid, cause));
        }
        let k = choose|k: int| model::is_target(s, k, tid, cause);
        assert(s[k] == t[l]);
        assert forall|j: int| 0 <= j < k && (#[trigger] s[j]).mark.tid == tid
            implies s[j].mark.accepts is Some && s[j].mark.accepts != Some(cause) by {
            assert(!s[j].mark.spec_admits(tid, cause));
        }
        assert(s[k].mark.tid == tid);
    }
}

/// Every operation on the registry, by whatever thread, puts one new mark in front, takes
/// one mark out, changes nothing, or is a recovery: then it writes its cause into the
/// newest mark of its thread that is for every cause or for this one, and takes out the
/// newer marks of that thread.
pub proof fn law_operations_are_of_four_kinds(registry: SharedRegistry, n: nat)
    requires
        registry.lived(n + 1),
    ensures
        ({
            let s = registry.held(n).marks;
            let t = registry.held(n + 1).marks;
            ||| t == s
            ||| t.len() == s.len() + 1 && t.skip(1) == s && t[0].mark.cause is None && forall|
                j: int,
            |
                0 <= j < s.len() ==> (#[trigger] s[j]).id != t[0].id
            ||| exists|k: int|
                0 <= k < s.len() && #[trigger] s.take(k) + s.skip(k + 1) == t
            ||| exists|k: int|
                {
                    let tid = (#[trigger] s[k]).mark.tid;
                    let kept = s.take(k).filter(|e: Entry| e.mark.tid != tid);
                    let hit = t[kept.len() as int];
                    &&& 0 <= k < s.len()
                    &&& t == kept + seq![hit] + s.skip(k + 1)
                    &&& hit.id == s[k].id
                    &&& hit.mark.tid == tid
                    &&& hit.mark.accepts == s[k].mark.accepts
                    &&& hit.mark.jmpbuf == s[k].mark.jmpbuf
                    &&& hit.mark.cause is Some
                    &&& s[k].mark.accepts is None || s[k].mark.accepts == hit.mark.cause
                    &&& forall|j: int|
                        0 <= j < k && (#[trigger] s[j]).mark.tid == tid ==> s[j].mark.accepts
                            is Some && s[j].mark.accepts != hit.mark.cause
                }
        }),
{
    let s = registry.held(n).marks;
    let t = registry.held(n + 1).marks;
    assert(registry.steps(n));
    if exists|id: MarkId, mark: Mark|
        mark.cause is None && #[trigger] model::enters(
            registry.held(n),
            id,
            mark,
            registry.held(n + 1),
        ) {
        assert(t.skip(1) =~= s);
        assert forall|j: int| 0 <= j < s.len() implies (#[trigger] s[j]).id != t[0].id by {
            if s[j].id == t[0].id {
                assert(model::is_at(s, j, t[0].id));
            }
        }
    } else if exists|id: MarkId, completed: bool, left: Option<Mark>| #[trigger]
        model::leaves(registry.held(n), id, completed, left, registry.held(n + 1)) {
        let (id, completed, left) = choose|id: MarkId, completed: bool, left: Option<Mark>|
         #[trigger]
            model::leaves(registry.held(n), id, completed, left, registry.held(n + 1));
        if left is Some {
            let k = choose|k: int| #[trigger] model::is_at(s, k, id) && t == s.remove(k);
            assert(s.take(k) + s.skip(k + 1) =~= t);
        }
    } else {
        let (tid, cause, r) = choose|tid: ThreadId, cause: i32, r: Result<usize, RecoveryFailure>|
         #[trigger] model::decides(registry.held(n), tid, cause, r, registry.held(n + 1));
        if r is Ok {
            let k = lemma_jump(s, tid, cause, r, t);
            let kept = s.take(k).filter(|e: Entry| e.mark.tid != tid);
            assert(s[k].mark.tid == tid);
            assert(t[kept.len() as int].mark.cause == Some(cause));
            assert(t =~= kept + seq![t[kept.len() as int]] + s.skip(k + 1));
        }
    }
}

/// Two calls of `protect`, however far apart, link marks with different handles: leaving
/// one scope never takes out the mark of another.
pub proof fn law_scopes_have_handles_of_their_own<R, F, S, G>(
    first: &mut Access<'_>,
    tid: ThreadId,
    jmpbuf: usize,
    run: F,
    r: Result<R, RecoveryError>,
    second: &mut Access<'_>,
    other: ThreadId,
    address: usize,
    code: G,
    q: Result<S, RecoveryError>,
) where F: FnOnce() -> Option<R>, G: FnOnce() -> Option<S>
    requires
        call_ensures(protect::<R, F>, (first, tid, jmpbuf, run), r),
        call_ensures(protect::<S, G>, (second, other, address, code), q),
        old(second).registry() == old(first).registry(),
        final(first).made()[old(first).made().len() as int]
            < final(second).made()[old(second).made().len() as int],
    ensures
        ({
            let registry = old(first).registry();
            let i = final(first).made()[old(first).made().len() as int];
            let j = final(second).made()[old(second).made().len() as int];
            registry.held(i + 1).marks[0].id != registry.held(j + 1).marks[0].id
        }),
{
    let registry = old(first).registry();
    let mark = Mark { tid, accepts: None, jmpbuf, cause: None };
    let late = Mark { tid: other, accepts: None, jmpbuf: address, cause: None };
    let (a, b) = calls::lemma_scope_of_call(
        registry,
        mark,
        run,
        old(first).made(),
        final(first).made(),
        r,
    );
    let (c, d) = calls::lemma_scope_of_call(
        registry,
        late,
        code,
        old(second).made(),
        final(second).made(),
        q,
    );
    let i = calls::entering(old(first).made(), final(first).made());
    let j = calls::entering(old(second).made(), final(second).made());
    scope::lemma_issued_stays(registry, i + 1, j, calls::handle(registry, i));
}

/// No thread, cause or address is refused: wherever the code can be run, the calls can be
/// made.
pub proof fn law_calls_take_every_input<R, F: FnOnce() -> Option<R>>(
    access: &mut Access<'_>,
    tid: ThreadId,
    cause: i32,
    jmpbuf: usize,
    run: F,
)
    requires
        run.requires(()),
    ensures
        call_requires(protect::<R, F>, (access, tid, jmpbuf, run)),
        call_requires(protect_cause::<R, F>, (access, tid, cause, jmpbuf, run)),
        call_requires(recover, (access, tid, cause)),
{
}

} // verus!
