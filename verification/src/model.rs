//! The registry as mathematics: a sequence of marks, newest first, and what
//! entering a scope, leaving it and recovering into it do to that sequence.
use crate::error::RecoveryFailure;
use vstd::prelude::*;

verus! {

/// Tags a protected scope, and finds it again on recovery. An RTOS task handle or
/// index, cast to `usize`.
pub type ThreadId = usize;

/// What the registry keeps of one protected scope.
#[derive(Debug, Clone, Copy, PartialEq, Eq, Structural)]
pub struct Mark {
    /// The thread that entered the scope.
    pub tid: ThreadId,
    /// The one cause that the scope accepts, or `None` where it accepts every cause.
    pub accepts: Option<i32>,
    /// Address of the saved `jmp_buf` that a jump into this scope restores.
    pub jmpbuf: usize,
    /// The cause that a recovery into this scope reported, once there was one.
    pub cause: Option<i32>,
}

/// Handle to a mark in a registry: where it is stored, and which of the marks that
/// were stored there over time it is.
#[derive(Debug, Clone, Copy, PartialEq, Eq, Structural)]
pub struct MarkId {
    pub slot: usize,
    pub generation: u64,
}

/// A linked mark together with its handle.
#[derive(Debug, Clone, Copy, PartialEq, Eq, Structural)]
pub struct Entry {
    pub id: MarkId,
    pub mark: Mark,
}

impl Mark {
    /// Whether a recovery of thread `tid` for `cause` may jump into this scope.
    pub open spec fn spec_admits(self, tid: ThreadId, cause: i32) -> bool {
        &&& self.tid == tid
        &&& self.accepts is None || self.accepts == Some(cause)
    }

    /// Whether a recovery of thread `tid` for `cause` may jump into this scope.
    pub fn admits(&self, tid: ThreadId, cause: i32) -> (yes: bool)
        ensures
            yes == self.spec_admits(tid, cause),
    {
        self.tid == tid && match self.accepts {
            None => true,
            Some(only) => only == cause,
        }
    }
}

/// No two entries carry the same handle.
pub open spec fn distinct_ids(s: Seq<Entry>) -> bool {
    forall|i: int, j: int| 0 <= i < j < s.len() ==> s[i].id != s[j].id
}

/// The mark with handle `id` is the one at position `k`.
pub open spec fn is_at(s: Seq<Entry>, k: int, id: MarkId) -> bool {
    0 <= k < s.len() && s[k].id == id
}

/// Some linked mark has handle `id`.
pub open spec fn is_linked(s: Seq<Entry>, id: MarkId) -> bool {
    exists|k: int| is_at(s, k, id)
}

/// The innermost scope that admits a recovery of `tid` for `cause` is the one at
/// position `k`: it admits it, and no mark nearer the head does.
pub open spec fn is_target(s: Seq<Entry>, k: int, tid: ThreadId, cause: i32) -> bool {
    &&& 0 <= k < s.len()
    &&& s[k].mark.spec_admits(tid, cause)
    &&& forall|j: int| 0 <= j < k ==> !s[j].mark.spec_admits(tid, cause)
}

/// No scope admits a recovery of `tid` for `cause`.
pub open spec fn none_admits(s: Seq<Entry>, tid: ThreadId, cause: i32) -> bool {
    forall|j: int| 0 <= j < s.len() ==> !s[j].mark.spec_admits(tid, cause)
}

/// The marks of thread `tid`, innermost first.
pub open spec fn own(s: Seq<Entry>, tid: ThreadId) -> Seq<Entry> {
    s.filter(|e: Entry| e.mark.tid == tid)
}

/// The marks of every thread but `tid`, newest first.
pub open spec fn foreign(s: Seq<Entry>, tid: ThreadId) -> Seq<Entry> {
    s.filter(|e: Entry| e.mark.tid != tid)
}

/// The registry after a new mark was linked at the head.
pub open spec fn pushed(s: Seq<Entry>, id: MarkId, mark: Mark) -> Seq<Entry> {
    seq![Entry { id, mark }] + s
}

/// The mark of a scope that was just entered.
pub open spec fn fresh(tid: ThreadId, accepts: Option<i32>, jmpbuf: usize) -> Mark {
    Mark { tid, accepts, jmpbuf, cause: None }
}

/// The entry after a recovery for `cause` into it.
pub open spec fn with_cause(e: Entry, cause: i32) -> Entry {
    Entry { id: e.id, mark: Mark { cause: Some(cause), ..e.mark } }
}

/// The registry after a recovery for `cause` into the mark at position `k`. That
/// mark now holds the cause. The marks of its thread nearer the head are gone: their
/// scopes are nested in the target, and the jump abandons their frames. Marks of
/// other threads stay.
pub open spec fn recovered(s: Seq<Entry>, k: int, cause: i32) -> Seq<Entry> {
    foreign(s.take(k), s[k].mark.tid) + seq![with_cause(s[k], cause)] + s.skip(k + 1)
}

/// Linking `mark` under the handle `id` makes `t` of `s`. No mark in `s` has that
/// handle.
pub open spec fn links(s: Seq<Entry>, id: MarkId, mark: Mark, t: Seq<Entry>) -> bool {
    !is_linked(s, id) && t == pushed(s, id, mark)
}

/// Taking the mark with handle `id` out of `s` hands back `mark` and leaves `t`.
pub open spec fn unlinks(
    s: Seq<Entry>,
    id: MarkId,
    mark: Option<Mark>,
    t: Seq<Entry>,
) -> bool {
    match mark {
        Some(mark) => exists|k: int| #[trigger]
            is_at(s, k, id) && mark == s[k].mark && t == s.remove(k),
        None => !is_linked(s, id) && t == s,
    }
}

/// A recovery of `tid` for `cause` answers `r` and makes `t` of `s`.
pub open spec fn recovers(
    s: Seq<Entry>,
    tid: ThreadId,
    cause: i32,
    r: Result<usize, RecoveryFailure>,
    t: Seq<Entry>,
) -> bool {
    match r {
        Ok(jmpbuf) => exists|k: int| #[trigger]
            is_target(s, k, tid, cause) && jmpbuf == s[k].mark.jmpbuf && t == recovered(
                s,
                k,
                cause,
            ),
        Err(_) => none_admits(s, tid, cause) && t == s,
    }
}

/// A registry at one moment.
pub struct Snapshot {
    /// The linked marks, newest first.
    pub marks: Seq<Entry>,
    /// The handles that were given out so far.
    pub issued: Set<MarkId>,
    /// The scopes that were left so far, and whether their code had run to its end.
    pub ended: Map<MarkId, bool>,
}

impl Snapshot {
    /// The linked marks have distinct handles, all of them given out.
    pub open spec fn wf(self) -> bool {
        &&& distinct_ids(self.marks)
        &&& forall|k: int|
            0 <= k < self.marks.len() ==> self.issued.contains((#[trigger] self.marks[k]).id)
    }
}

/// A scope is entered: its mark is linked under a handle that was never given out.
pub open spec fn enters(s: Snapshot, id: MarkId, mark: Mark, t: Snapshot) -> bool {
    &&& links(s.marks, id, mark, t.marks)
    &&& !s.issued.contains(id)
    &&& t.issued == s.issued.insert(id)
    &&& t.ended == s.ended
}

/// A scope is left whose code ran to its end, or else was abandoned: its mark is
/// unlinked.
pub open spec fn leaves(
    s: Snapshot,
    id: MarkId,
    completed: bool,
    left: Option<Mark>,
    t: Snapshot,
) -> bool {
    &&& unlinks(s.marks, id, left, t.marks)
    &&& t.issued == s.issued
    &&& t.ended == s.ended.insert(id, completed)
}

/// A recovery is decided.
pub open spec fn decides(
    s: Snapshot,
    tid: ThreadId,
    cause: i32,
    r: Result<usize, RecoveryFailure>,
    t: Snapshot,
) -> bool {
    &&& recovers(s.marks, tid, cause, r, t.marks)
    &&& t.issued == s.issued
    &&& t.ended == s.ended
}

/// `t` is what one operation makes of `s`: a scope is entered or left, or a recovery is
/// decided.
pub open spec fn step(s: Snapshot, t: Snapshot) -> bool {
    ||| exists|id: MarkId, mark: Mark| mark.cause is None && #[trigger] enters(s, id, mark, t)
    ||| exists|id: MarkId, completed: bool, left: Option<Mark>| #[trigger]
        leaves(s, id, completed, left, t)
    ||| exists|tid: ThreadId, cause: i32, r: Result<usize, RecoveryFailure>| #[trigger]
        decides(s, tid, cause, r, t)
}

/// One operation leads from the `n`-th of these registries to the one after it.
pub open spec fn step_at(past: Seq<Snapshot>, n: int) -> bool {
    step(past[n], past[n + 1])
}

/// Registries in order, each of which is what one operation makes of the one before.
pub open spec fn history(past: Seq<Snapshot>) -> bool {
    &&& past.len() > 0
    &&& forall|n: int| 0 <= n < past.len() ==> (#[trigger] past[n]).wf()
    &&& forall|n: int| 0 <= n < past.len() - 1 ==> #[trigger] step_at(past, n)
}

/// `now` is a history, and by one operation longer than `past`.
pub open spec fn grows(past: Seq<Snapshot>, now: Seq<Snapshot>) -> bool {
    past.len() > 0 && now == past.push(now.last()) && history(now)
}

/// Filtering one element more appends that element, or nothing.
pub(crate) proof fn lemma_foreign_take(s: Seq<Entry>, tid: ThreadId, i: int)
    requires
        0 <= i < s.len(),
    ensures
        foreign(s.take(i + 1), tid) == if s[i].mark.tid != tid {
            foreign(s.take(i), tid).push(s[i])
        } else {
            foreign(s.take(i), tid)
        },
{
    reveal(Seq::filter);
    assert(s.take(i + 1).drop_last() =~= s.take(i));
}

} // verus!
