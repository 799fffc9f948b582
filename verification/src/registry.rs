//! The list of active marks: doubly linked, newest first, with its nodes in slots
//! that are used again once their mark has left.
use crate::error::RecoveryFailure;
use crate::model;
use crate::model::{Entry, Mark, MarkId, Snapshot, ThreadId};
use vstd::prelude::*;

verus! {

/// Storage for one mark. While the mark is linked, `prev` and `next` are its
/// neighbours towards the head and the tail. While the slot is idle, `next` is the
/// next idle slot. The generation counts the marks that have left the slot; once it
/// cannot count further the slot is retired, so that no handle is ever given out twice.
#[derive(Clone, Copy)]
struct Slot {
    generation: u64,
    linked: bool,
    mark: Mark,
    prev: Option<usize>,
    next: Option<usize>,
}

/// The active marks of all threads in one list, innermost scope of each thread
/// nearest the head.
///
/// Linking a mark may grow the storage. Nothing else allocates.
pub struct Registry {
    slots: Vec<Slot>,
    head: Option<usize>,
    spare: Option<usize>,
    live: Ghost<Seq<usize>>,
    idle: Ghost<Seq<usize>>,
}

/// The element at position `k`, if there is one.
spec fn at(s: Seq<usize>, k: int) -> Option<usize> {
    if 0 <= k < s.len() {
        Some(s[k])
    } else {
        None
    }
}

/// The node of the `k`-th linked slot points at its two neighbours.
spec fn node_at(slots: Seq<Slot>, live: Seq<usize>, k: int) -> bool {
    let slot = live[k];
    &&& slot < slots.len()
    &&& slots[slot as int].linked
    &&& slots[slot as int].generation < u64::MAX
    &&& slots[slot as int].prev == at(live, k - 1)
    &&& slots[slot as int].next == at(live, k + 1)
}

/// The `k`-th idle slot points at the one after it.
spec fn idle_at(slots: Seq<Slot>, idle: Seq<usize>, k: int) -> bool {
    let slot = idle[k];
    &&& slot < slots.len()
    &&& !slots[slot as int].linked
    &&& slots[slot as int].generation < u64::MAX
    &&& slots[slot as int].next == at(idle, k + 1)
}

/// `slots` holds the doubly linked list of the slots `live` and the singly linked
/// list of the slots `idle`. Every other slot is retired.
spec fn coherent(slots: Seq<Slot>, live: Seq<usize>, idle: Seq<usize>) -> bool {
    &&& live.no_duplicates()
    &&& idle.no_duplicates()
    &&& forall|k: int| 0 <= k < live.len() ==> #[trigger] node_at(slots, live, k)
    &&& forall|k: int| 0 <= k < idle.len() ==> #[trigger] idle_at(slots, idle, k)
    &&& forall|i: usize|
        i < slots.len() ==> #[trigger] live.contains(i) || idle.contains(i) || (
        !slots[i as int].linked && slots[i as int].generation == u64::MAX)
}

/// The handles of all marks that were ever linked in `slots`.
spec fn issued_in(slots: Seq<Slot>) -> Set<MarkId> {
    Set::new(
        |id: MarkId|
            {
                let slot = slots[id.slot as int];
                &&& id.slot < slots.len()
                &&& id.generation < slot.generation || (id.generation == slot.generation
                    && slot.linked)
            },
    )
}

/// Moving the first idle slot to the head of the linked ones keeps both lists.
proof fn lemma_link(slots: Seq<Slot>, live: Seq<usize>, idle: Seq<usize>, after: Seq<Slot>)
    requires
        coherent(slots, live, idle),
        idle.len() > 0,
        after.len() == slots.len(),
        ({
            let new = after[idle[0] as int];
            &&& new.linked
            &&& new.prev is None
            &&& new.next == at(live, 0)
            &&& new.generation == slots[idle[0] as int].generation
        }),
        live.len() > 0 ==> after[live[0] as int] == (Slot {
            prev: Some(idle[0]),
            ..slots[live[0] as int]
        }),
        forall|i: int|
            0 <= i < slots.len() && i != idle[0] && (live.len() > 0 ==> i != live[0])
                ==> after[i] == slots[i],
    ensures
        coherent(after, seq![idle[0]] + live, idle.skip(1)),
        ({
            let id = MarkId { slot: idle[0], generation: slots[idle[0] as int].generation };
            !issued_in(slots).contains(id) && issued_in(after) == issued_in(slots).insert(id)
        }),
{
    let live2 = seq![idle[0]] + live;
    let idle2 = idle.skip(1);
    assert(idle_at(slots, idle, 0));
    assert forall|k: int| 0 <= k < live2.len() implies #[trigger] node_at(after, live2, k) by {
        if k > 0 {
            assert(node_at(slots, live, k - 1));
        }
    }
    assert forall|k: int| 0 <= k < idle2.len() implies #[trigger] idle_at(after, idle2, k) by {
        assert(idle_at(slots, idle, k + 1));
        if live.len() > 0 {
            assert(node_at(slots, live, 0));
        }
    }
    assert forall|i: int, j: int| 0 <= i < live2.len() && 0 <= j < live2.len() && i != j implies live2[i]
        != live2[j] by {
        if i > 0 {
            assert(node_at(slots, live, i - 1));
        }
        if j > 0 {
            assert(node_at(slots, live, j - 1));
        }
    }
    assert forall|i: usize| i < after.len() implies #[trigger] live2.contains(i) || idle2.contains(
        i,
    ) || (!after[i as int].linked && after[i as int].generation == u64::MAX) by {
        assert(live.contains(i) || idle.contains(i) || (!slots[i as int].linked
            && slots[i as int].generation == u64::MAX));
        if live.len() > 0 {
            assert(node_at(slots, live, 0));
        }
        if live.contains(i) {
            assert(live2[live.index_of(i) + 1] == i);
        } else if idle.contains(i) {
            let k = idle.index_of(i);
            if k == 0 {
                assert(live2[0] == i);
            } else {
                assert(idle2[k - 1] == i);
            }
        }
    }
    let id = MarkId { slot: idle[0], generation: slots[idle[0] as int].generation };
    if live.len() > 0 {
        assert(node_at(slots, live, 0));
    }
    assert(issued_in(after) =~= issued_in(slots).insert(id));
}

/// Taking the `k`-th slot out of the linked ones keeps both lists. The slot becomes
/// the first idle one, or is retired.
proof fn lemma_unlink(
    slots: Seq<Slot>,
    live: Seq<usize>,
    idle: Seq<usize>,
    k: int,
    after: Seq<Slot>,
    idle2: Seq<usize>,
)
    requires
        coherent(slots, live, idle),
        0 <= k < live.len(),
        after.len() == slots.len(),
        ({
            let free = after[live[k] as int];
            &&& !free.linked
            &&& free.generation == slots[live[k] as int].generation + 1
            &&& if free.generation < u64::MAX {
                free.next == at(idle, 0) && idle2 == seq![live[k]] + idle
            } else {
                idle2 == idle
            }
        }),
        k > 0 ==> after[live[k - 1] as int] == (Slot {
            next: at(live, k + 1),
            ..slots[live[k - 1] as int]
        }),
        k + 1 < live.len() ==> after[live[k + 1] as int] == (Slot {
            prev: at(live, k - 1),
            ..slots[live[k + 1] as int]
        }),
        forall|i: int|
            0 <= i < slots.len() && i != live[k] && (k > 0 ==> i != live[k - 1]) && (k + 1
                < live.len() ==> i != live[k + 1]) ==> after[i] == slots[i],
    ensures
        coherent(after, live.remove(k), idle2),
        issued_in(after) == issued_in(slots),
{
    let live2 = live.remove(k);
    let shift: int = if idle2.len() == idle.len() { 0 } else { 1 };
    assert(node_at(slots, live, k));
    if k > 0 {
        assert(node_at(slots, live, k - 1));
    }
    if k + 1 < live.len() {
        assert(node_at(slots, live, k + 1));
    }
    assert forall|j: int| 0 <= j < live2.len() implies #[trigger] node_at(after, live2, j) by {
        let i = if j < k { j } else { j + 1 };
        assert(live2[j] == live[i]);
        assert(node_at(slots, live, i));
    }
    assert forall|j: int| 0 <= j < idle2.len() implies #[trigger] idle_at(after, idle2, j) by {
        if j >= shift {
            assert(idle_at(slots, idle, j - shift));
        }
    }
    assert forall|i: int, j: int| 0 <= i < idle2.len() && 0 <= j < idle2.len() && i != j implies idle2[i]
        != idle2[j] by {
        if i >= shift {
            assert(idle_at(slots, idle, i - shift));
        }
        if j >= shift {
            assert(idle_at(slots, idle, j - shift));
        }
    }
    assert forall|i: usize| i < after.len() implies #[trigger] live2.contains(i) || idle2.contains(
        i,
    ) || (!after[i as int].linked && after[i as int].generation == u64::MAX) by {
        assert(live.contains(i) || idle.contains(i) || (!slots[i as int].linked
            && slots[i as int].generation == u64::MAX));
        if idle.contains(i) {
            assert(idle2[idle.index_of(i) + shift] == i);
        } else if live.contains(i) {
            let j = live.index_of(i);
            if j == k {
                if shift == 1 {
                    assert(idle2[0] == i);
                }
            } else if j < k {
                assert(live2[j] == i);
            } else {
                assert(live2[j - 1] == i);
            }
        }
    }
    assert(issued_in(after) =~= issued_in(slots));
}

/// What the mark in a slot holds does not matter to the lists.
proof fn lemma_relabel(
    slots: Seq<Slot>,
    live: Seq<usize>,
    idle: Seq<usize>,
    slot: usize,
    after: Seq<Slot>,
)
    requires
        coherent(slots, live, idle),
        slot < slots.len(),
        after == slots.update(
            slot as int,
            Slot { mark: after[slot as int].mark, ..slots[slot as int] },
        ),
    ensures
        coherent(after, live, idle),
        issued_in(after) == issued_in(slots),
{
    assert forall|k: int| 0 <= k < live.len() implies #[trigger] node_at(after, live, k) by {
        assert(node_at(slots, live, k));
    }
    assert forall|k: int| 0 <= k < idle.len() implies #[trigger] idle_at(after, idle, k) by {
        assert(idle_at(slots, idle, k));
    }
    assert(issued_in(after) =~= issued_in(slots));
}

impl View for Registry {
    type V = Seq<Entry>;

    /// The linked marks, from the head of the list to its tail.
    closed spec fn view(&self) -> Seq<Entry> {
        Seq::new(self.live@.len(), |k: int| self.entry(self.live@[k]))
    }
}

impl Registry {
    spec fn entry(&self, slot: usize) -> Entry {
        let s = self.slots@[slot as int];
        Entry { id: MarkId { slot, generation: s.generation }, mark: s.mark }
    }

    /// The handles of all marks that were ever linked in this registry.
    pub closed spec fn issued(&self) -> Set<MarkId> {
        issued_in(self.slots@)
    }

    /// The registry at this moment, after the scopes in `ended` were left.
    pub open spec fn snapshot(&self, ended: Map<MarkId, bool>) -> Snapshot {
        Snapshot { marks: self@, issued: self.issued(), ended }
    }

    /// The links agree with the order of the marks, and every slot is linked, idle or
    /// retired.
    pub closed spec fn wf(&self) -> bool {
        &&& self.head == at(self.live@, 0)
        &&& self.spare == at(self.idle@, 0)
        &&& coherent(self.slots@, self.live@, self.idle@)
    }

    /// The handles of the linked marks are distinct, and were given out by this registry.
    pub proof fn lemma_handles(&self, ended: Map<MarkId, bool>)
        requires
            self.wf(),
        ensures
            self.snapshot(ended).wf(),
    {
        assert forall|k: int| 0 <= k < self@.len() implies self.issued().contains(
            (#[trigger] self@[k]).id,
        ) by {
            assert(node_at(self.slots@, self.live@, k));
        }
    }

    /// A registry without marks.
    pub fn new() -> (r: Self)
        ensures
            r.wf(),
            r@ == Seq::<Entry>::empty(),
            r.issued() == Set::<MarkId>::empty(),
    {
        let r = Registry {
            slots: Vec::new(),
            head: None,
            spare: None,
            live: Ghost(Seq::empty()),
            idle: Ghost(Seq::empty()),
        };
        assert(r.issued() =~= Set::<MarkId>::empty());
        r
    }

    /// Makes sure that there is an idle slot.
    fn provide_spare(&mut self)
        requires
            old(self).wf(),
        ensures
            final(self).wf(),
            final(self)@ == old(self)@,
            final(self).issued() == old(self).issued(),
            final(self).spare is Some,
    {
        if self.spare.is_none() {
            let slot: usize = self.slots.len();
            let mark = Mark { tid: 0, accepts: None, jmpbuf: 0, cause: None };
            self.slots.push(
                Slot { generation: 0, linked: false, mark, prev: None, next: None },
            );
            self.spare = Some(slot);
            proof {
                self.idle@ = seq![slot];
                let before = old(self).slots@;
                let live = self.live@;
                assert forall|k: int| 0 <= k < live.len() implies #[trigger] node_at(
                    self.slots@,
                    live,
                    k,
                ) by {
                    assert(node_at(before, live, k));
                }
                assert forall|k: int| 0 <= k < live.len() implies self.entry(#[trigger] live[k])
                    == old(self).entry(live[k]) by {
                    assert(node_at(before, live, k));
                }
                assert(self.idle@[0] == slot);
                assert forall|i: usize| i < self.slots@.len() implies #[trigger] live.contains(i)
                    || self.idle@.contains(i) || (!self.slots@[i as int].linked
                    && self.slots@[i as int].generation == u64::MAX) by {
                    if i != slot {
                        assert(live.contains(i) || old(self).idle@.contains(i) || (
                        !before[i as int].linked && before[i as int].generation == u64::MAX));
                    }
                }
                assert(self.issued() =~= old(self).issued());
            }
        }
    }

    /// Links a new mark at the head of the list.
    pub fn push(&mut self, tid: ThreadId, accepts: Option<i32>, jmpbuf: usize) -> (id: MarkId)
        requires
            old(self).wf(),
        ensures
            final(self).wf(),
            model::links(old(self)@, id, model::fresh(tid, accepts, jmpbuf), final(self)@),
            !old(self).issued().contains(id),
            final(self).issued() == old(self).issued().insert(id),
    {
        self.provide_spare();
        let ghost slots = self.slots@;
        let ghost live = self.live@;
        let ghost idle = self.idle@;
        assert(idle_at(slots, idle, 0));
        let slot: usize = self.spare.unwrap();
        let head = self.head;
        let unused = self.slots[slot];
        let mark = Mark { tid, accepts, jmpbuf, cause: None };
        self.spare = unused.next;
        self.slots.set(slot, Slot { linked: true, mark, prev: None, next: head, ..unused });
        if let Some(h) = head {
            assert(node_at(slots, live, 0));
            let node = self.slots[h];
            self.slots.set(h, Slot { prev: Some(slot), ..node });
        }
        self.head = Some(slot);
        proof {
            lemma_link(slots, live, idle, self.slots@);
            self.live@ = seq![slot] + live;
            self.idle@ = idle.skip(1);
            assert forall|k: int| 0 <= k < live.len() implies live[k] != slot && self.entry(
                #[trigger] live[k],
            ) == old(self)@[k] by {
                assert(node_at(slots, live, k));
            }
            let id = MarkId { slot, generation: unused.generation };
            assert(self@ =~= model::pushed(old(self)@, id, mark));
        }
        MarkId { slot, generation: unused.generation }
    }

    /// The slot of the innermost mark that admits a recovery of `tid` for `cause`.
    fn find_slot(&self, tid: ThreadId, cause: i32) -> (found: Option<usize>)
        requires
            self.wf(),
        ensures
            match found {
                Some(slot) => exists|k: int| #[trigger]
                    model::is_target(self@, k, tid, cause) && self.live@[k] == slot,
                None => model::none_admits(self@, tid, cause),
            },
    {
        let mut p = self.head;
        let ghost mut k: int = 0;
        while p.is_some()
            invariant
                self.wf(),
                0 <= k <= self.live@.len(),
                p == at(self.live@, k),
                forall|j: int| 0 <= j < k ==> !self@[j].mark.spec_admits(tid, cause),
            decreases self.live@.len() - k,
        {
            assert(node_at(self.slots@, self.live@, k));
            let slot: usize = p.unwrap();
            let node = self.slots[slot];
            if node.mark.admits(tid, cause) {
                assert(model::is_target(self@, k, tid, cause));
                return Some(slot);
            }
            p = node.next;
            proof {
                k = k + 1;
            }
        }
        None
    }

    /// The innermost mark that admits a recovery of `tid` for `cause`. The list is
    /// walked from its head, and the first mark of `tid` that accepts `cause` is the one.
    pub fn find(&self, tid: ThreadId, cause: i32) -> (found: Option<MarkId>)
        requires
            self.wf(),
        ensures
            match found {
                Some(id) => exists|k: int| #[trigger]
                    model::is_target(self@, k, tid, cause) && self@[k].id == id,
                None => model::none_admits(self@, tid, cause),
            },
    {
        match self.find_slot(tid, cause) {
            Some(slot) => {
                proof {
                    let k = choose|k: int| #[trigger]
                        model::is_target(self@, k, tid, cause) && self.live@[k] == slot;
                    assert(node_at(self.slots@, self.live@, k));
                }
                Some(MarkId { slot, generation: self.slots[slot].generation })
            },
            None => None,
        }
    }

    /// Takes the `k`-th mark, which is in `slot`, out of the list. The marks around it
    /// are linked to each other, and the slot is idle.
    fn detach(&mut self, slot: usize, Ghost(k): Ghost<int>)
        requires
            old(self).wf(),
            0 <= k < old(self).live@.len(),
            old(self).live@[k] == slot,
        ensures
            final(self).wf(),
            final(self)@ == old(self)@.remove(k),
            final(self).issued() == old(self).issued(),
    {
        let ghost slots = self.slots@;
        let ghost live = self.live@;
        let ghost idle = self.idle@;
        assert(node_at(slots, live, k));
        let node = self.slots[slot];
        match node.prev {
            None => {
                self.head = node.next;
            },
            Some(prev) => {
                assert(node_at(slots, live, k - 1));
                let before = self.slots[prev];
                self.slots.set(prev, Slot { next: node.next, ..before });
            },
        }
        if let Some(next) = node.next {
            assert(node_at(slots, live, k + 1));
            let after = self.slots[next];
            self.slots.set(next, Slot { prev: node.prev, ..after });
        }
        let generation: u64 = node.generation + 1;
        if generation < u64::MAX {
            let next = self.spare;
            self.slots.set(slot, Slot { generation, linked: false, next, ..node });
            self.spare = Some(slot);
            proof {
                self.idle@ = seq![slot] + idle;
            }
        } else {
            self.slots.set(slot, Slot { generation, linked: false, ..node });
        }
        proof {
            lemma_unlink(slots, live, idle, k, self.slots@, self.idle@);
            self.live@ = live.remove(k);
            assert forall|j: int| 0 <= j < live.len() && j != k implies self.entry(
                #[trigger] live[j],
            ) == old(self)@[j] by {
                assert(node_at(slots, live, j));
            }
            assert(self@ =~= old(self)@.remove(k));
        }
    }

    /// Takes the mark with handle `id` out of the list, wherever it is, and hands it
    /// back. `None` if no linked mark has that handle.
    pub fn unlink(&mut self, id: MarkId) -> (mark: Option<Mark>)
        requires
            old(self).wf(),
        ensures
            final(self).wf(),
            model::unlinks(old(self)@, id, mark, final(self)@),
            final(self).issued() == old(self).issued(),
    {
        proof {
            if model::is_linked(self@, id) {
                let k = choose|k: int| model::is_at(self@, k, id);
                assert(node_at(self.slots@, self.live@, k));
            }
        }
        if id.slot < self.slots.len() && self.slots[id.slot].linked
            && self.slots[id.slot].generation == id.generation {
            let mark = self.slots[id.slot].mark;
            proof {
                assert(self.live@.contains(id.slot) || self.idle@.contains(id.slot)
                    || !self.slots@[id.slot as int].linked);
                if self.idle@.contains(id.slot) {
                    assert(idle_at(self.slots@, self.idle@, self.idle@.index_of(id.slot)));
                }
                assert(model::is_at(self@, self.live@.index_of(id.slot), id));
            }
            self.detach(id.slot, Ghost(self.live@.index_of(id.slot)));
            Some(mark)
        } else {
            None
        }
    }

    /// Takes the marks of `tid` out of the list that are nearer the head than the
    /// `k`-th mark, which is in `slot`.
    fn abandon(&mut self, tid: ThreadId, slot: usize, Ghost(k): Ghost<int>)
        requires
            old(self).wf(),
            0 <= k < old(self).live@.len(),
            old(self).live@[k] == slot,
        ensures
            final(self).wf(),
            final(self)@ == model::foreign(old(self)@.take(k), tid) + old(self)@.skip(k),
            final(self).issued() == old(self).issued(),
    {
        let ghost s = self@;
        let ghost live = self.live@;
        let ghost mut i: int = 0;
        let ghost mut w: int = 0;
        assert(node_at(self.slots@, live, 0));
        let mut p: usize = self.head.unwrap();
        proof {
            reveal(Seq::filter);
            assert(s.skip(0) =~= s);
            assert(model::foreign(s.take(0), tid) + s.skip(0) =~= s);
        }
        while p != slot
            invariant
                self.wf(),
                s == old(self)@,
                live == old(self).live@,
                live.no_duplicates(),
                s.len() == live.len(),
                forall|j: int| 0 <= j < s.len() ==> (#[trigger] s[j]).id.slot == live[j],
                0 <= i <= k < live.len(),
                live[k] == slot,
                live[i] == p,
                w == model::foreign(s.take(i), tid).len(),
                self@ == model::foreign(s.take(i), tid) + s.skip(i),
                self.issued() == old(self).issued(),
            decreases k - i,
        {
            proof {
                assert(self@.len() == self.live@.len());
                assert(self@[w] == s[i]);
                assert(self@[w + 1] == s[i + 1]);
                assert(node_at(self.slots@, self.live@, w));
                model::lemma_foreign_take(s, tid, i);
            }
            let node = self.slots[p];
            if node.mark.tid == tid {
                self.detach(p, Ghost(w));
                assert(self@ =~= model::foreign(s.take(i + 1), tid) + s.skip(i + 1));
            } else {
                assert(self@ =~= model::foreign(s.take(i + 1), tid) + s.skip(i + 1));
                proof {
                    w = w + 1;
                }
            }
            p = node.next.unwrap();
            proof {
                i = i + 1;
            }
        }
    }

    /// Decides a recovery of `tid` for `cause`: the innermost scope that admits it
    /// takes the cause, and the address of its `jmp_buf` is where to jump. Scopes of
    /// `tid` nested in that one are abandoned by the jump, so their marks leave the
    /// list. If no scope admits the recovery, nothing changes.
    pub fn recover(&mut self, tid: ThreadId, cause: i32) -> (r: Result<usize, RecoveryFailure>)
        requires
            old(self).wf(),
        ensures
            final(self).wf(),
            model::recovers(old(self)@, tid, cause, r, final(self)@),
            final(self).issued() == old(self).issued(),
    {
        match self.find_slot(tid, cause) {
            None => Err(RecoveryFailure),
            Some(slot) => {
                let ghost k = choose|k: int| #[trigger]
                    model::is_target(self@, k, tid, cause) && self.live@[k] == slot;
                self.abandon(tid, slot, Ghost(k));
                let ghost w = model::foreign(old(self)@.take(k), tid).len() as int;
                let ghost kept = self@;
                let ghost slots = self.slots@;
                let ghost live = self.live@;
                proof {
                    assert(self@.len() == live.len());
                    assert(self@[w] == old(self)@[k]);
                    assert(node_at(slots, live, w));
                }
                let node = self.slots[slot];
                let mark = Mark { cause: Some(cause), ..node.mark };
                self.slots.set(slot, Slot { mark, ..node });
                proof {
                    lemma_relabel(slots, live, self.idle@, slot, self.slots@);
                    assert forall|j: int| 0 <= j < live.len() && j != w implies self.entry(
                        #[trigger] live[j],
                    ) == kept[j] by {
                        assert(node_at(slots, live, j));
                    }
                    assert(self@ =~= kept.update(w, model::with_cause(kept[w], cause)));
                    assert(self@ =~= model::recovered(old(self)@, k, cause));
                }
                Ok(mark.jmpbuf)
            },
        }
    }
}

} // verus!
