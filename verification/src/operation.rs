//! What threads ask of the registry that they share, one request at a time.
use crate::error::RecoveryFailure;
use crate::model;
use crate::model::{Mark, MarkId, Snapshot, ThreadId};
use crate::registry::Registry;
use vstd::prelude::*;

verus! {

/// A registry whose links are in order, with all that it held up to now: what threads
/// share.
pub struct Sound {
    registry: Registry,
    past: Ghost<Seq<Snapshot>>,
}

impl Sound {
    #[verifier::type_invariant]
    spec fn inv(self) -> bool {
        &&& self.registry.wf()
        &&& model::history(self.past@)
        &&& self.past@.last() == self.registry.snapshot(self.past@.last().ended)
    }

    /// What the registry held, before the first operation on it and after each one.
    pub closed spec fn past(&self) -> Seq<Snapshot> {
        self.past@
    }

    /// A registry without marks.
    pub fn new() -> (sound: Self)
        ensures
            sound.past() == seq![
                Snapshot { marks: Seq::empty(), issued: Set::empty(), ended: Map::empty() },
            ],
    {
        let registry = Registry::new();
        let ghost past = seq![registry.snapshot(Map::empty())];
        proof {
            registry.lemma_handles(Map::empty());
        }
        Sound { registry, past: Ghost(past) }
    }

    /// Takes the registry out, and leaves a new one.
    fn take(&mut self) -> (registry: Registry)
        ensures
            registry.wf(),
            model::history(old(self).past()),
            old(self).past().last() == registry.snapshot(old(self).past().last().ended),
    {
        proof {
            use_type_invariant(&*self);
        }
        let mut taken = Sound::new();
        core::mem::swap(&mut taken, self);
        taken.registry
    }
}

/// A request to the registry, and what it does.
pub trait Operation: Sized {
    type Reply;

    /// Serving this request makes `t` of `s` and gives `reply`.
    spec fn serves(self, s: Snapshot, reply: Self::Reply, t: Snapshot) -> bool;

    /// Serves this request. The past grows by what the registry then holds.
    fn serve(self, sound: &mut Sound) -> (reply: Self::Reply)
        ensures
            model::grows(old(sound).past(), final(sound).past()),
            self.serves(old(sound).past().last(), reply, final(sound).past().last()),
    ;
}

/// Serving `operation` gives `reply` and extends `past` to `now`.
pub open spec fn extends<O: Operation>(
    operation: O,
    past: Seq<Snapshot>,
    reply: O::Reply,
    now: Seq<Snapshot>,
) -> bool {
    &&& model::grows(past, now)
    &&& operation.serves(past.last(), reply, now.last())
}

/// A history that is extended by one step is a history.
proof fn lemma_history_push(past: Seq<Snapshot>, next: Snapshot)
    requires
        model::history(past),
        next.wf(),
        model::step(past.last(), next),
    ensures
        model::history(past.push(next)),
{
    let now = past.push(next);
    assert forall|n: int| 0 <= n < now.len() - 1 implies #[trigger] model::step_at(now, n) by {
        if n < past.len() - 1 {
            assert(model::step_at(past, n));
        }
    }
}

/// Enter a scope: link a mark for it.
pub struct Enter {
    pub tid: ThreadId,
    pub accepts: Option<i32>,
    pub jmpbuf: usize,
}

impl Operation for Enter {
    type Reply = MarkId;

    open spec fn serves(self, s: Snapshot, reply: MarkId, t: Snapshot) -> bool {
        model::enters(s, reply, model::fresh(self.tid, self.accepts, self.jmpbuf), t)
    }

    fn serve(self, sound: &mut Sound) -> (reply: MarkId) {
        let ghost past = sound.past();
        let mut registry = sound.take();
        let id = registry.push(self.tid, self.accepts, self.jmpbuf);
        let ghost now = registry.snapshot(past.last().ended);
        proof {
            registry.lemma_handles(now.ended);
            assert(model::enters(
                past.last(),
                id,
                model::fresh(self.tid, self.accepts, self.jmpbuf),
                now,
            ));
            lemma_history_push(past, now);
        }
        *sound = Sound { registry, past: Ghost(past.push(now)) };
        id
    }
}

/// Leave the scope with this handle: unlink its mark. Whether its code ran to its end is
/// kept in the history.
pub struct Leave {
    pub id: MarkId,
    pub completed: bool,
}

impl Operation for Leave {
    type Reply = Option<Mark>;

    open spec fn serves(self, s: Snapshot, reply: Option<Mark>, t: Snapshot) -> bool {
        model::leaves(s, self.id, self.completed, reply, t)
    }

    fn serve(self, sound: &mut Sound) -> (reply: Option<Mark>) {
        let ghost past = sound.past();
        let mut registry = sound.take();
        let left = registry.unlink(self.id);
        let ghost now = registry.snapshot(past.last().ended.insert(self.id, self.completed));
        proof {
            registry.lemma_handles(now.ended);
            assert(model::leaves(past.last(), self.id, self.completed, left, now));
            lemma_history_push(past, now);
        }
        *sound = Sound { registry, past: Ghost(past.push(now)) };
        left
    }
}

/// Decide a recovery.
pub struct Recover {
    pub tid: ThreadId,
    pub cause: i32,
}

impl Operation for Recover {
    type Reply = Result<usize, RecoveryFailure>;

    open spec fn serves(
        self,
        s: Snapshot,
        reply: Result<usize, RecoveryFailure>,
        t: Snapshot,
    ) -> bool {
        model::decides(s, self.tid, self.cause, reply, t)
    }

    fn serve(self, sound: &mut Sound) -> (reply: Result<usize, RecoveryFailure>) {
        let ghost past = sound.past();
        let mut registry = sound.take();
        let r = registry.recover(self.tid, self.cause);
        let ghost now = registry.snapshot(past.last().ended);
        proof {
            registry.lemma_handles(now.ended);
            assert(model::decides(past.last(), self.tid, self.cause, r, now));
            lemma_history_push(past, now);
        }
        *sound = Sound { registry, past: Ghost(past.push(now)) };
        r
    }
}

} // verus!
