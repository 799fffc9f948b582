//! The registry that threads share. What the library takes on trust is here: the
//! critical section that guards the registry, and the cell that holds it.
use crate::model;
use crate::model::Snapshot;
use crate::operation;
use crate::operation::{Operation, Sound};
use core::cell::RefCell;
use critical_section::Mutex;
use vstd::prelude::*;

verus! {

/// `critical_section::Mutex`: data that is reached in critical sections only.
#[verifier::external_type_specification]
#[verifier::external_body]
#[verifier::reject_recursive_types(T)]
pub struct ExMutex<T>(critical_section::Mutex<T>);

/// `core::cell::RefCell`: a value that can be changed through a shared reference.
#[verifier::external_type_specification]
#[verifier::external_body]
#[verifier::reject_recursive_types(T)]
pub struct ExRefCell<T: ?Sized>(core::cell::RefCell<T>);

/// What a guarded cell holds after the first `n` operations on it, in the order in
/// which their critical sections run.
pub uninterp spec fn held(cell: Mutex<RefCell<Sound>>, n: nat) -> Snapshot;

/// `critical_section::Mutex::new` and `core::cell::RefCell::new` wrap a value: it is
/// what the result holds before any operation.
#[verifier::external_body]
fn hold(first: Sound) -> (cell: Mutex<RefCell<Sound>>)
    requires
        first.past().len() == 1,
    ensures
        first.past() == seq![held(cell, 0)],
{
    Mutex::new(RefCell::new(first))
}

/// The one registry that all threads link their marks in. It is reached through an
/// `Access`, in critical sections; protected code runs outside them.
pub struct SharedRegistry {
    cell: Mutex<RefCell<Sound>>,
}

impl SharedRegistry {
    /// What the registry holds after the first `n` operations on it, by all threads.
    pub closed spec fn held(&self, n: nat) -> Snapshot {
        held(self.cell, n)
    }

    /// All that the registry held, up to and with what it holds after `n` operations.
    pub open spec fn held_until(&self, n: nat) -> Seq<Snapshot> {
        Seq::new(n + 1, |m: int| self.held(m as nat))
    }

    /// The operation after the first `n` is a step.
    pub open spec fn steps(&self, n: nat) -> bool {
        model::step(self.held(n), self.held(n + 1))
    }

    /// The first `n` operations were steps, each on what the one before it left.
    pub open spec fn lived(&self, n: nat) -> bool {
        &&& forall|m: nat| m <= n ==> (#[trigger] self.held(m)).wf()
        &&& forall|m: nat| m < n ==> #[trigger] self.steps(m)
    }

    /// `operation` was served after the first `n` operations, and gave `reply`.
    pub open spec fn served<O: Operation>(&self, n: nat, operation: O, reply: O::Reply) -> bool {
        operation::extends(operation, self.held_until(n), reply, self.held_until(n + 1))
    }

    /// A shared registry without marks.
    pub fn new() -> (shared: Self)
        ensures
            shared.held(0) == (Snapshot {
                marks: Seq::empty(),
                issued: Set::empty(),
                ended: Map::empty(),
            }),
    {
        let first = Sound::new();
        let ghost past = first.past();
        let shared = SharedRegistry { cell: hold(first) };
        assert(past[0] == shared.held(0));
        shared
    }

    /// A way to the registry, through which no operation was made yet.
    pub fn access(&self) -> (access: Access<'_>)
        ensures
            access.registry() == *self,
            access.made() == Seq::<nat>::empty(),
    {
        Access { registry: self, made: Ghost(Seq::empty()) }
    }
}

/// A way to the registry, which remembers the operations that were made through it: of
/// each, how many operations by all threads came before it.
pub struct Access<'a> {
    registry: &'a SharedRegistry,
    made: Ghost<Seq<nat>>,
}

impl<'a> Access<'a> {
    /// The registry that this is a way to.
    pub closed spec fn registry(&self) -> SharedRegistry {
        *self.registry
    }

    /// The operations that were made through this access, in turn.
    pub closed spec fn made(&self) -> Seq<nat> {
        self.made@
    }

    /// `critical_section::with` runs code in a critical section, which excludes all
    /// others, and `critical_section::Mutex::borrow_ref_mut` lends out what the cell holds
    /// until the section ends. So the operation is served on what the one before it left,
    /// for some number `n` of operations before it, and what it leaves stays until the
    /// next one. It is the one operation that is made. How many operations came before,
    /// and which, depends on all threads and is not stated, nor that `n` is more than the
    /// numbers remembered so far.
    ///
    /// `borrow_ref_mut` panics if the value is lent out already. It is lent out here only,
    /// and no operation makes another. But linking a mark may allocate: an allocator that
    /// called `recover` from there would find the value lent out.
    #[verifier::external_body]
    pub(crate) fn submit<O: Operation>(&mut self, operation: O) -> (reply: O::Reply)
        ensures
            final(self).registry() == old(self).registry(),
            exists|n: nat|
                #[trigger] old(self).registry().served(n, operation, reply)
                    && final(self).made() == old(self).made().push(n),
    {
        let cell = &self.registry.cell;
        critical_section::with(|cs| operation.serve(&mut cell.borrow_ref_mut(cs)))
    }
}

/// A registry that has served an operation went by steps up to then.
pub(crate) proof fn lemma_served<O: Operation>(
    registry: SharedRegistry,
    n: nat,
    operation: O,
    reply: O::Reply,
)
    requires
        registry.served(n, operation, reply),
    ensures
        registry.lived(n + 1),
        operation.serves(registry.held(n), reply, registry.held(n + 1)),
{
    let now = registry.held_until(n + 1);
    assert forall|m: nat| m <= n + 1 implies (#[trigger] registry.held(m)).wf() by {
        assert(now[m as int].wf());
    }
    assert forall|m: nat| m < n + 1 implies #[trigger] registry.steps(m) by {
        assert(model::step_at(now, m as int));
    }
}

} // verus!
