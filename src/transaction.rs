use vstd::prelude::*;

use crate::attribute::Attribute;
use crate::error::RuleError;
use crate::handle::Handle;
use crate::pool::Pool;
use crate::value::{AttributeValue, Value};

verus! {

/// Write a value under an attribute on the container reached by a handle.
pub struct AttributeModification {
    pub handle: Handle,
    pub name: String,
    pub new_value: Value,
}

impl AttributeModification {
    /// A write of `new_value` under `attribute` on the handle's container.
    pub fn new<T: AttributeValue>(handle: Handle, attribute: &Attribute<T>, new_value: T) -> (r: AttributeModification)
        ensures
            r.handle == handle,
            r.name@ == attribute@,
            r.new_value == new_value.to_value(),
    {
        AttributeModification { handle, name: attribute.name_string(), new_value: new_value.into_value() }
    }
}

/// Create an empty container under a handle minted beforehand, so that the
/// handle can be used by later modifications of the same transaction.
pub struct AddContainerModification {
    pub handle: Handle,
}

impl AddContainerModification {
    /// Mint a handle from the pool and return it with the modification that
    /// creates its container.
    pub fn new(pool: &mut Pool) -> (r: (Handle, AddContainerModification))
        requires
            old(pool).wf(),
            old(pool).next_id() < u64::MAX,
        ensures
            final(pool).wf(),
            r.0 == r.1.handle,
            r.0.id() == old(pool).next_id(),
            final(pool).next_id() == old(pool).next_id() + 1,
            !old(pool).containers().contains_key(r.0),
            final(pool).containers() == old(pool).containers(),
            final(pool).indexes() == old(pool).indexes(),
    {
        let handle = pool.new_handle();
        (handle, AddContainerModification { handle })
    }
}

/// One deferred command against a pool.
pub enum Modification {
    SetAttribute(AttributeModification),
    CreateContainer(AddContainerModification),
}

/// The container values after one modification, or the error it fails with;
/// `next` is the pool's handle counter.
pub open spec fn step(
    values: Map<Handle, Map<Seq<char>, Value>>,
    next: u64,
    m: Modification,
) -> Result<Map<Handle, Map<Seq<char>, Value>>, RuleError> {
    match m {
        Modification::SetAttribute(a) => {
            if values.contains_key(a.handle) {
                Ok(values.insert(a.handle, values[a.handle].insert(a.name@, a.new_value)))
            } else {
                Err(RuleError::NotFound { handle: a.handle })
            }
        },
        Modification::CreateContainer(c) => {
            if values.contains_key(c.handle) {
                Err(RuleError::DuplicateHandle { handle: c.handle })
            } else if c.handle.id() >= next {
                Err(RuleError::ForeignHandle { handle: c.handle })
            } else {
                Ok(values.insert(c.handle, Map::empty()))
            }
        },
    }
}

/// The container values after applying the modifications in order, stopping
/// at the first that fails, with that one's position and error.
pub open spec fn run(
    values: Map<Handle, Map<Seq<char>, Value>>,
    next: u64,
    mods: Seq<Modification>,
) -> (Map<Handle, Map<Seq<char>, Value>>, Option<(int, RuleError)>)
    decreases mods.len(),
{
    if mods.len() == 0 {
        (values, None)
    } else {
        let (p, e) = run(values, next, mods.drop_last());
        if e is Some {
            (p, e)
        } else {
            match step(p, next, mods.last()) {
                Ok(q) => (q, None),
                Err(err) => (p, Some(((mods.len() - 1) as int, err))),
            }
        }
    }
}

/// Once a prefix has failed, longer prefixes end the same way.
pub proof fn lemma_run_stops(
    values: Map<Handle, Map<Seq<char>, Value>>,
    next: u64,
    mods: Seq<Modification>,
    i: int,
    k: int,
)
    requires
        0 <= i <= k <= mods.len(),
        run(values, next, mods.take(i)).1 is Some,
    ensures
        run(values, next, mods.take(k)) == run(values, next, mods.take(i)),
    decreases k - i,
{
    if k > i {
        lemma_run_stops(values, next, mods, i, k - 1);
        assert(mods.take(k).drop_last() =~= mods.take(k - 1));
    }
}

impl Modification {
    /// Apply this modification to the pool.
    pub fn apply(&self, pool: &mut Pool) -> (r: Result<(), RuleError>)
        requires
            old(pool).wf(),
        ensures
            final(pool).wf(),
            final(pool).next_id() == old(pool).next_id(),
            final(pool).indexes().dom() == old(pool).indexes().dom(),
            ({
                match step(old(pool).values(), old(pool).next_id(), *self) {
                    Ok(q) => r is Ok && final(pool).values() == q,
                    Err(e) => r == Err::<(), RuleError>(e) && final(pool).values() == old(pool).values(),
                }
            }),
    {
        match self {
            Modification::SetAttribute(a) => pool.write(a.handle, a.name.clone(), a.new_value.duplicate()),
            Modification::CreateContainer(c) => pool.add_attribute_container_with_handle(c.handle),
        }
    }
}

/// The modification of a transaction that failed, and why.
#[derive(Debug)]
pub struct TransactionError {
    pub position: usize,
    pub cause: RuleError,
}

/// An ordered batch of modifications, applied to a pool in the order they
/// were added.
///
/// Applying stops at the first modification that fails; the effects of the
/// ones before it stay in the pool.
pub struct Transaction {
    modifications: Vec<Modification>,
}

impl View for Transaction {
    type V = Seq<Modification>;

    /// The modifications, in the order they were added.
    closed spec fn view(&self) -> Seq<Modification> {
        self.modifications@
    }
}

impl Transaction {
    /// An empty transaction.
    pub fn new() -> (r: Transaction)
        ensures
            r@ == Seq::<Modification>::empty(),
    {
        Transaction { modifications: Vec::new() }
    }

    /// Append a modification.
    pub fn add(&mut self, modification: Modification)
        ensures
            final(self)@ == old(self)@.push(modification),
    {
        self.modifications.push(modification);
    }

    /// Append the creation of a new container, and return its handle, which
    /// later modifications may already use.
    pub fn add_container(&mut self, pool: &mut Pool) -> (r: Handle)
        requires
            old(pool).wf(),
            old(pool).next_id() < u64::MAX,
        ensures
            final(pool).wf(),
            r.id() == old(pool).next_id(),
            final(pool).next_id() == old(pool).next_id() + 1,
            !old(pool).containers().contains_key(r),
            final(pool).containers() == old(pool).containers(),
            final(pool).indexes() == old(pool).indexes(),
            final(self)@ == old(self)@.push(Modification::CreateContainer(AddContainerModification { handle: r })),
    {
        let (handle, m) = AddContainerModification::new(pool);
        self.add(Modification::CreateContainer(m));
        handle
    }

    /// Append a write of `value` under `attribute` on the handle's container.
    pub fn set_attribute<T: AttributeValue>(&mut self, handle: Handle, attribute: &Attribute<T>, value: T)
        ensures
            final(self)@.len() == old(self)@.len() + 1,
            final(self)@.drop_last() == old(self)@,
            final(self)@.last() matches Modification::SetAttribute(a) && a.handle == handle && a.name@ == attribute@
                && a.new_value == value.to_value(),
    {
        self.add(Modification::SetAttribute(AttributeModification::new(handle, attribute, value)));
        proof {
            assert(self@.drop_last() =~= old(self)@);
        }
    }

    /// Apply the modifications to the pool in the order they were added,
    /// stopping at the first that fails.
    pub fn apply(self, pool: &mut Pool) -> (r: Result<(), TransactionError>)
        requires
            old(pool).wf(),
        ensures
            final(pool).wf(),
            final(pool).next_id() == old(pool).next_id(),
            final(pool).indexes().dom() == old(pool).indexes().dom(),
            final(pool).values() == run(old(pool).values(), old(pool).next_id(), self@).0,
            r is Ok <==> run(old(pool).values(), old(pool).next_id(), self@).1 is None,
            r matches Err(te) ==> run(old(pool).values(), old(pool).next_id(), self@).1 == Some(
                (te.position as int, te.cause),
            ),
    {
        let ghost v0 = pool.values();
        let ghost next = pool.next_id();
        let ghost mods = self@;
        let mut i: usize = 0;
        assert(mods.take(0) =~= Seq::<Modification>::empty());
        while i < self.modifications.len()
            invariant
                pool.wf(),
                mods == self@,
                next == old(pool).next_id(),
                v0 == old(pool).values(),
                pool.next_id() == next,
                pool.indexes().dom() == old(pool).indexes().dom(),
                i <= mods.len(),
                run(v0, next, mods.take(i as int)) == (pool.values(), None::<(int, RuleError)>),
            decreases mods.len() - i,
        {
            let ghost before = pool.values();
            let result = self.modifications[i].apply(pool);
            proof {
                assert(mods.take(i + 1).drop_last() =~= mods.take(i as int));
                assert(mods.take(i + 1).last() == mods[i as int]);
            }
            match result {
                Ok(()) => {},
                Err(e) => {
                    proof {
                        lemma_run_stops(v0, next, mods, i + 1, mods.len() as int);
                        assert(mods.take(mods.len() as int) =~= mods);
                    }
                    return Err(TransactionError { position: i, cause: e });
                },
            }
            i += 1;
        }
        proof {
            assert(mods.take(mods.len() as int) =~= mods);
        }
        Ok(())
    }
}


/// Of two writes to the same attribute of the same container, applied in
/// order, the second one's value stays.
pub proof fn law_last_write_wins(
    values: Map<Handle, Map<Seq<char>, Value>>,
    next: u64,
    first: AttributeModification,
    second: AttributeModification,
)
    requires
        values.contains_key(first.handle),
        second.handle == first.handle,
        second.name@ == first.name@,
    ensures
        run(values, next, seq![Modification::SetAttribute(first), Modification::SetAttribute(second)]) == (
            values.insert(first.handle, values[first.handle].insert(first.name@, second.new_value)),
            None::<(int, RuleError)>,
        ),
{
    reveal_with_fuel(run, 3);
    let mods = seq![Modification::SetAttribute(first), Modification::SetAttribute(second)];
    assert(mods.drop_last() =~= seq![Modification::SetAttribute(first)]);
    assert(mods.drop_last().drop_last() =~= Seq::<Modification>::empty());
    let h = first.handle;
    assert(values[h].insert(first.name@, first.new_value).insert(first.name@, second.new_value) =~= values[h].insert(
        first.name@,
        second.new_value,
    ));
    assert(values.insert(h, values[h].insert(first.name@, first.new_value)).insert(
        h,
        values[h].insert(first.name@, second.new_value),
    ) =~= values.insert(h, values[h].insert(first.name@, second.new_value)));
}

/// When the second of three modifications fails, the first one's effect
/// stays, the third is never applied, and the error names the second.
pub proof fn law_partial_failure(
    values: Map<Handle, Map<Seq<char>, Value>>,
    next: u64,
    first: Modification,
    second: Modification,
    third: Modification,
)
    requires
        step(values, next, first) is Ok,
        step(step(values, next, first)->Ok_0, next, second) is Err,
    ensures
        run(values, next, seq![first, second, third]) == (
            step(values, next, first)->Ok_0,
            Some((1int, step(step(values, next, first)->Ok_0, next, second)->Err_0)),
        ),
{
    reveal_with_fuel(run, 4);
    let mods = seq![first, second, third];
    assert(mods.drop_last() =~= seq![first, second]);
    assert(mods.drop_last().drop_last() =~= seq![first]);
    assert(mods.drop_last().drop_last().drop_last() =~= Seq::<Modification>::empty());
}


/// Whether the modification writes under `name` on the container of `h`.
pub open spec fn writes_to(m: Modification, h: Handle, name: Seq<char>) -> bool {
    m matches Modification::SetAttribute(a) && a.handle == h && a.name@ == name
}

/// In a run that succeeds, the value under an attribute of a container is the
/// one written by the last modification that writes it, wherever the writes
/// stand among other modifications.
pub proof fn law_last_write_wins_in_run(
    values: Map<Handle, Map<Seq<char>, Value>>,
    next: u64,
    mods: Seq<Modification>,
    i: int,
    h: Handle,
    name: Seq<char>,
)
    requires
        0 <= i < mods.len(),
        writes_to(mods[i], h, name),
        forall|j: int| i < j < mods.len() ==> !writes_to(#[trigger] mods[j], h, name),
        run(values, next, mods).1 is None,
    ensures
        run(values, next, mods).0.contains_key(h),
        run(values, next, mods).0[h].contains_key(name),
        run(values, next, mods).0[h][name] == mods[i]->SetAttribute_0.new_value,
    decreases mods.len(),
{
    let prefix = mods.drop_last();
    let last = mods.last();
    let (p, e) = run(values, next, prefix);
    assert(e is None);
    if i == mods.len() - 1 {
        assert(last == mods[i]);
    } else {
        assert forall|j: int| i < j < prefix.len() implies !writes_to(#[trigger] prefix[j], h, name) by {
            assert(prefix[j] == mods[j]);
        }
        assert(prefix[i] == mods[i]);
        law_last_write_wins_in_run(values, next, prefix, i, h, name);
        assert(last == mods[mods.len() - 1]);
        assert(!writes_to(last, h, name));
    }
}

} // verus!
