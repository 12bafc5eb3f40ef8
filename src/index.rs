use vstd::prelude::*;
use std::collections::HashMap;

use crate::handle::Handle;
use crate::value::Value;

verus! {

broadcast use vstd::std_specs::hash::group_hash_axioms, crate::handle::lemma_id_determines;

/// An index over one attribute: for each handle whose container has the
/// attribute, the value stored there.
///
/// A pool keeps each registered index in step with its containers through the
/// two hooks, `add_container` and `update_container`. Lookups by handle are
/// hashed; `handles` lists the indexed handles in the order they were added.
pub struct Index {
    values: HashMap<u64, Value>,
    order: Vec<Handle>,
}

impl View for Index {
    type V = Map<Handle, Value>;

    /// The indexed value of each handle that has the attribute.
    closed spec fn view(&self) -> Map<Handle, Value> {
        Map::new(|h: Handle| self.values@.contains_key(h.id()), |h: Handle| self.values@[h.id()])
    }
}

impl Index {
    /// The index's invariant: the handle list and the hashed values cover the
    /// same handles, each once.
    pub closed spec fn wf(&self) -> bool {
        &&& self.order@.no_duplicates()
        &&& forall|i: int| 0 <= i < self.order@.len() ==> self.values@.contains_key(#[trigger] self.order@[i].id())
        &&& forall|id: u64| #[trigger] self.values@.contains_key(id) ==> exists|i: int|
            0 <= i < self.order@.len() && self.order@[i].id() == id
    }

    /// The indexed handles, in the order they were added.
    pub closed spec fn insertion_order(&self) -> Seq<Handle> {
        self.order@
    }

    /// Create an empty index.
    pub fn new() -> (r: Index)
        ensures
            r.wf(),
            r@ == Map::<Handle, Value>::empty(),
            r.insertion_order() == Seq::<Handle>::empty(),
    {
        let r = Index { values: HashMap::new(), order: Vec::new() };
        assert(r@ =~= Map::<Handle, Value>::empty());
        r
    }

    /// Hook: a container that had no value for the attribute now gets one.
    pub fn add_container(&mut self, handle: Handle, new_value: Value)
        requires
            old(self).wf(),
            !old(self)@.contains_key(handle),
        ensures
            final(self).wf(),
            final(self)@ == old(self)@.insert(handle, new_value),
            final(self).insertion_order() == old(self).insertion_order().push(handle),
    {
        self.values.insert(handle.raw(), new_value);
        self.order.push(handle);
        proof {
            let n = self.order@.len() - 1;
            assert(self.order@[n as int] == handle);
            assert forall|id: u64| #[trigger] self.values@.contains_key(id) implies exists|i: int|
                0 <= i < self.order@.len() && self.order@[i].id() == id by {
                if id != handle.id() {
                    let i = choose|i: int| 0 <= i < old(self).order@.len() && old(self).order@[i].id() == id;
                    assert(self.order@[i] == old(self).order@[i]);
                }
            }
            assert forall|i: int| 0 <= i < self.order@.len() - 1 implies self.order@[i] != handle by {
                assert(old(self).values@.contains_key(old(self).order@[i].id()));
            }
        }
        assert(self@ =~= old(self)@.insert(handle, new_value));
    }

    /// Hook: the value of a container that already had one changes from
    /// `old_value` to `new_value`.
    pub fn update_container(&mut self, handle: Handle, old_value: &Value, new_value: Value)
        requires
            old(self).wf(),
            old(self)@.contains_key(handle),
            old(self)@[handle] == *old_value,
        ensures
            final(self).wf(),
            final(self)@ == old(self)@.insert(handle, new_value),
            final(self).insertion_order() == old(self).insertion_order(),
    {
        self.values.insert(handle.raw(), new_value);
        proof {
            assert(old(self).values@.contains_key(handle.id()));
            assert(self.values@.dom() =~= old(self).values@.dom());
            assert forall|id: u64| #[trigger] self.values@.contains_key(id) implies exists|i: int|
                0 <= i < self.order@.len() && self.order@[i].id() == id by {
                assert(old(self).values@.contains_key(id));
                assert(self.order@ == old(self).order@);
                let i = choose|i: int| 0 <= i < old(self).order@.len() && old(self).order@[i].id() == id;
                assert(self.order@[i].id() == id);
            }
        }
        assert(self@ =~= old(self)@.insert(handle, new_value));
    }

    /// Whether the handle's container has the attribute.
    pub fn contains(&self, handle: Handle) -> (r: bool)
        requires
            self.wf(),
        ensures
            r == self@.contains_key(handle),
    {
        self.values.contains_key(&handle.raw())
    }

    /// The indexed value of the handle's container, if it has the attribute.
    pub fn value_of(&self, handle: Handle) -> (r: Option<&Value>)
        requires
            self.wf(),
        ensures
            r is Some <==> self@.contains_key(handle),
            r matches Some(v) ==> *v == self@[handle],
    {
        self.values.get(&handle.raw())
    }

    /// The handles whose containers have the attribute, each once, in the
    /// order they were added.
    pub fn handles(&self) -> (r: Vec<Handle>)
        requires
            self.wf(),
        ensures
            r@ == self.insertion_order(),
            r@.no_duplicates(),
            r@.to_set() == self@.dom(),
    {
        let mut r: Vec<Handle> = Vec::new();
        let mut i: usize = 0;
        while i < self.order.len()
            invariant
                self.wf(),
                i <= self.order@.len(),
                r@ == self.order@.subrange(0, i as int),
            decreases self.order@.len() - i,
        {
            r.push(self.order[i]);
            i += 1;
            assert(r@ =~= self.order@.subrange(0, i as int));
        }
        assert(r@ =~= self.order@);
        assert forall|h: Handle| #[trigger] r@.to_set().contains(h) <==> self@.dom().contains(h) by {
            if self@.dom().contains(h) {
                let j = choose|j: int| 0 <= j < self.order@.len() && self.order@[j].id() == h.id();
                assert(self.order@[j] == h);
                assert(r@.contains(h));
            }
            if r@.to_set().contains(h) {
                assert(r@.contains(h));
                let j = choose|j: int| 0 <= j < r@.len() && r@[j] == h;
                assert(self.values@.contains_key(self.order@[j].id()));
            }
        }
        assert(r@.to_set() =~= self@.dom());
        r
    }

    /// The number of indexed handles.
    pub fn len(&self) -> (r: usize)
        requires
            self.wf(),
        ensures
            r == self@.dom().len(),
    {
        proof {
            self.lemma_len();
        }
        self.order.len()
    }

    proof fn lemma_len(&self)
        requires
            self.wf(),
        ensures
            self.order@.len() == self@.dom().len(),
    {
        self.order@.unique_seq_to_set();
        assert(self.order@.to_set() =~= self@.dom()) by {
            assert forall|h: Handle| #[trigger] self@.dom().contains(h) implies self.order@.contains(h) by {
                let j = choose|j: int| 0 <= j < self.order@.len() && self.order@[j].id() == h.id();
                assert(self.order@[j] == h);
            }
        }
    }
}

} // verus!
