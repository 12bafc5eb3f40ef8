use vstd::prelude::*;
use std::collections::HashMap;

use crate::attribute::Attribute;
use crate::container::AttributeContainer;
use crate::error::RuleError;
use crate::handle::Handle;
use crate::index::Index;
use crate::named::{entries_map, lemma_entry_in_map, lemma_map_after_push, lemma_map_after_update, names_unique};
use crate::serial::{
    decode_entries, decode_pool, encodes, law_record_round_trip, lemma_decode_pool_ok, lemma_decode_pool_stops,
    ContainerRecord, PoolRecord,
};
use crate::value::{AttributeValue, Value};

verus! {

broadcast use vstd::std_specs::hash::group_hash_axioms, crate::handle::lemma_id_determines;

/// What an index over the named attribute holds when it agrees with the given
/// container values: each handle whose container has the attribute, with the
/// value stored there.
pub open spec fn index_of(values: Map<Handle, Map<Seq<char>, Value>>, name: Seq<char>) -> Map<Handle, Value> {
    Map::new(
        |h: Handle| values.contains_key(h) && values[h].contains_key(name),
        |h: Handle| values[h][name],
    )
}

proof fn lemma_index_of_after_write(
    values: Map<Handle, Map<Seq<char>, Value>>,
    h: Handle,
    name: Seq<char>,
    v: Value,
    other: Seq<char>,
)
    requires
        values.contains_key(h),
    ensures
        index_of(values.insert(h, values[h].insert(name, v)), other) == (if other == name {
            index_of(values, other).insert(h, v)
        } else {
            index_of(values, other)
        }),
{
    let n = values.insert(h, values[h].insert(name, v));
    if other == name {
        assert(index_of(n, other) =~= index_of(values, other).insert(h, v));
    } else {
        assert(index_of(n, other) =~= index_of(values, other));
    }
}

proof fn lemma_index_of_after_create(
    values: Map<Handle, Map<Seq<char>, Value>>,
    h: Handle,
    c: Map<Seq<char>, Value>,
    other: Seq<char>,
)
    requires
        !values.contains_key(h),
        !c.contains_key(other),
    ensures
        index_of(values.insert(h, c), other) == index_of(values, other),
{
    assert(index_of(values.insert(h, c), other) =~= index_of(values, other));
}

/// Handles minted by successive calls, each taking the counter value after
/// the one before, are pairwise distinct.
pub proof fn law_minted_handles_distinct(handles: Seq<Handle>, start: u64)
    requires
        forall|i: int| 0 <= i < handles.len() ==> (#[trigger] handles[i]).id() == start + i,
    ensures
        handles.no_duplicates(),
{
    assert forall|i: int, j: int| 0 <= i < handles.len() && 0 <= j < handles.len() && i != j implies handles[i]
        != handles[j] by {
        assert(handles[i].id() != handles[j].id());
    }
}

/// The results are taken from `order` at the strictly increasing positions
/// `pos`: they keep the order of `order`.
pub open spec fn picked_in_order<'a>(r: Seq<GatheredResult<'a>>, order: Seq<Handle>, pos: Seq<int>) -> bool {
    &&& pos.len() == r.len()
    &&& forall|k: int| 0 <= k < r.len() ==> 0 <= #[trigger] pos[k] < order.len() && r[k].handle == order[pos[k]]
    &&& forall|k: int, l: int| 0 <= k < l < r.len() ==> pos[k] < pos[l]
}

/// One container found by a query, with its handle.
pub struct GatheredResult<'a> {
    pub handle: Handle,
    pub container: &'a AttributeContainer,
}

/// All containers of one session, reached through handles, and the indexes
/// registered over their attributes.
///
/// The pool mints handles from its own counter, so a handle names at most one
/// container of one pool. Every write through the pool notifies the index of
/// the written attribute before the value is stored, so each index always
/// agrees with the containers.
///
/// For that reason the pool hands out containers only by shared reference;
/// all writes go through `set_attribute`, `write` or a transaction, which run
/// the index hooks. A mutable reference to a container would let a caller
/// change an indexed attribute behind its index's back.
///
/// There is one index type, `Index`, which keeps each handle's value of its
/// attribute: it answers both "which containers have the attribute" and "what
/// value does this one hold". Indexes of different types side by side would
/// need trait objects, which the verifier does not handle, and a pool generic
/// over one index type would lose the stated agreement on values.
pub struct Pool {
    containers: HashMap<u64, AttributeContainer>,
    order: Vec<Handle>,
    indexes: Vec<(String, Index)>,
    next_id: u64,
}

impl Pool {
    /// The containers, by handle.
    pub closed spec fn containers(&self) -> Map<Handle, AttributeContainer> {
        Map::new(|h: Handle| self.containers@.contains_key(h.id()), |h: Handle| self.containers@[h.id()])
    }

    /// The values of each container, by handle.
    pub open spec fn values(&self) -> Map<Handle, Map<Seq<char>, Value>> {
        Map::new(|h: Handle| self.containers().contains_key(h), |h: Handle| self.containers()[h]@)
    }

    /// The registered indexes, by attribute name.
    pub closed spec fn indexes(&self) -> Map<Seq<char>, Index> {
        entries_map(self.indexes@)
    }

    /// The handles of the containers, in the order the containers were
    /// created.
    pub closed spec fn creation_order(&self) -> Seq<Handle> {
        self.order@
    }

    /// The counter value the next minted handle will have.
    pub closed spec fn next_id(&self) -> u64 {
        self.next_id
    }

    /// Whether this pool's counter has passed the handle's counter value, so
    /// that the pool will not mint it again.
    pub open spec fn minted(&self, h: Handle) -> bool {
        h.id() < self.next_id()
    }

    /// The pool's invariant: the containers are listed once each in creation
    /// order, every handle in use is below the counter, every container and index is
    /// well formed, and every index agrees with the containers.
    pub closed spec fn wf(&self) -> bool {
        &&& self.order@.no_duplicates()
        &&& forall|i: int| 0 <= i < self.order@.len() ==> self.containers@.contains_key(#[trigger] self.order@[i].id())
        &&& forall|id: u64| #[trigger] self.containers@.contains_key(id) ==> exists|i: int|
            0 <= i < self.order@.len() && self.order@[i].id() == id
        &&& forall|id: u64| #[trigger] self.containers@.contains_key(id) ==> id < self.next_id
        &&& forall|id: u64| #[trigger] self.containers@.contains_key(id) ==> self.containers@[id].wf()
        &&& names_unique(self.indexes@)
        &&& forall|i: int| 0 <= i < self.indexes@.len() ==> (#[trigger] self.indexes@[i]).1.wf()
        &&& forall|i: int| 0 <= i < self.indexes@.len() ==> (#[trigger] self.indexes@[i]).1@ == index_of(self.values(), self.indexes@[i].0@)
    }

    proof fn lemma_wf_facts(&self)
        requires
            self.wf(),
        ensures
            forall|h: Handle| #[trigger] self.containers().contains_key(h) ==> self.containers()[h].wf() && self.minted(h),
            forall|k: Seq<char>| #[trigger] self.indexes().contains_key(k) ==> self.indexes()[k].wf()
                && self.indexes()[k]@ == index_of(self.values(), k),
    {
        assert forall|k: Seq<char>| #[trigger] self.indexes().contains_key(k) implies self.indexes()[k].wf()
            && self.indexes()[k]@ == index_of(self.values(), k) by {
            let i = choose|i: int| 0 <= i < self.indexes@.len() && self.indexes@[i].0@ == k;
            lemma_entry_in_map(self.indexes@, i);
        }
    }

    /// Create an empty pool with no indexes.
    pub fn new() -> (r: Pool)
        ensures
            r.wf(),
            r.containers() == Map::<Handle, AttributeContainer>::empty(),
            r.indexes() == Map::<Seq<char>, Index>::empty(),
            r.next_id() == 0,
            r.creation_order() == Seq::<Handle>::empty(),
    {
        let r = Pool { containers: HashMap::new(), order: Vec::new(), indexes: Vec::new(), next_id: 0 };
        assert(r.containers() =~= Map::<Handle, AttributeContainer>::empty());
        assert(r.indexes() =~= Map::<Seq<char>, Index>::empty());
        r
    }

    /// Whether the counter can mint another handle.
    pub fn can_mint(&self) -> (r: bool)
        ensures
            r == (self.next_id() < u64::MAX),
    {
        self.next_id < u64::MAX
    }

    /// Mint a handle that no earlier call on this pool returned.
    pub fn new_handle(&mut self) -> (r: Handle)
        requires
            old(self).wf(),
            old(self).next_id() < u64::MAX,
        ensures
            final(self).wf(),
            r.id() == old(self).next_id(),
            final(self).next_id() == old(self).next_id() + 1,
            !old(self).containers().contains_key(r),
            final(self).containers() == old(self).containers(),
            final(self).indexes() == old(self).indexes(),
            final(self).creation_order() == old(self).creation_order(),
    {
        let r = Handle::from_id(self.next_id);
        self.next_id = self.next_id + 1;
        assert(!old(self).containers@.contains_key(r.id()));
        r
    }

    /// Insert a container under a minted handle that is known to be free. The
    /// container holds no attribute that an index tracks.
    fn insert_container(&mut self, handle: Handle, c: AttributeContainer)
        requires
            old(self).wf(),
            old(self).minted(handle),
            !old(self).containers().contains_key(handle),
            c.wf(),
            forall|k: Seq<char>| #[trigger] old(self).indexes().contains_key(k) ==> !c@.contains_key(k),
        ensures
            final(self).wf(),
            final(self).containers() == old(self).containers().insert(handle, c),
            final(self).values() == old(self).values().insert(handle, c@),
            final(self).next_id() == old(self).next_id(),
            final(self).indexes() == old(self).indexes(),
            final(self).creation_order() == old(self).creation_order().push(handle),
    {
        let ghost old_values = self.values();
        let ghost cv = c@;
        self.containers.insert(handle.raw(), c);
        self.order.push(handle);
        proof {
            assert(self.containers() =~= old(self).containers().insert(handle, c));
            assert(self.values() =~= old_values.insert(handle, cv));
            let n = self.order@.len() - 1;
            assert(self.order@[n as int] == handle);
            assert forall|id: u64| #[trigger] self.containers@.contains_key(id) implies exists|i: int|
                0 <= i < self.order@.len() && self.order@[i].id() == id by {
                if id != handle.id() {
                    let i = choose|i: int| 0 <= i < old(self).order@.len() && old(self).order@[i].id() == id;
                    assert(self.order@[i] == old(self).order@[i]);
                }
            }
            assert forall|i: int| 0 <= i < self.order@.len() - 1 implies self.order@[i] != handle by {
                assert(old(self).containers@.contains_key(old(self).order@[i].id()));
            }
            assert forall|i: int| 0 <= i < self.indexes@.len() implies (#[trigger] self.indexes@[i]).1@
                == index_of(self.values(), self.indexes@[i].0@) by {
                lemma_entry_in_map(self.indexes@, i);
                assert(self.indexes@ == old(self).indexes@);
                assert(old(self).indexes().contains_key(self.indexes@[i].0@));
                lemma_index_of_after_create(old_values, handle, cv, self.indexes@[i].0@);
            }
        }
    }

    /// Insert an empty container under a minted handle that is known to be
    /// free.
    fn insert_empty(&mut self, handle: Handle)
        requires
            old(self).wf(),
            old(self).minted(handle),
            !old(self).containers().contains_key(handle),
        ensures
            final(self).wf(),
            final(self).containers().dom() == old(self).containers().dom().insert(handle),
            forall|h: Handle| #[trigger] old(self).containers().contains_key(h) ==> final(self).containers()[h] == old(self).containers()[h],
            final(self).containers()[handle].class_view() is None,
            final(self).values() == old(self).values().insert(handle, Map::empty()),
            final(self).next_id() == old(self).next_id(),
            final(self).indexes() == old(self).indexes(),
            final(self).creation_order() == old(self).creation_order().push(handle),
    {
        let c = AttributeContainer::new();
        self.insert_container(handle, c);
        assert(self.containers().dom() =~= old(self).containers().dom().insert(handle));
    }

    /// Add an empty container and return the handle that reaches it.
    pub fn add_attribute_container(&mut self) -> (r: Handle)
        requires
            old(self).wf(),
            old(self).next_id() < u64::MAX,
        ensures
            final(self).wf(),
            r.id() == old(self).next_id(),
            final(self).next_id() == old(self).next_id() + 1,
            !old(self).containers().contains_key(r),
            final(self).containers().dom() == old(self).containers().dom().insert(r),
            forall|h: Handle| #[trigger] old(self).containers().contains_key(h) ==> final(self).containers()[h] == old(self).containers()[h],
            final(self).containers()[r].class_view() is None,
            final(self).values() == old(self).values().insert(r, Map::empty()),
            final(self).indexes() == old(self).indexes(),
            final(self).creation_order() == old(self).creation_order().push(r),
    {
        let handle = self.new_handle();
        self.insert_empty(handle);
        handle
    }

    /// Add an empty container under a handle minted beforehand, such as one
    /// from `new_handle`.
    ///
    /// Fails with `DuplicateHandle` where a container already exists under the
    /// handle, and with `ForeignHandle` where the handle's counter value has
    /// not been reached by this pool's counter, so that no handle this pool
    /// mints later can collide with it. On failure the pool is unchanged. The
    /// check is on counter values alone: a handle of another pool whose value
    /// this pool's counter has already passed is accepted.
    pub fn add_attribute_container_with_handle(&mut self, handle: Handle) -> (r: Result<(), RuleError>)
        requires
            old(self).wf(),
        ensures
            final(self).wf(),
            final(self).next_id() == old(self).next_id(),
            final(self).indexes() == old(self).indexes(),
            old(self).containers().contains_key(handle) ==> r == Err::<(), RuleError>(
                RuleError::DuplicateHandle { handle },
            ) && final(self).containers() == old(self).containers(),
            !old(self).containers().contains_key(handle) && !old(self).minted(handle) ==> r == Err::<
                (),
                RuleError,
            >(RuleError::ForeignHandle { handle }) && final(self).containers() == old(self).containers(),
            r is Ok ==> final(self).creation_order() == old(self).creation_order().push(handle),
            r is Err ==> final(self).creation_order() == old(self).creation_order(),
            !old(self).containers().contains_key(handle) && old(self).minted(handle) ==> r is Ok
                && final(self).containers().dom() == old(self).containers().dom().insert(handle)
                && final(self).containers()[handle].class_view() is None
                && final(self).values() == old(self).values().insert(handle, Map::empty()),
    {
        if self.containers.contains_key(&handle.raw()) {
            return Err(RuleError::DuplicateHandle { handle });
        }
        if handle.raw() >= self.next_id {
            return Err(RuleError::ForeignHandle { handle });
        }
        self.insert_empty(handle);
        Ok(())
    }

    /// The container reached by the handle.
    pub fn get_attribute_container(&self, handle: Handle) -> (r: Result<&AttributeContainer, RuleError>)
        requires
            self.wf(),
        ensures
            r is Ok <==> self.containers().contains_key(handle),
            r matches Ok(c) ==> *c == self.containers()[handle] && c.wf(),
            r is Err ==> r == Err::<&AttributeContainer, RuleError>(RuleError::NotFound { handle }),
    {
        proof {
            self.lemma_wf_facts();
        }
        match self.containers.get(&handle.raw()) {
            Some(c) => Ok(c),
            None => Err(RuleError::NotFound { handle }),
        }
    }

    /// The value that the handle's container stores under the attribute.
    ///
    /// Fails with `NotFound` where the handle reaches no container, and with
    /// `AttributeNotFound` where the container has no value for the attribute.
    pub fn get_attribute<T: AttributeValue>(&self, handle: Handle, attribute: &Attribute<T>) -> (r: Result<&T, RuleError>)
        requires
            self.wf(),
            self.containers().contains_key(handle) ==> self.containers()[handle].agrees_with(attribute),
        ensures
            !self.values().contains_key(handle) ==> r == Err::<&T, RuleError>(RuleError::NotFound { handle }),
            self.values().contains_key(handle) && !self.values()[handle].contains_key(attribute@) ==> (r matches Err(
                RuleError::AttributeNotFound { name },
            ) && name@ == attribute@),
            self.values().contains_key(handle) && self.values()[handle].contains_key(attribute@) ==> (r matches Ok(x)
                && *x == T::of_value(self.values()[handle][attribute@])),
    {
        let c = self.get_attribute_container(handle)?;
        match c.get(attribute) {
            Some(x) => Ok(x),
            None => Err(RuleError::AttributeNotFound { name: attribute.name_string() }),
        }
    }

    /// The position of the index registered under the name.
    fn find_index(&self, name: &String) -> (r: Option<usize>)
        requires
            self.wf(),
        ensures
            r matches Some(i) ==> i < self.indexes@.len() && self.indexes@[i as int].0@ == name@,
            r is None ==> !self.indexes().contains_key(name@),
    {
        let mut i: usize = 0;
        while i < self.indexes.len()
            invariant
                i <= self.indexes@.len(),
                forall|j: int| 0 <= j < i ==> self.indexes@[j].0@ != name@,
            decreases self.indexes@.len() - i,
        {
            if self.indexes[i].0 == *name {
                return Some(i);
            }
            i += 1;
        }
        None
    }

    /// Write a tagged value under a name on the handle's container, first
    /// notifying the index registered for that name, if any.
    ///
    /// Fails with `NotFound`, changing nothing, where the handle reaches no
    /// container.
    pub fn write(&mut self, handle: Handle, name: String, value: Value) -> (r: Result<(), RuleError>)
        requires
            old(self).wf(),
        ensures
            final(self).wf(),
            final(self).next_id() == old(self).next_id(),
            final(self).indexes().dom() == old(self).indexes().dom(),
            final(self).creation_order() == old(self).creation_order(),
            !old(self).values().contains_key(handle) ==> r == Err::<(), RuleError>(RuleError::NotFound { handle })
                && final(self).values() == old(self).values(),
            old(self).values().contains_key(handle) ==> r is Ok && final(self).values() == old(self).values().insert(
                handle,
                old(self).values()[handle].insert(name@, value),
            ),
    {
        if !self.containers.contains_key(&handle.raw()) {
            return Err(RuleError::NotFound { handle });
        }
        let ghost old_values = self.values();
        let ghost key = name@;
        proof {
            self.lemma_wf_facts();
            assert(self.containers().contains_key(handle));
        }
        match self.find_index(&name) {
            Some(i) => {
                let current: Option<Value> = match self.containers.get(&handle.raw()) {
                    Some(c) => match c.lookup(name.as_str()) {
                        Some(v) => Some(v.duplicate()),
                        None => None,
                    },
                    None => None,
                };
                proof {
                    lemma_entry_in_map(self.indexes@, i as int);
                }
                let ghost before = self.indexes@;
                match current {
                    Some(cur) => self.indexes[i].1.update_container(handle, &cur, value.duplicate()),
                    None => self.indexes[i].1.add_container(handle, value.duplicate()),
                }
                proof {
                    assert(self.indexes@ == before.update(i as int, (before[i as int].0, self.indexes@[i as int].1)));
                    lemma_map_after_update(before, i as int, self.indexes@[i as int]);
                }
            },
            None => {},
        }
        let ghost mid = self.indexes@;
        let c = self.containers.remove(&handle.raw());
        match c {
            Some(mut c) => {
                c.store(name, value);
                self.containers.insert(handle.raw(), c);
            },
            None => {},
        }
        proof {
            let nv = old_values.insert(handle, old_values[handle].insert(key, value));
            assert(self.containers@.dom() =~= old(self).containers@.dom());
            assert(self.values() =~= nv);
            assert forall|j: int| 0 <= j < self.indexes@.len() implies (#[trigger] self.indexes@[j]).1@
                == index_of(self.values(), self.indexes@[j].0@) by {
                lemma_index_of_after_write(old_values, handle, key, value, self.indexes@[j].0@);
            }
            assert(self.indexes().dom() =~= old(self).indexes().dom());
        }
        Ok(())
    }

    /// Store a value under the attribute on the handle's container, notifying
    /// the attribute's index first, if one is registered.
    ///
    /// Fails with `NotFound`, changing nothing, where the handle reaches no
    /// container.
    pub fn set_attribute<T: AttributeValue>(&mut self, handle: Handle, attribute: &Attribute<T>, value: T) -> (r: Result<(), RuleError>)
        requires
            old(self).wf(),
        ensures
            final(self).wf(),
            final(self).next_id() == old(self).next_id(),
            final(self).indexes().dom() == old(self).indexes().dom(),
            final(self).creation_order() == old(self).creation_order(),
            !old(self).values().contains_key(handle) ==> r == Err::<(), RuleError>(RuleError::NotFound { handle })
                && final(self).values() == old(self).values(),
            old(self).values().contains_key(handle) ==> r is Ok && final(self).values() == old(self).values().insert(
                handle,
                old(self).values()[handle].insert(attribute@, value.to_value()),
            ),
    {
        self.write(handle, attribute.name_string(), value.into_value())
    }

    /// The containers that satisfy the predicate, with their handles, in the
    /// order the containers were created.
    pub fn gather<F: Fn(&AttributeContainer) -> bool>(&self, predicate: F) -> (r: Vec<GatheredResult<'_>>)
        requires
            self.wf(),
            forall|c: &AttributeContainer| c.wf() ==> predicate.requires((c,)),
        ensures
            exists|pos: Seq<int>| #[trigger] picked_in_order(r@, self.creation_order(), pos),
            forall|i: int| 0 <= i < r@.len() ==> {
                &&& self.containers().contains_key(#[trigger] r@[i].handle)
                &&& *r@[i].container == self.containers()[r@[i].handle]
                &&& predicate.ensures((r@[i].container,), true)
            },
            forall|i: int, j: int| 0 <= i < r@.len() && 0 <= j < r@.len() && i != j ==> r@[i].handle != r@[j].handle,
            forall|h: Handle| #[trigger] self.containers().contains_key(h) ==> (exists|i: int| 0 <= i < r@.len() && r@[i].handle == h)
                || predicate.ensures((&self.containers()[h],), false),
    {
        proof {
            self.lemma_wf_facts();
        }
        let mut r: Vec<GatheredResult<'_>> = Vec::new();
        let ghost mut pos: Seq<int> = Seq::empty();
        let mut i: usize = 0;
        while i < self.order.len()
            invariant
                self.wf(),
                forall|c: &AttributeContainer| c.wf() ==> predicate.requires((c,)),
                forall|h: Handle| #[trigger] self.containers().contains_key(h) ==> self.containers()[h].wf(),
                i <= self.order@.len(),
                pos.len() == r@.len(),
                forall|k: int| 0 <= k < r@.len() ==> 0 <= #[trigger] pos[k] < i && r@[k].handle == self.order@[pos[k]],
                forall|k: int, l: int| 0 <= k < l < r@.len() ==> pos[k] < pos[l],
                forall|k: int| 0 <= k < r@.len() ==> {
                    &&& self.containers().contains_key(#[trigger] r@[k].handle)
                    &&& *r@[k].container == self.containers()[r@[k].handle]
                    &&& predicate.ensures((r@[k].container,), true)
                },
                forall|j: int| 0 <= j < i ==> (exists|k: int| 0 <= k < r@.len() && #[trigger] pos[k] == j)
                    || predicate.ensures((&self.containers()[#[trigger] self.order@[j]],), false),
            decreases self.order@.len() - i,
        {
            let handle = self.order[i];
            proof {
                assert(self.containers@.contains_key(self.order@[i as int].id()));
            }
            let c = self.containers.get(&handle.raw()).unwrap();
            let ghost old_pos = pos;
            let ghost old_len = r@.len();
            proof {
                assert(self.containers().contains_key(handle));
                assert(c.wf());
            }
            let keep = predicate(c);
            if keep {
                r.push(GatheredResult { handle, container: c });
                proof {
                    pos = pos.push(i as int);
                    let n = r@.len() - 1;
                    assert(pos[n] == i as int);
                }
            }
            proof {
                assert(*c == self.containers()[self.order@[i as int]]);
                assert forall|j: int| 0 <= j < i + 1 implies (exists|k: int| 0 <= k < r@.len() && #[trigger] pos[k] == j)
                    || predicate.ensures((&self.containers()[#[trigger] self.order@[j]],), false) by {
                    if j < i {
                        if exists|k: int| 0 <= k < old_len && #[trigger] old_pos[k] == j {
                            let k = choose|k: int| 0 <= k < old_len && #[trigger] old_pos[k] == j;
                            assert(pos[k] == old_pos[k]);
                        }
                    } else if keep {
                        assert(pos[r@.len() - 1] == j);
                    }
                }
            }
            i += 1;
        }
        proof {
            assert forall|k: int, l: int| 0 <= k < r@.len() && 0 <= l < r@.len() && k != l implies r@[k].handle != r@[l].handle by {
                assert(pos[k] != pos[l]);
                assert(self.order@[pos[k]] != self.order@[pos[l]]);
            }
            assert forall|h: Handle| #[trigger] self.containers().contains_key(h) implies (exists|k: int| 0 <= k < r@.len() && r@[k].handle == h)
                || predicate.ensures((&self.containers()[h],), false) by {
                let j = choose|j: int| 0 <= j < self.order@.len() && self.order@[j].id() == h.id();
                assert(self.order@[j] == h);
                if exists|k: int| 0 <= k < r@.len() && #[trigger] pos[k] == j {
                    let k = choose|k: int| 0 <= k < r@.len() && #[trigger] pos[k] == j;
                    assert(r@[k].handle == h);
                }
            }
            assert(picked_in_order(r@, self.creation_order(), pos));
        }
        r
    }

    /// The containers reached by each of the handles, in the same order.
    ///
    /// Fails with `NotFound` for the first handle that reaches no container.
    pub fn gather_handles(&self, handles: &[Handle]) -> (r: Result<Vec<GatheredResult<'_>>, RuleError>)
        requires
            self.wf(),
        ensures
            r is Ok <==> forall|i: int| 0 <= i < handles@.len() ==> self.containers().contains_key(#[trigger] handles@[i]),
            r matches Ok(v) ==> v@.len() == handles@.len() && forall|i: int| 0 <= i < v@.len() ==> {
                &&& (#[trigger] v@[i]).handle == handles@[i]
                &&& *v@[i].container == self.containers()[handles@[i]]
            },
            r matches Err(e) ==> exists|i: int| 0 <= i < handles@.len() && !self.containers().contains_key(#[trigger] handles@[i])
                && (forall|j: int| 0 <= j < i ==> self.containers().contains_key(#[trigger] handles@[j]))
                && e == (RuleError::NotFound { handle: handles@[i] }),
    {
        let mut v: Vec<GatheredResult<'_>> = Vec::new();
        let mut i: usize = 0;
        while i < handles.len()
            invariant
                self.wf(),
                i <= handles@.len(),
                v@.len() == i,
                forall|j: int| 0 <= j < i ==> self.containers().contains_key(#[trigger] handles@[j]),
                forall|j: int| 0 <= j < i ==> {
                    &&& (#[trigger] v@[j]).handle == handles@[j]
                    &&& *v@[j].container == self.containers()[handles@[j]]
                },
            decreases handles@.len() - i,
        {
            let handle = handles[i];
            match self.get_attribute_container(handle) {
                Ok(c) => {
                    v.push(GatheredResult { handle, container: c });
                },
                Err(e) => {
                    return Err(e);
                },
            }
            i += 1;
        }
        Ok(v)
    }

    /// The index registered for the attribute.
    ///
    /// Fails with `IndexMissing` where none is registered.
    pub fn get_index<T: AttributeValue>(&self, attribute: &Attribute<T>) -> (r: Result<&Index, RuleError>)
        requires
            self.wf(),
        ensures
            r is Ok <==> self.indexes().contains_key(attribute@),
            r matches Ok(ix) ==> *ix == self.indexes()[attribute@] && ix.wf()
                && ix@ == index_of(self.values(), attribute@),
            r matches Err(e) ==> (e matches RuleError::IndexMissing { name } && name@ == attribute@),
    {
        proof {
            self.lemma_wf_facts();
        }
        match self.find_index(attribute.name_ref()) {
            Some(i) => {
                proof {
                    lemma_entry_in_map(self.indexes@, i as int);
                }
                Ok(&self.indexes[i].1)
            },
            None => Err(RuleError::IndexMissing { name: attribute.name_string() }),
        }
    }

    /// Register an empty index for the attribute.
    ///
    /// Indexes are registered before any container exists, so that an index
    /// sees every value of its attribute; each attribute has at most one.
    pub fn add_index<T: AttributeValue>(&mut self, attribute: &Attribute<T>, index: Index)
        requires
            old(self).wf(),
            old(self).containers().dom() == Set::<Handle>::empty(),
            !old(self).indexes().contains_key(attribute@),
            index.wf(),
            index@ == Map::<Handle, Value>::empty(),
        ensures
            final(self).wf(),
            final(self).containers() == old(self).containers(),
            final(self).next_id() == old(self).next_id(),
            final(self).indexes() == old(self).indexes().insert(attribute@, index),
            final(self).creation_order() == old(self).creation_order(),
    {
        let name = attribute.name_string();
        proof {
            lemma_map_after_push(self.indexes@, (name, index));
            assert(self.values() =~= Map::<Handle, Map<Seq<char>, Value>>::empty()) by {
                assert forall|h: Handle| !self.containers().contains_key(h) by {
                    assert(!self.containers().dom().contains(h));
                }
            }
            assert(index@ =~= index_of(self.values(), name@));
        }
        self.indexes.push((name, index));
        proof {
            let n = self.indexes@.len() - 1;
            assert(self.indexes@[n as int].0@ == attribute@);
        }
    }

    /// Each container the pool has created appears once in the creation
    /// order, and nothing else does. Each `add_attribute_container` call
    /// appends its handle to that order and no operation removes one, so the
    /// handles returned by any number of calls are pairwise distinct.
    pub proof fn law_created_handles_distinct(&self)
        requires
            self.wf(),
        ensures
            self.creation_order().no_duplicates(),
            self.creation_order().to_set() == self.containers().dom(),
    {
        assert forall|h: Handle| #[trigger] self.creation_order().to_set().contains(h) <==> self.containers().dom().contains(h) by {
            if self.containers().dom().contains(h) {
                let j = choose|j: int| 0 <= j < self.order@.len() && self.order@[j].id() == h.id();
                assert(self.order@[j] == h);
                assert(self.order@.contains(h));
            }
            if self.creation_order().to_set().contains(h) {
                assert(self.order@.contains(h));
                let j = choose|j: int| 0 <= j < self.order@.len() && self.order@[j] == h;
                assert(self.containers@.contains_key(self.order@[j].id()));
            }
        }
        assert(self.creation_order().to_set() =~= self.containers().dom());
    }

    /// Every registered index reports exactly the handles whose containers
    /// have its attribute, with the values stored there. Every operation keeps
    /// the pool well formed, so this holds after any sequence of transactions.
    pub proof fn law_index_consistency(&self)
        requires
            self.wf(),
        ensures
            forall|k: Seq<char>| #[trigger] self.indexes().contains_key(k) ==> {
                &&& self.indexes()[k].wf()
                &&& self.indexes()[k]@.dom() == Set::new(
                    |h: Handle| self.containers().contains_key(h) && self.containers()[h]@.contains_key(k),
                )
                &&& forall|h: Handle| #[trigger] self.indexes()[k]@.contains_key(h) ==> self.indexes()[k]@[h]
                    == self.containers()[h]@[k]
            },
    {
        self.lemma_wf_facts();
        assert forall|k: Seq<char>| #[trigger] self.indexes().contains_key(k) implies self.indexes()[k]@.dom()
            == Set::new(|h: Handle| self.containers().contains_key(h) && self.containers()[h]@.contains_key(k)) by {
            assert(self.indexes()[k]@.dom() =~= Set::new(
                |h: Handle| self.containers().contains_key(h) && self.containers()[h]@.contains_key(k),
            ));
        }
    }

    /// Whether the record is the serialized form of this pool's containers.
    pub open spec fn encoded_by(&self, rec: PoolRecord) -> bool {
        let e = rec.containers@;
        &&& forall|i: int, j: int| 0 <= i < e.len() && 0 <= j < e.len() && i != j ==> e[i].0 != e[j].0
        &&& forall|i: int| 0 <= i < e.len() ==> self.containers().contains_key(Handle::from_id_spec((#[trigger] e[i]).0))
            && encodes(e[i].1, self.containers()[Handle::from_id_spec(e[i].0)])
        &&& forall|h: Handle| #[trigger] self.containers().contains_key(h) ==> exists|i: int| 0 <= i < e.len() && e[i].0 == h.id()
    }

    /// The serialized form of every container, in creation order.
    pub fn to_record(&self) -> (r: PoolRecord)
        requires
            self.wf(),
        ensures
            self.encoded_by(r),
            r.containers@.len() == self.creation_order().len(),
            forall|j: int| 0 <= j < r.containers@.len() ==> (#[trigger] r.containers@[j]).0 == self.creation_order()[j].id(),
    {
        proof {
            self.lemma_wf_facts();
        }
        let mut out: Vec<(u64, ContainerRecord)> = Vec::new();
        let mut i: usize = 0;
        while i < self.order.len()
            invariant
                self.wf(),
                forall|h: Handle| #[trigger] self.containers().contains_key(h) ==> self.containers()[h].wf() && self.minted(h),
                i <= self.order@.len(),
                out@.len() == i,
                forall|j: int| 0 <= j < i ==> (#[trigger] out@[j]).0 == self.order@[j].id()
                    && encodes(out@[j].1, self.containers()[self.order@[j]]),
            decreases self.order@.len() - i,
        {
            let handle = self.order[i];
            proof {
                assert(self.containers@.contains_key(self.order@[i as int].id()));
                assert(self.containers().contains_key(handle));
            }
            let c = self.containers.get(&handle.raw()).unwrap();
            out.push((handle.raw(), c.to_record()));
            i += 1;
        }
        let r = PoolRecord { containers: out };
        proof {
            let e = r.containers@;
            assert forall|j: int| 0 <= j < e.len() implies Handle::from_id_spec((#[trigger] e[j]).0) == self.order@[j] by {
                Handle::lemma_from_id_spec(self.order@[j]);
            }
            assert forall|a: int, b: int| 0 <= a < e.len() && 0 <= b < e.len() && a != b implies e[a].0 != e[b].0 by {
                assert(self.order@[a] != self.order@[b]);
            }
            assert forall|j: int| 0 <= j < e.len() implies self.containers().contains_key(Handle::from_id_spec((#[trigger] e[j]).0))
                && encodes(e[j].1, self.containers()[Handle::from_id_spec(e[j].0)]) by {
                assert(Handle::from_id_spec(e[j].0) == self.order@[j]);
                assert(self.containers@.contains_key(self.order@[j].id()));
            }
            assert forall|h: Handle| #[trigger] self.containers().contains_key(h) implies exists|j: int| 0 <= j < e.len() && e[j].0 == h.id() by {
                let j = choose|j: int| 0 <= j < self.order@.len() && self.order@[j].id() == h.id();
                assert(e[j].0 == h.id());
            }
        }
        r
    }

    /// Add a rebuilt container under the handle with the given number, raising
    /// the counter past it.
    fn restore_container(&mut self, id: u64, c: AttributeContainer) -> (r: Result<(), RuleError>)
        requires
            old(self).wf(),
            old(self).indexes() == Map::<Seq<char>, Index>::empty(),
            c.wf(),
        ensures
            final(self).wf(),
            final(self).indexes() == old(self).indexes(),
            old(self).values().contains_key(Handle::from_id_spec(id)) ==> r == Err::<(), RuleError>(
                RuleError::DuplicateHandle { handle: Handle::from_id_spec(id) },
            ),
            !old(self).values().contains_key(Handle::from_id_spec(id)) && id == u64::MAX ==> r == Err::<(), RuleError>(
                RuleError::ForeignHandle { handle: Handle::from_id_spec(id) },
            ),
            !old(self).values().contains_key(Handle::from_id_spec(id)) && id < u64::MAX ==> r is Ok && final(self).values()
                == old(self).values().insert(Handle::from_id_spec(id), c@),
    {
        let handle = Handle::from_id(id);
        if self.containers.contains_key(&id) {
            return Err(RuleError::DuplicateHandle { handle });
        }
        if id == u64::MAX {
            return Err(RuleError::ForeignHandle { handle });
        }
        if id >= self.next_id {
            self.next_id = id + 1;
        }
        self.insert_container(handle, c);
        Ok(())
    }

    /// Rebuild a pool, without indexes, from its serialized form.
    ///
    /// Fails with the error of the first entry that does not decode, repeats
    /// a handle number (`DuplicateHandle`) or has one that no counter can mint
    /// (`ForeignHandle`).
    pub fn from_record(rec: &PoolRecord) -> (r: Result<Pool, RuleError>)
        ensures
            r is Ok <==> decode_pool(rec.containers@) is Ok,
            r matches Ok(p) ==> p.wf() && Ok::<Map<Handle, Map<Seq<char>, Value>>, RuleError>(p.values()) == decode_pool(
                rec.containers@,
            ) && p.indexes() == Map::<Seq<char>, Index>::empty(),
            r matches Err(e) ==> decode_pool(rec.containers@) == Err::<Map<Handle, Map<Seq<char>, Value>>, RuleError>(e),
    {
        let mut pool = Pool::new();
        let ghost e = rec.containers@;
        let mut i: usize = 0;
        assert(e.take(0) =~= Seq::<(u64, ContainerRecord)>::empty());
        assert(pool.values() =~= Map::<Handle, Map<Seq<char>, Value>>::empty());
        while i < rec.containers.len()
            invariant
                e == rec.containers@,
                i <= e.len(),
                pool.wf(),
                pool.indexes() == Map::<Seq<char>, Index>::empty(),
                decode_pool(e.take(i as int)) == Ok::<Map<Handle, Map<Seq<char>, Value>>, RuleError>(pool.values()),
            decreases e.len() - i,
        {
            proof {
                assert(e.take(i + 1).drop_last() =~= e.take(i as int));
                assert(e.take(i + 1).last() == e[i as int]);
            }
            let step = match AttributeContainer::from_record(&rec.containers[i].1) {
                Ok(c) => pool.restore_container(rec.containers[i].0, c),
                Err(err) => Err(err),
            };
            match step {
                Ok(()) => {},
                Err(err) => {
                    proof {
                        lemma_decode_pool_stops(e, i + 1, e.len() as int);
                        assert(e.take(e.len() as int) =~= e);
                    }
                    return Err(err);
                },
            }
            i += 1;
        }
        proof {
            assert(e.take(e.len() as int) =~= e);
        }
        Ok(pool)
    }

    /// Rebuilding a pool from its serialized form gives back every container
    /// under its handle, with the same values: `rec` is what `to_record` makes
    /// of this pool, and `from_record` gives a pool whose values are
    /// `decode_pool` of it.
    pub proof fn law_pool_record_round_trip(&self, rec: PoolRecord)
        requires
            self.wf(),
            self.encoded_by(rec),
        ensures
            decode_pool(rec.containers@) == Ok::<Map<Handle, Map<Seq<char>, Value>>, RuleError>(self.values()),
    {
        self.lemma_wf_facts();
        let e = rec.containers@;
        assert forall|i: int| 0 <= i < e.len() implies (#[trigger] e[i]).0 < u64::MAX by {
            let h = Handle::from_id_spec(e[i].0);
            Handle::lemma_from_id_spec(h);
            assert(self.containers().contains_key(h));
        }
        assert forall|i: int| 0 <= i < e.len() implies self.values().contains_key(Handle::from_id_spec((#[trigger] e[i]).0))
            && decode_entries(e[i].1.values@) == Ok::<Map<Seq<char>, Value>, RuleError>(
                self.values()[Handle::from_id_spec(e[i].0)],
            ) by {
            let h = Handle::from_id_spec(e[i].0);
            law_record_round_trip(self.containers()[h], e[i].1);
        }
        lemma_decode_pool_ok(e, self.values());
    }
}

} // verus!
