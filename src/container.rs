use vstd::prelude::*;

use crate::attribute::Attribute;
use crate::error::RuleError;
use crate::named::{
    entries_map, lemma_entry_in_map, lemma_map_after_push, lemma_map_after_remove,
    lemma_map_after_update, names_unique,
};
use crate::value::{AttributeValue, Value};

verus! {

/// A heterogeneous store that maps attribute names to tagged values: the state
/// of one entity.
///
/// Each name appears at most once. The optional class is a tag that consumers use
/// to tell kinds of entities apart; it is not interpreted here.
pub struct AttributeContainer {
    entries: Vec<(String, Value)>,
    class: Option<String>,
}

impl View for AttributeContainer {
    type V = Map<Seq<char>, Value>;

    /// The stored values, by attribute name.
    closed spec fn view(&self) -> Map<Seq<char>, Value> {
        entries_map(self.entries@)
    }
}

impl AttributeContainer {
    /// The container's invariant: each name is stored once.
    pub closed spec fn wf(&self) -> bool {
        names_unique(self.entries@)
    }

    /// The stored entries, in the order their names were first stored.
    pub closed spec fn entries(&self) -> Seq<(String, Value)> {
        self.entries@
    }

    /// The entries are the stored values.
    pub proof fn lemma_entries(&self)
        requires
            self.wf(),
        ensures
            names_unique(self.entries()),
            entries_map(self.entries()) == self@,
    {
    }

    /// The class tag, if any.
    pub closed spec fn class_view(&self) -> Option<Seq<char>> {
        match self.class {
            Some(c) => Some(c@),
            None => None,
        }
    }

    /// The value stored under the attribute's name, if any, has the
    /// attribute's type.
    pub open spec fn agrees_with<T: AttributeValue>(&self, attribute: &Attribute<T>) -> bool {
        self@.contains_key(attribute@) ==> T::is_stored_as(self@[attribute@])
    }

    /// Create an empty container with no class.
    pub fn new() -> (r: AttributeContainer)
        ensures
            r.wf(),
            r@ == Map::<Seq<char>, Value>::empty(),
            r.class_view() is None,
    {
        let r = AttributeContainer { entries: Vec::new(), class: None };
        assert(r@ =~= Map::<Seq<char>, Value>::empty());
        r
    }

    /// Create an empty container tagged with a class.
    pub fn new_with_class(class: String) -> (r: AttributeContainer)
        ensures
            r.wf(),
            r@ == Map::<Seq<char>, Value>::empty(),
            r.class_view() == Some(class@),
    {
        let r = AttributeContainer { entries: Vec::new(), class: Some(class) };
        assert(r@ =~= Map::<Seq<char>, Value>::empty());
        r
    }

    /// The class tag, if any.
    pub fn get_class(&self) -> (r: Option<&String>)
        ensures
            r is Some <==> self.class_view() is Some,
            r matches Some(c) ==> self.class_view() == Some(c@),
    {
        self.class.as_ref()
    }

    /// The position of the entry with the given name.
    fn find(&self, name: &String) -> (r: Option<usize>)
        requires
            self.wf(),
        ensures
            r matches Some(i) ==> i < self.entries@.len() && self.entries@[i as int].0@ == name@,
            r is None ==> !self@.contains_key(name@),
    {
        let mut i: usize = 0;
        while i < self.entries.len()
            invariant
                i <= self.entries@.len(),
                forall|j: int| 0 <= j < i ==> self.entries@[j].0@ != name@,
            decreases self.entries@.len() - i,
        {
            if self.entries[i].0 == *name {
                return Some(i);
            }
            i += 1;
        }
        None
    }

    /// Store a value under the attribute, replacing any value stored there.
    pub fn set<T: AttributeValue>(&mut self, attribute: &Attribute<T>, value: T)
        requires
            old(self).wf(),
        ensures
            final(self).wf(),
            final(self)@ == old(self)@.insert(attribute@, value.to_value()),
            final(self).class_view() == old(self).class_view(),
    {
        let name = attribute.name_string();
        let v = value.into_value();
        self.store(name, v);
    }

    /// Store a value under the attribute; the same as `set`.
    pub fn put<T: AttributeValue>(&mut self, attribute: &Attribute<T>, value: T)
        requires
            old(self).wf(),
        ensures
            final(self).wf(),
            final(self)@ == old(self)@.insert(attribute@, value.to_value()),
            final(self).class_view() == old(self).class_view(),
    {
        self.set(attribute, value)
    }

    /// Store a tagged value under a name, replacing any value stored there.
    pub fn store(&mut self, name: String, value: Value)
        requires
            old(self).wf(),
        ensures
            final(self).wf(),
            final(self)@ == old(self)@.insert(name@, value),
            final(self).class_view() == old(self).class_view(),
    {
        let ghost key = name@;
        match self.find(&name) {
            Some(i) => {
                proof {
                    lemma_map_after_update(self.entries@, i as int, (name, value));
                }
                self.entries.set(i, (name, value));
            },
            None => {
                proof {
                    lemma_map_after_push(self.entries@, (name, value));
                }
                self.entries.push((name, value));
            },
        }
    }

    /// The tagged value stored under a name, if any.
    pub fn lookup(&self, name: &str) -> (r: Option<&Value>)
        requires
            self.wf(),
        ensures
            r is Some <==> self@.contains_key(name@),
            r matches Some(v) ==> *v == self@[name@],
    {
        match self.find(&name.to_owned()) {
            Some(i) => {
                proof {
                    lemma_entry_in_map(self.entries@, i as int);
                }
                Some(&self.entries[i].1)
            },
            None => None,
        }
    }

    /// The value stored under the attribute, or `None` where there is none.
    ///
    /// A stored value of another type means that two attributes of different
    /// types share a name. That is a programming error, not an absent value:
    /// the precondition excludes it, and a caller that breaks the precondition
    /// stops with a panic rather than reading `None`.
    pub fn get<T: AttributeValue>(&self, attribute: &Attribute<T>) -> (r: Option<&T>)
        requires
            self.wf(),
            self.agrees_with(attribute),
        ensures
            r is Some <==> self@.contains_key(attribute@),
            r matches Some(x) ==> *x == T::of_value(self@[attribute@]),
    {
        match self.lookup(attribute.get_name()) {
            Some(v) => match T::from_value(v) {
                Some(x) => Some(x),
                None => unreached(),
            },
            None => None,
        }
    }

    /// The value stored under an attribute that the container is known to have.
    pub fn get_unsafe<T: AttributeValue>(&self, attribute: &Attribute<T>) -> (r: &T)
        requires
            self.wf(),
            self.agrees_with(attribute),
            self@.contains_key(attribute@),
        ensures
            *r == T::of_value(self@[attribute@]),
    {
        match self.get(attribute) {
            Some(x) => x,
            None => {
                proof {
                    assert(false);
                }
                unreached()
            },
        }
    }

    /// A mutable reference to the value stored under the attribute, or `None`
    /// where there is none. What is written through it stays stored under the
    /// attribute, with the attribute's type.
    pub fn get_mut<T: AttributeValue>(&mut self, attribute: &Attribute<T>) -> (r: Option<&mut T>)
        requires
            old(self).wf(),
            old(self).agrees_with(attribute),
        ensures
            r is Some <==> old(self)@.contains_key(attribute@),
            r matches Some(x) ==> *x == T::of_value(old(self)@[attribute@]) && final(self).wf() && final(self)@
                == old(self)@.insert(attribute@, (*final(x)).to_value()) && final(self).class_view()
                == old(self).class_view(),
            r is None ==> *final(self) == *old(self),
    {
        match self.find(attribute.name_ref()) {
            Some(i) => {
                proof {
                    lemma_entry_in_map(self.entries@, i as int);
                    let name = self.entries@[i as int].0;
                    assert forall|v: Value| #![trigger self.entries@.update(i as int, (name, v))]
                        names_unique(self.entries@.update(i as int, (name, v))) && entries_map(
                            self.entries@.update(i as int, (name, v)),
                        ) == entries_map(self.entries@).insert(name@, v) by {
                        lemma_map_after_update(self.entries@, i as int, (name, v));
                    }
                }
                match T::from_value_mut(&mut self.entries[i].1) {
                    Some(x) => Some(x),
                    None => unreached(),
                }
            },
            None => None,
        }
    }

    /// A mutable reference to the value stored under an attribute that the
    /// container is known to have.
    pub fn get_mut_unsafe<T: AttributeValue>(&mut self, attribute: &Attribute<T>) -> (r: &mut T)
        requires
            old(self).wf(),
            old(self).agrees_with(attribute),
            old(self)@.contains_key(attribute@),
        ensures
            *r == T::of_value(old(self)@[attribute@]),
            final(self).wf(),
            final(self)@ == old(self)@.insert(attribute@, (*final(r)).to_value()),
            final(self).class_view() == old(self).class_view(),
    {
        match self.get_mut(attribute) {
            Some(x) => x,
            None => {
                proof {
                    assert(false);
                }
                unreached()
            },
        }
    }

    /// A copy of the value stored under the attribute, or `default` where there
    /// is none.
    pub fn get_or_else<T: AttributeValue>(&self, attribute: &Attribute<T>, default: T) -> (r: T)
        requires
            self.wf(),
            self.agrees_with(attribute),
        ensures
            r == (if self@.contains_key(attribute@) {
                T::of_value(self@[attribute@])
            } else {
                default
            }),
    {
        match self.get(attribute) {
            Some(x) => x.duplicate(),
            None => default,
        }
    }

    /// Whether a value is stored under the attribute's name.
    pub fn has<T: AttributeValue>(&self, attribute: &Attribute<T>) -> (r: bool)
        requires
            self.wf(),
        ensures
            r == self@.contains_key(attribute@),
    {
        self.find(attribute.name_ref()).is_some()
    }

    /// Remove the value stored under the attribute's name; nothing happens
    /// where there is none.
    pub fn remove<T: AttributeValue>(&mut self, attribute: &Attribute<T>)
        requires
            old(self).wf(),
        ensures
            final(self).wf(),
            final(self)@ == old(self)@.remove(attribute@),
            final(self).class_view() == old(self).class_view(),
    {
        match self.find(attribute.name_ref()) {
            Some(i) => {
                proof {
                    lemma_map_after_remove(self.entries@, i as int);
                }
                self.entries.remove(i);
            },
            None => {
                assert(self@ =~= self@.remove(attribute@));
            },
        }
    }

    /// Hand each stored entry, in order, to the visitor, which dispatches on
    /// the value's type; stop at the first entry it refuses and return its
    /// error.
    pub fn visit_all<F: Fn(&String, &Value) -> Result<(), RuleError>>(&self, visitor: F) -> (r: Result<(), RuleError>)
        requires
            self.wf(),
            forall|n: &String, v: &Value| visitor.requires((n, v)),
        ensures
            r is Ok ==> forall|i: int| 0 <= i < self.entries().len() ==> visitor.ensures(
                (&(#[trigger] self.entries()[i]).0, &self.entries()[i].1),
                Ok::<(), RuleError>(()),
            ),
            r matches Err(e) ==> exists|i: int| 0 <= i < self.entries().len() && visitor.ensures(
                (&(#[trigger] self.entries()[i]).0, &self.entries()[i].1),
                Err::<(), RuleError>(e),
            ) && forall|j: int| 0 <= j < i ==> visitor.ensures(
                (&(#[trigger] self.entries()[j]).0, &self.entries()[j].1),
                Ok::<(), RuleError>(()),
            ),
    {
        let mut i: usize = 0;
        while i < self.entries.len()
            invariant
                i <= self.entries@.len(),
                forall|n: &String, v: &Value| visitor.requires((n, v)),
                forall|j: int| 0 <= j < i ==> visitor.ensures(
                    (&(#[trigger] self.entries@[j]).0, &self.entries@[j].1),
                    Ok::<(), RuleError>(()),
                ),
            decreases self.entries@.len() - i,
        {
            let entry = &self.entries[i];
            let result = visitor(&entry.0, &entry.1);
            proof {
                assert(*entry == self.entries@[i as int]);
                assert(visitor.ensures((&self.entries@[i as int].0, &self.entries@[i as int].1), result));
            }
            match result {
                Ok(u) => {
                    assert(result == Ok::<(), RuleError>(u));
                    assert(u == ());
                },
                Err(e) => {
                    proof {
                        assert(self.entries()[i as int] == self.entries@[i as int]);
                    }
                    return Err(e);
                },
            }
            i += 1;
        }
        Ok(())
    }

    /// The stored entries, each name with its tagged value, for visitors that
    /// handle every stored type.
    pub fn iter(&self) -> (r: &[(String, Value)])
        requires
            self.wf(),
        ensures
            names_unique(r@),
            entries_map(r@) == self@,
    {
        self.entries.as_slice()
    }
}


/// The values a container holds after the writes, in order, starting from
/// `start`.
pub open spec fn apply_writes(start: Map<Seq<char>, Value>, writes: Seq<(Seq<char>, Value)>) -> Map<Seq<char>, Value>
    decreases writes.len(),
{
    if writes.len() == 0 {
        start
    } else {
        apply_writes(start, writes.drop_last()).insert(writes.last().0, writes.last().1)
    }
}

/// Reading an attribute right after setting it gives the value that was set:
/// `after` is what `set(attribute, value)` leaves in a container that held
/// `before`.
pub proof fn law_get_after_set<T: AttributeValue>(
    before: AttributeContainer,
    after: AttributeContainer,
    attribute: Attribute<T>,
    value: T,
)
    requires
        after@ == before@.insert(attribute@, value.to_value()),
    ensures
        after.agrees_with(&attribute),
        after@.contains_key(attribute@),
        T::of_value(after@[attribute@]) == value,
{
    value.lemma_value_round_trip();
}

/// An attribute that no write has named is absent from a container that
/// started empty, so `get` gives nothing and `has` is false.
pub proof fn law_never_set_is_absent(writes: Seq<(Seq<char>, Value)>, name: Seq<char>)
    requires
        forall|i: int| 0 <= i < writes.len() ==> (#[trigger] writes[i]).0 != name,
    ensures
        !apply_writes(Map::empty(), writes).contains_key(name),
    decreases writes.len(),
{
    if writes.len() > 0 {
        let prefix = writes.drop_last();
        assert forall|i: int| 0 <= i < prefix.len() implies (#[trigger] prefix[i]).0 != name by {
            assert(prefix[i] == writes[i]);
        }
        law_never_set_is_absent(prefix, name);
        assert(writes.last() == writes[writes.len() - 1]);
    }
}

/// Setting the same attribute twice leaves the second value.
pub proof fn law_second_set_wins<T: AttributeValue>(
    before: Map<Seq<char>, Value>,
    attribute: Attribute<T>,
    first: T,
    second: T,
)
    ensures
        before.insert(attribute@, first.to_value()).insert(attribute@, second.to_value()) == before.insert(
            attribute@,
            second.to_value(),
        ),
        T::of_value(before.insert(attribute@, first.to_value()).insert(attribute@, second.to_value())[attribute@])
            == second,
{
    second.lemma_value_round_trip();
    assert(before.insert(attribute@, first.to_value()).insert(attribute@, second.to_value()) =~= before.insert(
        attribute@,
        second.to_value(),
    ));
}

/// Removing an absent attribute changes nothing, so removing twice is the
/// same as removing once.
pub proof fn law_remove_idempotent(before: Map<Seq<char>, Value>, name: Seq<char>)
    ensures
        !before.contains_key(name) ==> before.remove(name) == before,
        before.remove(name).remove(name) == before.remove(name),
{
    assert(before.remove(name).remove(name) =~= before.remove(name));
    if !before.contains_key(name) {
        assert(before.remove(name) =~= before);
    }
}

} // verus!
