use vstd::prelude::*;

use core::marker::PhantomData;

use crate::value::AttributeValue;

verus! {

/// A named, typed key for reading and writing one value on a container.
///
/// The type parameter fixes at each call site which type the attribute holds;
/// two attributes are equal, and hash alike, when their names are.
#[derive(Hash)]
pub struct Attribute<T> {
    name: String,
    phantom: PhantomData<T>,
}

impl<T> View for Attribute<T> {
    type V = Seq<char>;

    /// The attribute's name.
    closed spec fn view(&self) -> Seq<char> {
        self.name@
    }
}

impl<T: AttributeValue> Attribute<T> {
    /// Create a new attribute with the given name.
    pub fn new(name: &str) -> (r: Attribute<T>)
        ensures
            r@ == name@,
    {
        Attribute { name: name.to_owned(), phantom: PhantomData }
    }

    /// The name of this attribute.
    pub fn get_name(&self) -> (r: &str)
        ensures
            r@ == self@,
    {
        self.name.as_str()
    }

    /// The name of this attribute, the key under which containers store it.
    pub fn key(&self) -> (r: &str)
        ensures
            r@ == self@,
    {
        self.get_name()
    }

    /// The name as stored.
    pub(crate) fn name_ref(&self) -> (r: &String)
        ensures
            r@ == self@,
    {
        &self.name
    }

    /// An owned copy of the name.
    pub(crate) fn name_string(&self) -> (r: String)
        ensures
            r@ == self@,
    {
        self.name.clone()
    }
}

impl<T> PartialEq for Attribute<T> {
    fn eq(&self, other: &Attribute<T>) -> (r: bool)
        ensures
            r == (self@ == other@),
    {
        self.name == other.name
    }
}

impl<T> vstd::std_specs::cmp::PartialEqSpecImpl for Attribute<T> {
    open spec fn obeys_eq_spec() -> bool {
        true
    }

    open spec fn eq_spec(&self, other: &Attribute<T>) -> bool {
        self@ == other@
    }
}

} // verus!
