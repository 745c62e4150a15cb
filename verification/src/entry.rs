//! The record type of the snippet store.

use vstd::prelude::*;

verus! {

/// One record of the store: a `name` mapped to a stored text `value`.
pub struct Entry {
    pub name: String,
    pub value: String,
}

impl View for Entry {
    type V = (Seq<char>, Seq<char>);

    open spec fn view(&self) -> (Seq<char>, Seq<char>) {
        (self.name@, self.value@)
    }
}

impl Clone for Entry {
    fn clone(&self) -> (r: Self)
        ensures
            r == *self,
    {
        Entry { name: self.name.clone(), value: self.value.clone() }
    }
}

impl Entry {
    pub fn new(name: &str, value: &str) -> (e: Entry)
        ensures
            e@ == (name@, value@),
    {
        Entry { name: name.to_owned(), value: value.to_owned() }
    }
}

} // verus!
