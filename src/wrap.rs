use vstd::prelude::*;

verus! {

/// Marks a collection that travels as a sequence of forks, one per element.
pub struct Iterator<T>(pub T);

impl<T> Iterator<T> {
    pub fn new(item: T) -> (r: Iterator<T>)
        ensures
            r.0 == item,
    {
        Iterator(item)
    }
}

/// Marks a value that travels as a single serialized item.
pub struct Serde<T>(pub T);

impl<T> Serde<T> {
    pub fn new(item: T) -> (r: Serde<T>)
        ensures
            r.0 == item,
    {
        Serde(item)
    }
}

} // verus!
