use vstd::prelude::*;

verus! {

/// A numeric base, used to write numbers as digit strings.
pub struct Radix {
    value: u128,
}

impl View for Radix {
    type V = nat;

    closed spec fn view(&self) -> nat {
        self.value as nat
    }
}

impl Radix {
    /// A radix of the given base.
    pub fn new(value: u128) -> (r: Self)
        ensures
            r@ == value,
    {
        Radix { value }
    }

    /// The base.
    pub fn get(&self) -> (r: u128)
        ensures
            r == self@,
    {
        self.value
    }
}

} // verus!
