use vstd::prelude::*;

verus! {

/// Views into a raw buffer: two integers and a string.
pub struct Test {
    pub raw: Vec<u8>,
    pub u1: &'static u64,
    pub s: &'static str,
    pub u2: &'static u64,
}

impl Test {
    pub fn u1(&self) -> (r: &u64)
        ensures
            *r == *self.u1,
    {
        &self.u1
    }

    pub fn s(&self) -> (r: &str)
        ensures
            r@ == self.s@,
    {
        &self.s
    }

    pub fn u2(&self) -> (r: &u64)
        ensures
            *r == *self.u2,
    {
        &self.u2
    }
}

} // verus!
