//! Address handles.
//!
//! A [`Pointer`] carries one raw address. It is never copied behind the
//! caller's back: a second handle to the same address comes only from an
//! explicit `clone`.

use core::cmp::Ordering;
use vstd::prelude::*;
use vstd::std_specs::cmp::PartialEqSpecImpl;
use vstd::std_specs::cmp::PartialOrdSpecImpl;

verus! {

/// An alignment in bytes. Zero is no alignment: nothing is a multiple of it.
pub type Align = usize;

/// An owned raw address.
#[derive(Debug)]
pub struct Pointer {
    addr: usize,
}

/// How two addresses compare.
pub open spec fn order_of(a: usize, b: usize) -> Ordering {
    if a < b {
        Ordering::Less
    } else if a == b {
        Ordering::Equal
    } else {
        Ordering::Greater
    }
}

impl View for Pointer {
    type V = usize;

    closed spec fn view(&self) -> usize {
        self.addr
    }
}

impl Pointer {
    /// A handle to the address `addr`.
    pub fn new(addr: usize) -> (ptr: Pointer)
        ensures
            ptr@ == addr,
    {
        Pointer { addr }
    }

    /// The raw address.
    pub fn get(&self) -> (addr: usize)
        ensures
            addr == self@,
    {
        self.addr
    }

    /// The handle `diff` bytes further on (or back, where `diff` is negative).
    pub fn offset(self, diff: isize) -> (ptr: Pointer)
        requires
            0 <= self@ + diff <= usize::MAX,
        ensures
            ptr@ == self@ + diff,
    {
        if diff >= 0 {
            let forth: usize = diff as usize;
            Pointer { addr: self.addr + forth }
        } else {
            let back: usize = (-(diff + 1)) as usize;
            Pointer { addr: self.addr - 1 - back }
        }
    }

    /// Is the address a multiple of `align`?
    pub fn aligned_to(&self, align: Align) -> (aligned: bool)
        requires
            align > 0,
        ensures
            aligned == (self@ % align == 0),
    {
        self.addr % align == 0
    }
}

impl Clone for Pointer {
    fn clone(&self) -> (ptr: Pointer)
        ensures
            ptr == *self,
    {
        Pointer { addr: self.addr }
    }
}

impl PartialEq for Pointer {
    fn eq(&self, other: &Pointer) -> (equal: bool) {
        self.addr == other.addr
    }
}

impl PartialEqSpecImpl for Pointer {
    open spec fn obeys_eq_spec() -> bool {
        true
    }

    open spec fn eq_spec(&self, other: &Pointer) -> bool {
        self@ == other@
    }
}

impl Eq for Pointer {

}

impl PartialOrd for Pointer {
    fn partial_cmp(&self, other: &Pointer) -> (order: Option<Ordering>) {
        if self.addr < other.addr {
            Some(Ordering::Less)
        } else if self.addr == other.addr {
            Some(Ordering::Equal)
        } else {
            Some(Ordering::Greater)
        }
    }
}

impl PartialOrdSpecImpl for Pointer {
    open spec fn obeys_partial_cmp_spec() -> bool {
        true
    }

    open spec fn partial_cmp_spec(&self, other: &Pointer) -> Option<Ordering> {
        Some(order_of(self@, other@))
    }
}

} // verus!
