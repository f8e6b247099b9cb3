//! A truth value of four bytes.

use vstd::prelude::*;

verus! {

/// A truth value that takes four bytes: zero is false, anything else true.
#[derive(Clone, Copy, Debug)]
pub struct Bool {
    pub value: u32,
}

impl Bool {
    /// The truth value that the four bytes stand for.
    pub open spec fn truth(&self) -> bool {
        self.value != 0
    }

    pub fn bool(&self) -> (out: bool)
        ensures
            out == self.truth(),
    {
        self.value != 0
    }
}

impl core::ops::Not for Bool {
    type Output = Bool;

    /// Turns zero into one and everything else into zero.
    fn not(self) -> (out: Bool) {
        Bool { value: if self.value == 0 { 1 } else { 0 } }
    }
}

impl vstd::std_specs::ops::NotSpecImpl for Bool {
    open spec fn obeys_not_spec() -> bool {
        true
    }

    open spec fn not_req(self) -> bool {
        true
    }

    open spec fn not_spec(self) -> Bool {
        Bool { value: if self.value == 0 { 1u32 } else { 0u32 } }
    }
}

impl From<bool> for Bool {
    fn from(b: bool) -> (out: Bool) {
        Bool { value: if b { 1 } else { 0 } }
    }
}

impl vstd::std_specs::convert::FromSpecImpl<bool> for Bool {
    open spec fn obeys_from_spec() -> bool {
        true
    }

    open spec fn from_spec(b: bool) -> Bool {
        Bool { value: if b { 1u32 } else { 0u32 } }
    }
}

impl From<Bool> for bool {
    fn from(b: Bool) -> (out: bool) {
        b.value != 0
    }
}

impl vstd::std_specs::convert::FromSpecImpl<Bool> for bool {
    open spec fn obeys_from_spec() -> bool {
        true
    }

    open spec fn from_spec(b: Bool) -> bool {
        b.value != 0
    }
}

impl From<Bool> for u32 {
    fn from(b: Bool) -> (out: u32) {
        b.value
    }
}

impl vstd::std_specs::convert::FromSpecImpl<Bool> for u32 {
    open spec fn obeys_from_spec() -> bool {
        true
    }

    open spec fn from_spec(b: Bool) -> u32 {
        b.value
    }
}

} // verus!
