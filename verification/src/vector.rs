//! The vector value type.

use vstd::prelude::*;

verus! {

/// A vector in n-dimensional space.
///
/// Each component is an IEEE 754 single-precision value carried as its
/// 32-bit pattern.  The library never performs arithmetic on the
/// components — that is the distance kernel's task — so two vectors are
/// the same exactly when their bit patterns are.
#[derive(Debug, Clone)]
pub struct Vector {
    data: Vec<u32>,
}

impl View for Vector {
    type V = Seq<u32>;

    closed spec fn view(&self) -> Seq<u32> {
        self.data@
    }
}

impl Vector {
    /// Create a new vector from raw component bit patterns.
    pub fn new(data: Vec<u32>) -> (v: Vector)
        ensures
            v@ == data@,
    {
        Vector { data }
    }

    /// The dimension of the vector.
    pub fn dimension(&self) -> (d: usize)
        ensures
            d == self@.len(),
    {
        self.data.len()
    }

    /// The component bit patterns.
    pub fn as_slice(&self) -> (s: &[u32])
        ensures
            s@ == self@,
    {
        self.data.as_slice()
    }

    /// The component at position `i`.
    pub fn component(&self, i: usize) -> (c: u32)
        requires
            i < self@.len(),
        ensures
            c == self@[i as int],
    {
        self.data[i]
    }

    /// Whether this vector has the same dimension as another.
    pub fn has_same_dimension(&self, other: &Vector) -> (r: bool)
        ensures
            r == (self@.len() == other@.len()),
    {
        self.data.len() == other.data.len()
    }

    /// A copy of the component bit patterns.
    pub fn to_data(&self) -> (d: Vec<u32>)
        ensures
            d@ == self@,
    {
        let mut d: Vec<u32> = Vec::new();
        let mut i: usize = 0;
        while i < self.data.len()
            invariant
                i <= self.data.len(),
                d@ == self.data@.subrange(0, i as int),
            decreases self.data.len() - i,
        {
            d.push(self.data[i]);
            i = i + 1;
        }
        assert(d@ =~= self.data@);
        d
    }

    /// A copy of this vector.
    pub fn duplicate(&self) -> (v: Vector)
        ensures
            v@ == self@,
    {
        Vector { data: self.to_data() }
    }
}

impl PartialEq for Vector {
    fn eq(&self, other: &Self) -> (r: bool) {
        let my_len = self.data.len();
        if my_len != other.data.len() {
            return false;
        }
        let mut i: usize = 0;
        while i < my_len
            invariant
                i <= my_len,
                my_len == self.data@.len(),
                my_len == other.data@.len(),
                forall|j: int| 0 <= j < i ==> self.data@[j] == other.data@[j],
            decreases my_len - i,
        {
            if self.data[i] != other.data[i] {
                return false;
            }
            i = i + 1;
        }
        assert(self@ =~= other@);
        true
    }
}

impl vstd::std_specs::cmp::PartialEqSpecImpl for Vector {
    open spec fn obeys_eq_spec() -> bool {
        true
    }

    open spec fn eq_spec(&self, other: &Self) -> bool {
        self@ == other@
    }
}

impl Eq for Vector {}

} // verus!
