//! Equality over the logical sequence: two containers compare equal exactly
//! when they are well formed and hold element-wise equal sequences, never by
//! physical layout.

use vstd::prelude::*;
use vstd::std_specs::cmp::PartialEqSpec;

use crate::rows;
use crate::Igush;

verus! {

impl<T> Igush<T> {
    /// Decide the structural invariant at run time. Containers built
    /// through this crate's operations always satisfy it; the check lets
    /// total operations such as `==` be specified for every value.
    fn has_inv(&self) -> (r: bool)
        ensures
            r == self.inv(),
    {
        let w = self.row_width;
        if w == 0 {
            return false;
        }
        let n = self.backing.len();
        let ghost wi = w as int;
        let ghost ni = n as int;
        proof {
            rows::lemma_div_bound(ni, wi);
            if ni > 0 {
                rows::lemma_div_bound(ni - 1, wi);
                vstd::arithmetic::div_mod::lemma_div_is_ordered(ni - 1, ni, wi);
            }
        }
        let quo = n / w;
        if !(self.splits.len() >= 1 && self.splits.len() - 1 == quo) {
            return false;
        }
        let mut r: usize = 0;
        let rows_count = self.splits.len();
        while r < rows_count
            invariant
                r <= rows_count,
                rows_count == self.splits@.len(),
                w == self.row_width,
                forall|q: int| 0 <= q < r ==> (self.splits@[q] as int) < w as int,
            decreases rows_count - r,
        {
            if self.splits[r] >= w {
                return false;
            }
            r = r + 1;
        }
        if n > 0 && self.splits[(n - 1) / w] != 0 {
            return false;
        }
        if n % w == 0 && self.splits[quo] != 0 {
            return false;
        }
        true
    }
}

impl<T: PartialEq> PartialEq for Igush<T> {
    /// Element-wise comparison of the logical sequences.
    fn eq(&self, other: &Igush<T>) -> (r: bool) {
        if !self.has_inv() || !other.has_inv() {
            return false;
        }
        if self.len() != other.len() {
            return false;
        }
        let n = self.len();
        let mut i: usize = 0;
        while i < n
            invariant
                self.inv(),
                other.inv(),
                i <= n,
                n == self@.len(),
                n == other@.len(),
                <T as PartialEqSpec>::obeys_eq_spec() ==> forall|k: int|
                    0 <= k < i ==> self@[k].eq_spec(&other@[k]),
            decreases n - i,
        {
            let a = match self.get(i) {
                Some(e) => e,
                None => {
                    return false;
                },
            };
            let b = match other.get(i) {
                Some(e) => e,
                None => {
                    return false;
                },
            };
            if !a.eq(b) {
                return false;
            }
            i = i + 1;
        }
        true
    }
}

impl<T: PartialEq> vstd::std_specs::cmp::PartialEqSpecImpl for Igush<T> {
    open spec fn obeys_eq_spec() -> bool {
        T::obeys_eq_spec()
    }

    /// Both containers are well formed and hold element-wise equal
    /// sequences.
    open spec fn eq_spec(&self, other: &Igush<T>) -> bool {
        &&& self.inv()
        &&& other.inv()
        &&& self@.len() == other@.len()
        &&& forall|k: int| 0 <= k < self@.len() ==> self@[k].eq_spec(&other@[k])
    }
}

} // verus!
