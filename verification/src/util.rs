//! Row arithmetic: stateless helpers for splitting indices, wrapping offsets
//! around a fixed-width ring, and rotating a ring back into left-aligned form.

use vstd::prelude::*;
use vstd::arithmetic::div_mod::{lemma_mod_add_multiples_vanish, lemma_small_mod};

verus! {

/// Physical slot that logical column `c` occupies in a ring of `w` slots whose
/// split marker is `s`: the value of `(s + c) % w` when `0 <= s < w` and
/// `0 <= c < w`, written without modulus.
pub open spec fn col_shift(s: int, c: int, w: int) -> int {
    if s + c < w {
        s + c
    } else {
        s + c - w
    }
}

/// For in-range split and column, the modulus that `wrap_add` computes is
/// the branching form `col_shift`.
pub(crate) proof fn lemma_col_shift_mod(s: int, c: int, w: int)
    requires
        w >= 1,
        0 <= s < w,
        0 <= c <= w,
    ensures
        (s + c) % w == col_shift(s, c, w),
{
    if s + c < w {
        lemma_small_mod((s + c) as nat, w as nat);
    } else {
        lemma_mod_add_multiples_vanish(s + c - w, w);
        lemma_small_mod((s + c - w) as nat, w as nat);
    }
}

/// Stepping one slot backward from the split lands on the physical slot of
/// the row's last logical column.
pub(crate) proof fn lemma_col_shift_back(s: int, w: int)
    requires
        w >= 1,
        0 <= s < w,
    ensures
        (s - 1) % w == col_shift(s, w - 1, w),
{
    if s == 0 {
        lemma_mod_add_multiples_vanish(-1, w);
        lemma_small_mod((w - 1) as nat, w as nat);
    } else {
        lemma_small_mod((s - 1) as nat, w as nat);
    }
}

/// Simultaneous truncated integer division and modulus.
/// Returns `(quotient, remainder)`.
pub fn div_rem(dividend: usize, divisor: usize) -> (r: (usize, usize))
    requires
        divisor > 0,
    ensures
        r.0 == dividend as int / divisor as int,
        r.1 == dividend as int % divisor as int,
{
    (dividend / divisor, dividend % divisor)
}

/// Wrap around at the end of a row: `(split + other) % length`, where `other`
/// may be negative (a backward step wraps to the other end of the row).
pub fn wrap_add(length: usize, split: usize, other: isize) -> (r: usize)
    requires
        0 < length,
        split < length,
        (isize::MIN as int) < other as int,
        -(split as int) - (length as int) <= other as int,
        split as int + other as int <= usize::MAX as int,
    ensures
        r == (split as int + other as int) % (length as int),
        r < length,
{
    if other < 0 {
        let k = (-other) as usize;
        if k > split {
            proof {
                lemma_mod_add_multiples_vanish(
                    split as int + other as int,
                    length as int,
                );
                lemma_small_mod((split + length - k) as nat, length as nat);
            }
            length - (k - split)
        } else {
            proof {
                lemma_small_mod((split - k) as nat, length as nat);
            }
            split - k
        }
    } else {
        let k = other as usize;
        proof {
            lemma_small_mod(((split + k) as int % length as int) as nat, length as nat);
        }
        (split + k) % length
    }
}

/// Physical slot of logical column `c` in a row of width `w` with split `s`,
/// computed without overflow: equals `(s + c) % w`.
pub(crate) fn wrap_col(w: usize, s: usize, c: usize) -> (r: usize)
    requires
        s < w,
        c < w,
    ensures
        r == col_shift(s as int, c as int, w as int),
        r < w,
{
    if c < w - s {
        s + c
    } else {
        s - (w - c)
    }
}

/// Relies on `Vec::capacity`: a vector's capacity is at least its length.
#[verifier::external_body]
pub(crate) fn vec_capacity<T>(v: &Vec<T>) -> (r: usize)
    ensures
        r >= v@.len(),
{
    v.capacity()
}

/// Relies on `Vec::reserve_exact`: reserving capacity does not change the
/// vector's contents.
#[verifier::external_body]
pub(crate) fn vec_reserve_exact<T>(v: &mut Vec<T>, additional: usize)
    ensures
        final(v)@ == old(v)@,
{
    v.reserve_exact(additional)
}

/// Relies on `Vec::shrink_to_fit`: shrinking capacity does not change the
/// vector's contents.
#[verifier::external_body]
pub(crate) fn vec_shrink_to_fit<T>(v: &mut Vec<T>)
    ensures
        final(v)@ == old(v)@,
{
    v.shrink_to_fit()
}

/// Overwrite one entry of a vector.
pub(crate) fn set_entry(v: &mut Vec<usize>, i: usize, x: usize)
    requires
        i < old(v)@.len(),
    ensures
        final(v)@ == old(v)@.update(i as int, x),
{
    let entry = &mut v[i];
    *entry = x;
}

/// Rotate the range `[lo, hi)` of `v` left by one position.
pub(crate) fn rotate_one_left<T>(v: &mut Vec<T>, lo: usize, hi: usize)
    requires
        lo < hi,
        hi <= old(v)@.len(),
    ensures
        final(v)@.len() == old(v)@.len(),
        forall|p: int| 0 <= p < old(v)@.len() && !(lo <= p < hi) ==> final(v)@[p] == old(v)@[p],
        forall|p: int| lo <= p < hi - 1 ==> final(v)@[p] == old(v)@[p + 1],
        final(v)@[hi - 1] == old(v)@[lo as int],
{
    let x = v.remove(lo);
    v.insert(hi - 1, x);
}

/// Rotate the range `[lo, hi)` of `v` right by one position.
pub(crate) fn rotate_one_right<T>(v: &mut Vec<T>, lo: usize, hi: usize)
    requires
        lo < hi,
        hi <= old(v)@.len(),
    ensures
        final(v)@.len() == old(v)@.len(),
        forall|p: int| 0 <= p < old(v)@.len() && !(lo <= p < hi) ==> final(v)@[p] == old(v)@[p],
        forall|p: int| lo < p < hi ==> final(v)@[p] == old(v)@[p - 1],
        final(v)@[lo as int] == old(v)@[hi - 1],
{
    let x = v.remove(hi - 1);
    v.insert(lo, x);
}

/// Re-order the range `[lo, hi)` of `v`, a row stored as a ring with the given
/// split, so that it becomes left-aligned (as if its split were now zero).
/// Rotates by the shorter of the two directions.
pub fn make_contiguous<T>(v: &mut Vec<T>, lo: usize, hi: usize, split: usize)
    requires
        lo <= hi,
        hi <= old(v)@.len(),
        0 < split < hi - lo,
    ensures
        final(v)@.len() == old(v)@.len(),
        forall|p: int| 0 <= p < old(v)@.len() && !(lo <= p < hi) ==> final(v)@[p] == old(v)@[p],
        forall|q: int|
            0 <= q < hi - lo ==> #[trigger] final(v)@[lo + q] == old(v)@[lo + col_shift(
                split as int,
                q,
                (hi - lo) as int,
            )],
{
    let len: usize = hi - lo;
    let ghost w = len as int;
    let tail_len: usize = len - split;
    if tail_len <= split {
        // rotating right by the tail is cheaper
        let mut it: usize = 0;
        while it < tail_len
            invariant
                it <= tail_len,
                tail_len == len - split,
                0 < split < len,
                len == hi - lo,
                lo < hi <= v@.len(),
                v@.len() == old(v)@.len(),
                w == len as int,
                forall|p: int| 0 <= p < old(v)@.len() && !(lo <= p < hi) ==> v@[p] == old(v)@[p],
                forall|q: int|
                    0 <= q < w ==> #[trigger] v@[lo + q] == old(v)@[lo + col_shift(w - it, q, w)],
            decreases tail_len - it,
        {
            let ghost prev = v@;
            rotate_one_right(v, lo, hi);
            proof {
                assert forall|q: int| 0 <= q < w implies #[trigger] v@[lo + q] == old(v)@[lo
                    + col_shift(w - (it + 1), q, w)] by {
                    if q > 0 {
                        assert(v@[lo + q] == prev[lo + q - 1]);
                        assert(prev[lo + (q - 1)] == old(v)@[lo + col_shift(w - it, q - 1, w)]);
                        assert(col_shift(w - it, q - 1, w) == col_shift(w - (it + 1), q, w));
                    } else {
                        assert(v@[lo as int] == prev[hi - 1]);
                        assert(prev[lo + (w - 1)] == old(v)@[lo + col_shift(w - it, w - 1, w)]);
                        assert(col_shift(w - it, w - 1, w) == col_shift(w - (it + 1), 0, w));
                    }
                }
            }
            it = it + 1;
        }
        proof {
            assert forall|q: int| 0 <= q < w implies #[trigger] v@[lo + q] == old(v)@[lo
                + col_shift(split as int, q, w)] by {
                assert(col_shift(w - tail_len, q, w) == col_shift(split as int, q, w));
            }
        }
    } else {
        // rotating left by the head is cheaper
        let mut it: usize = 0;
        while it < split
            invariant
                it <= split,
                0 < split < len,
                len == hi - lo,
                lo < hi <= v@.len(),
                v@.len() == old(v)@.len(),
                w == len as int,
                forall|p: int| 0 <= p < old(v)@.len() && !(lo <= p < hi) ==> v@[p] == old(v)@[p],
                forall|q: int|
                    0 <= q < w ==> #[trigger] v@[lo + q] == old(v)@[lo + col_shift(
                        it as int,
                        q,
                        w,
                    )],
            decreases split - it,
        {
            let ghost prev = v@;
            rotate_one_left(v, lo, hi);
            proof {
                assert forall|q: int| 0 <= q < w implies #[trigger] v@[lo + q] == old(v)@[lo
                    + col_shift(it + 1, q, w)] by {
                    if q < w - 1 {
                        assert(v@[lo + q] == prev[lo + q + 1]);
                        assert(prev[lo + (q + 1)] == old(v)@[lo + col_shift(it as int, q + 1, w)]);
                        assert(col_shift(it as int, q + 1, w) == col_shift(it + 1, q, w));
                    } else {
                        assert(v@[lo + (w - 1)] == prev[lo as int]);
                        assert(prev[lo + 0] == old(v)@[lo + col_shift(it as int, 0, w)]);
                        assert(col_shift(it as int, 0, w) == col_shift(it + 1, w - 1, w));
                    }
                }
            }
            it = it + 1;
        }
    }
}

} // verus!
