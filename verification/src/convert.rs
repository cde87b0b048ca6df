//! Conversions between flat vectors and the segmented container: building a
//! container around an existing buffer (all markers zero) and linearizing a
//! container back into its buffer.

use vstd::prelude::*;

use crate::rows;
use crate::Igush;

verus! {

/// Row width used when none is supplied and the container is small.
pub const DEFAULT_WIDTH: usize = 32;

/// The non-negative integer square root: the largest `r` with `r * r <= n`.
pub open spec fn sqrt_floor(n: int) -> int {
    choose|r: int| 0 <= r && #[trigger] (r * r) <= n < (r + 1) * (r + 1)
}

/// Relies on `integer_sqrt::IntegerSquareRoot::integer_sqrt` for `usize`:
/// it returns the integer square root (the largest `r` with `r * r <= n`),
/// and never panics for an unsigned argument.
#[verifier::external_body]
fn isqrt(n: usize) -> (r: usize)
    ensures
        r * r <= n < (r + 1) * (r + 1),
{
    integer_sqrt::IntegerSquareRoot::integer_sqrt(&n)
}

/// The square root is determined by its defining inequalities.
proof fn lemma_sqrt_floor_unique(n: int, r: int)
    requires
        0 <= r,
        r * r <= n < (r + 1) * (r + 1),
    ensures
        sqrt_floor(n) == r,
{
    let w = choose|w: int| 0 <= w && #[trigger] (w * w) <= n < (w + 1) * (w + 1);
    assert(0 <= r && r * r <= n < (r + 1) * (r + 1));
    assert(w == r) by (nonlinear_arith)
        requires
            0 <= r,
            0 <= w,
            r * r <= n < (r + 1) * (r + 1),
            w * w <= n < (w + 1) * (w + 1),
    ;
}

/// The row width chosen for a buffer of `len` elements when the caller does
/// not supply one: the integer square root of the length, but at least
/// `DEFAULT_WIDTH`.
pub open spec fn auto_width(len: int) -> int {
    if sqrt_floor(len) > DEFAULT_WIDTH as int {
        sqrt_floor(len)
    } else {
        DEFAULT_WIDTH as int
    }
}

impl<T> Igush<T> {
    /// Build a container directly around a flat buffer: the buffer becomes
    /// the backing storage with every split marker zero, and the row width
    /// is chosen as roughly the square root of the length.
    pub fn from_vec(other: Vec<T>) -> (r: Self)
        ensures
            r.inv(),
            r@ == other@,
            r.width() == auto_width(other@.len() as int),
    {
        let len = other.len();
        let sq = isqrt(len);
        proof {
            lemma_sqrt_floor_unique(len as int, sq as int);
        }
        let row_width = if sq > DEFAULT_WIDTH {
            sq
        } else {
            DEFAULT_WIDTH
        };
        Igush::with_rows_zeroed(other, row_width)
    }

    /// Wrap a flat buffer with the given row width; every marker is zero.
    fn with_rows_zeroed(other: Vec<T>, row_width: usize) -> (r: Self)
        requires
            row_width > 0,
        ensures
            r.inv(),
            r@ == other@,
            r.width() == row_width,
    {
        let ghost wi = row_width as int;
        let ghost n = other@.len() as int;
        // always at least one row
        let quo = other.len() / row_width;
        let mut splits: Vec<usize> = Vec::new();
        while splits.len() <= quo
            invariant
                splits@.len() <= quo + 1,
                forall|q: int| 0 <= q < splits@.len() ==> splits@[q] == 0,
            decreases quo + 1 - splits@.len(),
        {
            splits.push(0);
        }
        let r = Igush { backing: other, splits, row_width };
        proof {
            rows::lemma_div_bound(n, wi);
            if n > 0 {
                rows::lemma_div_bound(n - 1, wi);
                vstd::arithmetic::div_mod::lemma_div_is_ordered(n - 1, n, wi);
            }
            assert((n / wi + 1) * wi == (n / wi) * wi + wi) by (nonlinear_arith);
            rows::lemma_view_identity(r.backing@, r.splits@, wi);
        }
        r
    }

    /// Turn the container into a flat vector holding the logical sequence:
    /// the backing buffer itself, once every row has been left-aligned.
    pub fn into_vec(self) -> (r: Vec<T>)
        requires
            self.inv(),
        ensures
            r@ == self@,
    {
        let mut this = self;
        this.make_contiguous();
        proof {
            rows::lemma_div_bound(this.backing@.len() as int, this.row_width as int);
            assert((this.backing@.len() as int / this.row_width as int + 1) * this.row_width as int
                == (this.backing@.len() as int / this.row_width as int) * this.row_width as int
                + this.row_width as int) by (nonlinear_arith);
            rows::lemma_view_identity(this.backing@, this.splits@, this.row_width as int);
        }
        this.backing
    }
}

impl<T> From<Vec<T>> for Igush<T> {
    /// Turn a `Vec<T>` into an `Igush<T>`.
    ///
    /// Automatically chooses the row width as roughly the square root of
    /// the length. This never needs to reallocate.
    fn from(other: Vec<T>) -> (r: Self)
        ensures
            r.inv(),
            r@ == other@,
            r.width() == auto_width(other@.len() as int),
    {
        Igush::from_vec(other)
    }
}

impl<T> vstd::std_specs::convert::FromSpecImpl<Vec<T>> for Igush<T> {
    open spec fn obeys_from_spec() -> bool {
        false
    }

    open spec fn from_spec(v: Vec<T>) -> Igush<T> {
        vstd::pervasive::arbitrary()
    }
}

impl<'a, T: Clone> From<&'a [T]> for Igush<T> {
    /// Creates an `Igush<T>` from a slice, cloning its elements.
    ///
    /// Automatically chooses the row width as roughly the square root of
    /// the length.
    fn from(other: &[T]) -> (r: Self)
        ensures
            r.inv(),
            r@.len() == other@.len(),
            forall|k: int|
                0 <= k < other@.len() ==> vstd::pervasive::cloned::<T>(other@[k], r@[k]),
    {
        let n = other.len();
        let mut buffer: Vec<T> = Vec::new();
        let mut i: usize = 0;
        while i < n
            invariant
                i <= n,
                n == other@.len(),
                buffer@.len() == i as int,
                forall|k: int|
                    0 <= k < i ==> vstd::pervasive::cloned::<T>(other@[k], buffer@[k]),
            decreases n - i,
        {
            let x = other[i].clone();
            buffer.push(x);
            i = i + 1;
        }
        Igush::from_vec(buffer)
    }
}

impl<'a, T: Clone> vstd::std_specs::convert::FromSpecImpl<&'a [T]> for Igush<T> {
    open spec fn obeys_from_spec() -> bool {
        false
    }

    open spec fn from_spec(v: &'a [T]) -> Igush<T> {
        vstd::pervasive::arbitrary()
    }
}

} // verus!
