//! The mathematical model of the segmented layout: which physical slot of the
//! backing buffer each logical index resolves to, the logical sequence that a
//! buffer-plus-markers pair denotes, and the lemmas about that mapping.

use vstd::prelude::*;
use vstd::arithmetic::div_mod::{
    lemma_div_is_ordered, lemma_div_pos_is_pos, lemma_fundamental_div_mod,
    lemma_fundamental_div_mod_converse, lemma_mod_division_less_than_divisor,
};
use vstd::arithmetic::mul::lemma_mul_inequality;

use crate::util::col_shift;

verus! {

/// Physical position in the backing buffer of logical index `i`, for row
/// width `w` and the given split markers.
pub(crate) open spec fn phys_of(splits: Seq<usize>, w: int, i: int) -> int {
    let r = i / w;
    r * w + col_shift(splits[r] as int, i % w, w)
}

/// The logical sequence denoted by a backing buffer partitioned into rows of
/// width `w` with the given split markers.
pub(crate) open spec fn view_of<T>(backing: Seq<T>, splits: Seq<usize>, w: int) -> Seq<T> {
    Seq::new(backing.len(), |i: int| backing[phys_of(splits, w, i)])
}

/// Every split marker is a valid offset within a row.
pub(crate) open spec fn entries_lt(splits: Seq<usize>, w: int) -> bool {
    forall|r: int| 0 <= r < splits.len() ==> (splits[r] as int) < w
}

/// The split markers fully describe a buffer of `len` elements: exactly one
/// marker per row (counting the always-present, possibly empty last row),
/// each a valid offset, the row holding the last element left-aligned, and
/// the trailing empty row (when the length is a row multiple) left-aligned.
pub(crate) open spec fn splits_ok(len: int, splits: Seq<usize>, w: int) -> bool {
    &&& w >= 1
    &&& splits.len() == len / w + 1
    &&& entries_lt(splits, w)
    &&& len > 0 ==> splits[(len - 1) / w] == 0
    &&& len % w == 0 ==> splits[len / w] == 0
}

/// Division facts for decomposing a logical index into row and column.
pub(crate) proof fn lemma_div_bound(i: int, w: int)
    requires
        w >= 1,
        0 <= i,
    ensures
        0 <= i / w,
        (i / w) * w <= i < (i / w) * w + w,
        i % w == i - (i / w) * w,
        0 <= i % w < w,
{
    lemma_fundamental_div_mod(i, w);
    lemma_mod_division_less_than_divisor(i, w);
    lemma_div_pos_is_pos(i, w);
    assert((i / w) * w == w * (i / w)) by (nonlinear_arith);
}

/// An index within the block of row `r` has row number `r` and column equal
/// to its offset in the block.
pub(crate) proof fn lemma_row_of(i: int, r: int, w: int)
    requires
        w >= 1,
        0 <= r,
        r * w <= i < r * w + w,
    ensures
        i / w == r,
        i % w == i - r * w,
{
    lemma_fundamental_div_mod_converse(i, w, r, i - r * w);
}

/// Blocks of distinct rows are disjoint.
pub(crate) proof fn lemma_block_disjoint(r1: int, r2: int, w: int)
    requires
        w >= 1,
        0 <= r1 < r2,
    ensures
        r1 * w + w <= r2 * w,
{
    lemma_mul_inequality(r1 + 1, r2, w);
    assert((r1 + 1) * w == r1 * w + w) by (nonlinear_arith);
}

/// The physical position of a logical index lies in the block of its row.
pub(crate) proof fn lemma_phys_in_row(splits: Seq<usize>, w: int, i: int)
    requires
        w >= 1,
        0 <= i,
        i / w < splits.len(),
        entries_lt(splits, w),
    ensures
        (i / w) * w <= phys_of(splits, w, i) < (i / w) * w + w,
{
    lemma_div_bound(i, w);
}

/// Under well-formed markers, every logical index of the buffer resolves to a
/// physical position inside the buffer.
pub(crate) proof fn lemma_phys_in_bounds(len: int, splits: Seq<usize>, w: int, i: int)
    requires
        splits_ok(len, splits, w),
        0 <= i < len,
    ensures
        0 <= phys_of(splits, w, i) < len,
        phys_of(splits, w, i) < splits.len() * w,
        0 <= i / w < splits.len(),
{
    let r = i / w;
    lemma_div_bound(i, w);
    lemma_div_bound(len - 1, w);
    lemma_div_is_ordered(i, len - 1, w);
    lemma_div_is_ordered(len - 1, len, w);
    assert(r <= (len - 1) / w);
    assert((len - 1) / w < splits.len());
    lemma_phys_in_row(splits, w, i);
    if r < (len - 1) / w {
        // a row strictly before the one holding the last element is full
        lemma_block_disjoint(r, (len - 1) / w, w);
        assert(((len - 1) / w) * w <= len - 1);
    } else {
        // i shares its row with the last element; that row is left-aligned
        assert(splits[r] == 0);
        assert(phys_of(splits, w, i) == i);
    }
    lemma_mul_inequality(r + 1, splits.len() as int, w);
    assert((r + 1) * w == r * w + w) by (nonlinear_arith);
}

/// The row mapping is injective: distinct logical indices resolve to distinct
/// physical positions.
pub(crate) proof fn lemma_phys_injective(splits: Seq<usize>, w: int, i: int, j: int)
    requires
        w >= 1,
        entries_lt(splits, w),
        0 <= i,
        0 <= j,
        i != j,
        i / w < splits.len(),
        j / w < splits.len(),
    ensures
        phys_of(splits, w, i) != phys_of(splits, w, j),
{
    lemma_div_bound(i, w);
    lemma_div_bound(j, w);
    lemma_phys_in_row(splits, w, i);
    lemma_phys_in_row(splits, w, j);
    if i / w < j / w {
        lemma_block_disjoint(i / w, j / w, w);
    } else if j / w < i / w {
        lemma_block_disjoint(j / w, i / w, w);
    } else {
        // same row, distinct columns: col_shift is injective in the column
        assert(i % w != j % w);
    }
}

/// Writing through the physical position of logical index `i` updates the
/// logical sequence at `i` and nowhere else.
pub(crate) proof fn lemma_view_update<T>(
    backing: Seq<T>,
    splits: Seq<usize>,
    w: int,
    i: int,
    x: T,
)
    requires
        w >= 1,
        entries_lt(splits, w),
        backing.len() <= splits.len() * w,
        forall|j: int| 0 <= j < backing.len() ==> 0 <= #[trigger] phys_of(splits, w, j) < backing.len(),
        0 <= i < backing.len(),
    ensures
        view_of(backing.update(phys_of(splits, w, i), x), splits, w) == view_of(
            backing,
            splits,
            w,
        ).update(i, x),
{
    let p = phys_of(splits, w, i);
    let v0 = view_of(backing, splits, w);
    let v1 = view_of(backing.update(p, x), splits, w);
    assert forall|j: int| 0 <= j < backing.len() implies v1[j] == v0.update(i, x)[j] by {
        lemma_row_in_range(backing.len() as int, splits, w, j);
        lemma_row_in_range(backing.len() as int, splits, w, i);
        if j != i {
            lemma_phys_injective(splits, w, i, j);
        }
    }
    assert(v1 =~= v0.update(i, x));
}

/// Every logical index of the buffer has its row among the markers.
pub(crate) proof fn lemma_row_in_range(len: int, splits: Seq<usize>, w: int, j: int)
    requires
        w >= 1,
        len <= splits.len() * w,
        0 <= j < len,
    ensures
        0 <= j / w < splits.len(),
{
    lemma_div_bound(j, w);
    if j / w >= splits.len() {
        lemma_mul_inequality(splits.len() as int, j / w, w);
    }
}

/// In-bounds resolution for the relaxed states that arise mid-operation: the
/// markers cover every element's row, and a non-left-aligned row holding the
/// last element is full.
pub(crate) proof fn lemma_phys_in_bounds_weak(len: int, splits: Seq<usize>, w: int, i: int)
    requires
        w >= 1,
        entries_lt(splits, w),
        len <= splits.len() * w,
        len > 0 && splits[(len - 1) / w] != 0 ==> len % w == 0,
        0 <= i < len,
    ensures
        0 <= phys_of(splits, w, i) < len,
{
    let r = i / w;
    let last = (len - 1) / w;
    lemma_div_bound(i, w);
    lemma_div_bound(len - 1, w);
    lemma_div_bound(len, w);
    lemma_div_is_ordered(i, len - 1, w);
    lemma_row_in_range(len, splits, w, i);
    lemma_phys_in_row(splits, w, i);
    if r < last {
        lemma_block_disjoint(r, last, w);
        assert(last * w <= len - 1);
    } else {
        assert(r == last);
        if splits[r] == 0 {
            assert(phys_of(splits, w, i) == i);
        } else {
            // the row is full: its block ends exactly at len
            assert(len % w == 0);
            let k = len / w;
            assert(len == k * w);
            assert(last * w + w == len) by (nonlinear_arith)
                requires
                    len == k * w,
                    last * w <= len - 1,
                    len - 1 < last * w + w,
                    w >= 1,
            ;
        }
    }
    assert(r * w >= 0) by (nonlinear_arith)
        requires
            r >= 0,
            w >= 1,
    ;
}

/// The relaxed states in which row bookkeeping may be renormalized: markers
/// cover every row holding elements, a still-split row holding the last
/// element is full, and fully empty rows are left-aligned.
pub(crate) open spec fn renorm_pre(len: int, splits: Seq<usize>, w: int) -> bool {
    &&& w >= 1
    &&& entries_lt(splits, w)
    &&& len <= splits.len() * w
    &&& (len > 0 && splits[(len - 1) / w] != 0 ==> len % w == 0)
    &&& (len % w == 0 && len / w < splits.len() ==> splits[len / w] == 0)
}

/// After appending one element at the start of the first non-full row's
/// block, the state may be renormalized: a boundary crossing only ever calls
/// for a marker the list does not yet have.
pub(crate) proof fn lemma_push_state(len: int, splits: Seq<usize>, w: int)
    requires
        w >= 1,
        len >= 0,
        entries_lt(splits, w),
        splits.len() == len / w + 1,
        splits[len / w] == 0,
    ensures
        renorm_pre(len + 1, splits, w),
{
    let k = len / w;
    lemma_div_bound(len, w);
    assert((k + 1) * w == k * w + w) by (nonlinear_arith);
    if (len + 1) % w == 0 {
        lemma_div_bound(len + 1, w);
        assert((len + 1) / w == k + 1) by (nonlinear_arith)
            requires
                len + 1 == ((len + 1) / w) * w + (len + 1) % w,
                (len + 1) % w == 0,
                k * w <= len < k * w + w,
                w >= 1,
                (len + 1) / w >= 0,
        ;
    }
}

/// After removing the last element of a well-formed state, a still-split row
/// now holding the last element can only come from crossing a row boundary,
/// and the markers still describe the shorter buffer.
pub(crate) proof fn lemma_pop_state(len: int, splits: Seq<usize>, w: int)
    requires
        splits_ok(len, splits, w),
        len > 0,
    ensures
        renorm_pre(len - 1, splits, w),
{
    lemma_div_bound(len, w);
    lemma_div_bound(len - 1, w);
    assert(splits.len() * w == (len / w) * w + w) by (nonlinear_arith)
        requires
            splits.len() == len / w + 1,
    ;
    if len - 1 > 0 && (len - 1) % w != 0 {
        lemma_row_of(len - 2, (len - 1) / w, w);
        assert(splits[(len - 2) / w] == 0);
    }
}

/// Two marker lists that agree on every row holding elements denote the same
/// logical sequence.
pub(crate) proof fn lemma_view_agree<T>(backing: Seq<T>, s1: Seq<usize>, s2: Seq<usize>, w: int)
    requires
        w >= 1,
        forall|r: int|
            0 <= r && #[trigger] (r * w) < backing.len() ==> r < s1.len() && r < s2.len()
                && s1[r] == s2[r],
    ensures
        view_of(backing, s1, w) == view_of(backing, s2, w),
{
    let v1 = view_of(backing, s1, w);
    let v2 = view_of(backing, s2, w);
    assert forall|i: int| 0 <= i < backing.len() implies v1[i] == v2[i] by {
        lemma_div_bound(i, w);
        assert((i / w) * w <= i < backing.len());
        assert(s1[i / w] == s2[i / w]);
    }
    assert(v1 =~= v2);
}

/// Appending to the buffer appends to the logical sequence: the slot just
/// past the end belongs to the left-aligned row holding (or about to hold)
/// the back of the container.
pub(crate) proof fn lemma_view_push<T>(backing: Seq<T>, splits: Seq<usize>, w: int, x: T)
    requires
        splits_ok(backing.len() as int, splits, w),
    ensures
        view_of(backing.push(x), splits, w) == view_of(backing, splits, w).push(x),
{
    let len = backing.len() as int;
    let v1 = view_of(backing.push(x), splits, w);
    let v2 = view_of(backing, splits, w).push(x);
    lemma_div_bound(len, w);
    assert forall|j: int| 0 <= j < len + 1 implies v1[j] == v2[j] by {
        if j < len {
            lemma_phys_in_bounds(len, splits, w, j);
        } else {
            // the appended element lands at the container's back
            lemma_div_bound(len, w);
            if len % w != 0 {
                lemma_row_of(len - 1, len / w, w);
                assert((len - 1) / w == len / w);
            }
            assert(splits[len / w] == 0);
            assert(phys_of(splits, w, len) == len);
        }
    }
    assert(v1 =~= v2);
}

/// Removing the last buffer element removes the last logical element.
pub(crate) proof fn lemma_view_pop<T>(backing: Seq<T>, splits: Seq<usize>, w: int)
    requires
        splits_ok(backing.len() as int, splits, w),
        backing.len() > 0,
    ensures
        view_of(backing, splits, w).last() == backing.last(),
        view_of(backing.drop_last(), splits, w) == view_of(backing, splits, w).drop_last(),
{
    let len = backing.len() as int;
    lemma_div_bound(len, w);
    lemma_div_bound(len - 1, w);
    lemma_div_is_ordered(len - 1, len, w);
    assert(splits[(len - 1) / w] == 0);
    assert(phys_of(splits, w, len - 1) == len - 1);
    let v1 = view_of(backing.drop_last(), splits, w);
    let v2 = view_of(backing, splits, w).drop_last();
    assert forall|j: int| 0 <= j < len - 1 implies v1[j] == v2[j] by {
        lemma_phys_in_bounds(len, splits, w, j);
        lemma_phys_injective(splits, w, j, len - 1);
    }
    assert(v1 =~= v2);
}

/// Left-aligning one full row (rotating its slice and zeroing its marker)
/// leaves the logical sequence unchanged.
pub(crate) proof fn lemma_linearize_row<T>(
    backing: Seq<T>,
    backing2: Seq<T>,
    splits: Seq<usize>,
    w: int,
    rr: int,
)
    requires
        w >= 1,
        entries_lt(splits, w),
        0 <= rr < splits.len(),
        (rr + 1) * w <= backing.len(),
        backing.len() <= splits.len() * w,
        backing.len() > 0 && splits[(backing.len() - 1) as int / w] != 0
            ==> backing.len() as int % w == 0,
        backing2.len() == backing.len(),
        forall|p: int|
            0 <= p < backing.len() && !(rr * w <= p < rr * w + w) ==> backing2[p] == backing[p],
        forall|q: int|
            0 <= q < w ==> #[trigger] backing2[rr * w + q] == backing[rr * w + col_shift(
                splits[rr] as int,
                q,
                w,
            )],
    ensures
        view_of(backing2, splits.update(rr, 0), w) == view_of(backing, splits, w),
{
    let s2 = splits.update(rr, 0usize);
    let v1 = view_of(backing2, s2, w);
    let v2 = view_of(backing, splits, w);
    assert forall|i: int| 0 <= i < backing.len() implies v1[i] == v2[i] by {
        let r = i / w;
        lemma_div_bound(i, w);
        lemma_row_in_range(backing.len() as int, splits, w, i);
        if r == rr {
            let c = i % w;
            assert(phys_of(s2, w, i) == rr * w + c);
            assert(backing2[rr * w + c] == backing[rr * w + col_shift(splits[rr] as int, c, w)]);
        } else {
            assert(s2[r] == splits[r]);
            lemma_phys_in_row(splits, w, i);
            lemma_phys_in_bounds_weak(backing.len() as int, splits, w, i);
            assert(rr * w + w == (rr + 1) * w && r * w >= 0) by (nonlinear_arith)
                requires
                    r >= 0,
                    w >= 1,
            ;
            if r > rr {
                lemma_block_disjoint(rr, r, w);
            } else {
                lemma_block_disjoint(r, rr, w);
            }
        }
    }
    assert(v1 =~= v2);
}

/// One step of the forward carry walk: swapping a value into the last
/// logical slot of full row `r` (physical slot `col_shift(s, w - 1, w)`) and
/// moving the row's split marker back by one shifts the row's logical
/// content one place toward the back, with the new value at its front.
pub(crate) proof fn lemma_row_update_front<T>(
    backing: Seq<T>,
    splits: Seq<usize>,
    w: int,
    r: int,
    x: T,
)
    requires
        w >= 1,
        entries_lt(splits, w),
        0 <= r < splits.len(),
        (r + 1) * w <= backing.len(),
        backing.len() <= splits.len() * w,
        w <= usize::MAX as int,
        backing.len() > 0 && splits[(backing.len() - 1) as int / w] != 0
            ==> backing.len() as int % w == 0,
    ensures
        ({
            let s = splits[r] as int;
            let b = col_shift(s, w - 1, w);
            let v0 = view_of(backing, splits, w);
            let v1 = view_of(backing.update(r * w + b, x), splits.update(r, b as usize), w);
            &&& 0 <= b < w
            &&& v1.len() == v0.len()
            &&& entries_lt(splits.update(r, b as usize), w)
            &&& forall|j: int|
                0 <= j < v0.len() && !(r * w <= j < r * w + w) ==> v1[j] == v0[j]
            &&& v1[r * w] == x
            &&& forall|j: int| r * w < j < r * w + w ==> v1[j] == v0[j - 1]
            &&& backing[r * w + b] == v0[r * w + w - 1]
        }),
{
    let s = splits[r] as int;
    let b = col_shift(s, w - 1, w);
    let splits2 = splits.update(r, b as usize);
    let backing2 = backing.update(r * w + b, x);
    let v0 = view_of(backing, splits, w);
    let v1 = view_of(backing2, splits2, w);
    assert(0 <= b < w);
    assert(r * w >= 0 && r * w + w == (r + 1) * w) by (nonlinear_arith)
        requires
            r >= 0,
            w >= 1,
    ;
    lemma_row_of(r * w + w - 1, r, w);
    assert(phys_of(splits, w, r * w + w - 1) == r * w + b);
    assert(backing[r * w + b] == v0[r * w + w - 1]);
    assert forall|j: int|
        0 <= j < backing.len() && !(r * w <= j < r * w + w) implies v1[j] == v0[j] by {
        let rj = j / w;
        lemma_div_bound(j, w);
        lemma_row_in_range(backing.len() as int, splits, w, j);
        assert(rj != r);
        assert(splits2[rj] == splits[rj]);
        lemma_phys_in_row(splits, w, j);
        lemma_phys_in_bounds_weak(backing.len() as int, splits, w, j);
        if rj < r {
            lemma_block_disjoint(rj, r, w);
        } else {
            lemma_block_disjoint(r, rj, w);
        }
        assert(rj * w >= 0) by (nonlinear_arith)
            requires
                rj >= 0,
                w >= 1,
        ;
    }
    assert forall|j: int| r * w <= j < r * w + w implies v1[j] == (if j == r * w {
        x
    } else {
        v0[j - 1]
    }) by {
        lemma_row_of(j, r, w);
        let c = j - r * w;
        assert(phys_of(splits2, w, j) == r * w + col_shift(b, c, w));
        if c == 0 {
            assert(col_shift(b, 0, w) == b);
        } else {
            assert(col_shift(b, c, w) != b);
            assert(col_shift(b, c, w) == col_shift(s, c - 1, w));
            lemma_row_of(j - 1, r, w);
            assert(phys_of(splits, w, j - 1) == r * w + col_shift(s, c - 1, w));
        }
    }
}

/// One step of the backward carry walk: swapping a value into the first
/// logical slot of full row `r` (physical slot `s`) and moving the row's
/// split marker forward by one shifts the row's logical content one place
/// toward the front, with the new value at its back.
pub(crate) proof fn lemma_row_update_back<T>(
    backing: Seq<T>,
    splits: Seq<usize>,
    w: int,
    r: int,
    x: T,
)
    requires
        w >= 1,
        entries_lt(splits, w),
        0 <= r < splits.len(),
        (r + 1) * w <= backing.len(),
        backing.len() <= splits.len() * w,
        w <= usize::MAX as int,
        backing.len() > 0 && splits[(backing.len() - 1) as int / w] != 0
            ==> backing.len() as int % w == 0,
    ensures
        ({
            let s = splits[r] as int;
            let s2 = col_shift(s, 1, w);
            let v0 = view_of(backing, splits, w);
            let v1 = view_of(backing.update(r * w + s, x), splits.update(r, s2 as usize), w);
            &&& 0 <= s2 < w
            &&& v1.len() == v0.len()
            &&& entries_lt(splits.update(r, s2 as usize), w)
            &&& forall|j: int|
                0 <= j < v0.len() && !(r * w <= j < r * w + w) ==> v1[j] == v0[j]
            &&& v1[r * w + w - 1] == x
            &&& forall|j: int| r * w <= j < r * w + w - 1 ==> v1[j] == v0[j + 1]
            &&& backing[r * w + s] == v0[r * w]
        }),
{
    let s = splits[r] as int;
    let s2 = col_shift(s, 1, w);
    let splits2 = splits.update(r, s2 as usize);
    let backing2 = backing.update(r * w + s, x);
    let v0 = view_of(backing, splits, w);
    let v1 = view_of(backing2, splits2, w);
    assert(0 <= s2 < w);
    assert(r * w >= 0 && r * w + w == (r + 1) * w) by (nonlinear_arith)
        requires
            r >= 0,
            w >= 1,
    ;
    lemma_row_of(r * w, r, w);
    assert(phys_of(splits, w, r * w) == r * w + s);
    assert(backing[r * w + s] == v0[r * w]);
    assert forall|j: int|
        0 <= j < backing.len() && !(r * w <= j < r * w + w) implies v1[j] == v0[j] by {
        let rj = j / w;
        lemma_div_bound(j, w);
        lemma_row_in_range(backing.len() as int, splits, w, j);
        assert(rj != r);
        assert(splits2[rj] == splits[rj]);
        lemma_phys_in_row(splits, w, j);
        lemma_phys_in_bounds_weak(backing.len() as int, splits, w, j);
        if rj < r {
            lemma_block_disjoint(rj, r, w);
        } else {
            lemma_block_disjoint(r, rj, w);
        }
        assert(rj * w >= 0) by (nonlinear_arith)
            requires
                rj >= 0,
                w >= 1,
        ;
    }
    assert forall|j: int| r * w <= j < r * w + w implies v1[j] == (if j == r * w + w - 1 {
        x
    } else {
        v0[j + 1]
    }) by {
        lemma_row_of(j, r, w);
        let c = j - r * w;
        assert(phys_of(splits2, w, j) == r * w + col_shift(s2, c, w));
        if c == w - 1 {
            assert(col_shift(s2, w - 1, w) == s);
        } else {
            assert(col_shift(s2, c, w) != s);
            assert(col_shift(s2, c, w) == col_shift(s, c + 1, w));
            lemma_row_of(j + 1, r, w);
            assert(phys_of(splits, w, j + 1) == r * w + col_shift(s, c + 1, w));
        }
    }
}

/// The trailing, left-aligned region of the buffer starts at the block of
/// the first non-full row; inserting anywhere in that region inserts into
/// the logical sequence at the same position.
pub(crate) proof fn lemma_view_insert_tail<T>(
    backing: Seq<T>,
    splits: Seq<usize>,
    w: int,
    q: int,
    x: T,
)
    requires
        w >= 1,
        entries_lt(splits, w),
        splits.len() == backing.len() as int / w + 1,
        splits[backing.len() as int / w] == 0,
        (backing.len() as int / w) * w <= q <= backing.len(),
    ensures
        view_of(backing.insert(q, x), splits, w) == view_of(backing, splits, w).insert(q, x),
{
    let len = backing.len() as int;
    let k = len / w;
    let p = k * w;
    lemma_div_bound(len, w);
    let b1 = backing.insert(q, x);
    let v1 = view_of(b1, splits, w);
    let v2 = view_of(backing, splits, w).insert(q, x);
    assert(v1.len() == v2.len());
    assert forall|j: int| 0 <= j < len + 1 implies v1[j] == v2[j] by {
        lemma_div_bound(j, w);
        let rj = j / w;
        if j < p {
            // rows below the insertion point are full and unaffected
            assert(k >= 1 && (k - 1) * w + w == p) by (nonlinear_arith)
                requires
                    p == k * w,
                    p > 0,
                    w >= 1,
                    k >= 0,
            ;
            lemma_div_is_ordered(j, p - 1, w);
            lemma_row_of(p - 1, k - 1, w);
            assert(rj <= k - 1);
            lemma_phys_in_row(splits, w, j);
            if rj < k - 1 {
                lemma_block_disjoint(rj, k - 1, w);
            }
            assert(rj * w + w <= p);
            assert(phys_of(splits, w, j) < p);
            assert(rj * w >= 0) by (nonlinear_arith)
                requires
                    rj >= 0,
                    w >= 1,
            ;
        } else {
            // the trailing region is left-aligned both before and after
            lemma_row_of(j, k, w);
            assert(phys_of(splits, w, j) == j);
            if j > q {
                lemma_row_of(j - 1, k, w);
                assert(phys_of(splits, w, j - 1) == j - 1);
            }
        }
    }
    assert(v1 =~= v2);
}

/// The trailing, left-aligned region of the buffer starts at the block of
/// the last non-empty row; removing a physical element there removes the
/// logical index at the same position.
pub(crate) proof fn lemma_view_remove_tail<T>(backing: Seq<T>, splits: Seq<usize>, w: int, q: int)
    requires
        w >= 1,
        entries_lt(splits, w),
        backing.len() > 0,
        backing.len() <= splits.len() * w,
        splits[(backing.len() - 1) as int / w] == 0,
        ((backing.len() - 1) as int / w) * w <= q < backing.len(),
    ensures
        view_of(backing.remove(q), splits, w) == view_of(backing, splits, w).remove(q),
{
    let len = backing.len() as int;
    let k = (len - 1) / w;
    let p = k * w;
    lemma_div_bound(len - 1, w);
    let b1 = backing.remove(q);
    let v1 = view_of(b1, splits, w);
    let v2 = view_of(backing, splits, w).remove(q);
    assert(v1.len() == v2.len());
    assert forall|j: int| 0 <= j < len - 1 implies v1[j] == v2[j] by {
        lemma_div_bound(j, w);
        let rj = j / w;
        lemma_row_in_range(len, splits, w, j);
        if j < p {
            // rows below the removal point are full and unaffected
            assert(k >= 1 && (k - 1) * w + w == p) by (nonlinear_arith)
                requires
                    p == k * w,
                    p > 0,
                    w >= 1,
                    k >= 0,
            ;
            lemma_div_is_ordered(j, p - 1, w);
            lemma_row_of(p - 1, k - 1, w);
            assert(rj <= k - 1);
            lemma_phys_in_row(splits, w, j);
            if rj < k - 1 {
                lemma_block_disjoint(rj, k - 1, w);
            }
            assert(rj * w + w <= p);
            assert(phys_of(splits, w, j) < p);
            assert(rj * w >= 0) by (nonlinear_arith)
                requires
                    rj >= 0,
                    w >= 1,
            ;
        } else {
            // the trailing region is left-aligned both before and after
            lemma_row_of(j, k, w);
            assert(phys_of(splits, w, j) == j);
            if j >= q {
                lemma_row_of(j + 1, k, w);
                assert(phys_of(splits, w, j + 1) == j + 1);
            }
        }
    }
    assert(v1 =~= v2);
}

/// In a well-formed state the marker of the first non-full row is zero.
pub(crate) proof fn lemma_back_marker_zero(len: int, splits: Seq<usize>, w: int)
    requires
        splits_ok(len, splits, w),
        len >= 0,
    ensures
        splits[len / w] == 0,
{
    lemma_div_bound(len, w);
    if len % w != 0 {
        lemma_row_of(len - 1, len / w, w);
    }
}

/// With all markers zero, the logical sequence is the backing buffer itself.
pub(crate) proof fn lemma_view_identity<T>(backing: Seq<T>, splits: Seq<usize>, w: int)
    requires
        w >= 1,
        backing.len() <= splits.len() * w,
        forall|r: int| 0 <= r < splits.len() ==> splits[r] == 0,
    ensures
        view_of(backing, splits, w) == backing,
{
    let v = view_of(backing, splits, w);
    assert forall|j: int| 0 <= j < backing.len() implies v[j] == backing[j] by {
        lemma_row_in_range(backing.len() as int, splits, w, j);
        lemma_div_bound(j, w);
    }
    assert(v =~= backing);
}

} // verus!
