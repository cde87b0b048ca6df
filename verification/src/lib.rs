//! Array with `O(sqrt(N))` arbitrary insertion and deletion, `O(1)` insertion
//! and deletion at the end of the container, and `O(1)` indexed access.
//!
//! A single contiguous backing buffer is partitioned into fixed-width rows;
//! each row is treated as a small ring buffer with its own split marker, and
//! the last row is always kept left-aligned so that operations at the back of
//! the container work directly on the end of the buffer.

use vstd::prelude::*;

pub mod util;
mod compat;
mod convert;
mod eq;
mod laws;
mod rows;
mod surface;

pub use compat::VecCompat;
pub use laws::{lemma_agrees_with_model, lemma_insert_at_len_is_push, lemma_invariants, lemma_round_trip};

pub use convert::{auto_width, sqrt_floor, DEFAULT_WIDTH};

use rows::{entries_lt, phys_of, splits_ok, view_of};

verus! {

/// Array with constant-time access and fast insertion and deletion.
/// A compromise in performance between a flat array and a linked list.
#[derive(Clone)]
pub struct Igush<T> {
    /// backing storage of the structure
    pub(crate) backing: Vec<T>,
    /// where each row is split between head and tail
    pub(crate) splits: Vec<usize>,
    /// width of each row
    pub(crate) row_width: usize,
}

impl<T> View for Igush<T> {
    type V = Seq<T>;

    /// The logical sequence held by the container.
    closed spec fn view(&self) -> Seq<T> {
        view_of(self.backing@, self.splits@, self.row_width as int)
    }
}

impl<T> Igush<T> {
    /// The structural invariant: a positive row width, one split marker per
    /// row (counting the always-present, possibly empty last row), every
    /// marker a valid in-row offset, and the row holding the last element
    /// (as well as the trailing empty row) left-aligned.
    pub closed spec fn inv(&self) -> bool {
        splits_ok(self.backing@.len() as int, self.splits@, self.row_width as int)
    }

    /// The row width the container was constructed with.
    pub closed spec fn width(&self) -> int {
        self.row_width as int
    }

    /// Creates an empty `Igush` with `row_width` elements per row.
    ///
    /// It is recommended to set the `row_width` to approximately `sqrt(N)`
    /// where `N` is the number of elements in the array.
    pub fn new(row_width: usize) -> (r: Self)
        requires
            row_width > 0,
        ensures
            r.inv(),
            r@ == Seq::<T>::empty(),
            r.width() == row_width,
    {
        let mut splits: Vec<usize> = Vec::new();
        splits.push(0);
        let r = Igush { backing: Vec::new(), splits, row_width };
        proof {
            assert(r@ =~= Seq::<T>::empty());
        }
        r
    }

    /// Creates an empty `Igush` with space for at least `capacity` elements.
    ///
    /// It is recommended to set the `row_width` to approximately `sqrt(N)`
    /// where `N` is the number of elements in the array.
    pub fn with_capacity(row_width: usize, capacity: usize) -> (r: Self)
        requires
            row_width > 0,
        ensures
            r.inv(),
            r@ == Seq::<T>::empty(),
            r.width() == row_width,
    {
        // always at least one row
        let quo: usize = capacity / row_width;
        let rows: usize = if quo < usize::MAX {
            quo + 1
        } else {
            quo
        };
        let mut splits: Vec<usize> = Vec::with_capacity(rows);
        splits.push(0);

        let r = Igush { backing: Vec::with_capacity(capacity), splits, row_width };
        proof {
            assert(r@ =~= Seq::<T>::empty());
        }
        r
    }

    /// Returns the number of elements in the `Igush`.
    pub fn len(&self) -> (r: usize)
        ensures
            r == self@.len(),
    {
        self.backing.len()
    }

    /// Returns `true` if the `Igush` is empty.
    pub fn is_empty(&self) -> (r: bool)
        ensures
            r <==> self@.len() == 0,
    {
        self.len() == 0
    }

    /// first non-full row index
    fn back_row(&self) -> (r: usize)
        requires
            self.inv(),
        ensures
            r == self.backing@.len() as int / self.row_width as int,
    {
        self.backing.len() / self.row_width
    }

    /// last non-empty row index
    fn last_row(&self) -> (r: Option<usize>)
        requires
            self.inv(),
        ensures
            self@.len() == 0 ==> r.is_none(),
            self@.len() > 0 ==> r == Some(
                (((self.backing@.len() - 1) as int / self.row_width as int) as usize),
            ),
    {
        if self.is_empty() {
            return None;
        }

        let (quo, rem) = util::div_rem(self.backing.len(), self.row_width);
        let ghost n = self.backing@.len() as int;
        let ghost w = self.row_width as int;
        proof {
            rows::lemma_div_bound(n, w);
            rows::lemma_div_bound(n - 1, w);
            if rem == 0 {
                assert(n == (n / w) * w);
                assert(quo >= 1 && (quo - 1) * w == n - w) by (nonlinear_arith)
                    requires
                        n == quo * w,
                        n > 0,
                        w >= 1,
                        quo >= 0,
                ;
                rows::lemma_row_of(n - 1, quo - 1, w);
            } else {
                rows::lemma_row_of(n - 1, quo as int, w);
            }
        }
        if rem == 0 {
            Some(quo - 1)
        } else {
            Some(quo)
        }
    }

    /// calculate the real index in `backing` for a given index
    fn real_index(&self, index: usize) -> (r: usize)
        requires
            self.inv(),
            index < self@.len(),
        ensures
            r == phys_of(self.splits@, self.row_width as int, index as int),
            r < self.backing@.len(),
            self.backing@[r as int] == self@[index as int],
    {
        let n = self.backing.len();
        let ghost w = self.row_width as int;
        proof {
            assert(n == self.backing@.len());
            rows::lemma_div_bound(index as int, w);
            rows::lemma_phys_in_bounds(
                self.backing@.len() as int,
                self.splits@,
                w,
                index as int,
            );
            assert((index as int / w) * w <= index as int);
        }
        let (target_row, target_col) = util::div_rem(index, self.row_width);
        let real_col = util::wrap_col(self.row_width, self.splits[target_row], target_col);
        proof {
            assert(target_row as int * w + real_col as int == phys_of(
                self.splits@,
                w,
                index as int,
            ));
        }
        (target_row * self.row_width) + real_col
    }

    /// Retrieves an element in the `Igush` mutably by index.
    ///
    /// Element at index 0 is the front of the array.
    pub fn get_mut(&mut self, index: usize) -> (r: Option<&mut T>)
        requires
            old(self).inv(),
        ensures
            final(self).inv(),
            final(self).width() == old(self).width(),
            index >= old(self)@.len() ==> r.is_none() && final(self)@ == old(self)@,
            index < old(self)@.len() ==> r.is_some() && *r.unwrap() == old(self)@[index as int]
                && final(self)@ == old(self)@.update(index as int, *final(r.unwrap())),
    {
        if index >= self.len() {
            return None;
        }

        let i = self.real_index(index);
        let ghost pb = self.backing@;
        let ghost ps = self.splits@;
        let ghost wi = self.row_width as int;
        let ghost n = self.backing@.len() as int;
        proof {
            rows::lemma_div_bound(n, wi);
            assert((n / wi + 1) * wi == (n / wi) * wi + wi) by (nonlinear_arith);
            assert forall|j: int| 0 <= j < n implies 0 <= #[trigger] phys_of(ps, wi, j)
                < n by {
                rows::lemma_phys_in_bounds(n, ps, wi, j);
            }
        }
        let element = &mut self.backing[i];
        proof {
            rows::lemma_view_update(pb, ps, wi, index as int, *final(element));
        }
        Some(element)
    }

    /// Provides a reference to the front element, or `None` if the `Igush`
    /// is empty.
    pub fn front(&self) -> (r: Option<&T>)
        requires
            self.inv(),
        ensures
            self@.len() == 0 ==> r.is_none(),
            self@.len() > 0 ==> r == Some(&self@[0]),
    {
        self.get(0)
    }

    /// Provides a mutable reference to the front element, or `None` if the
    /// `Igush` is empty.
    pub fn front_mut(&mut self) -> (r: Option<&mut T>)
        requires
            old(self).inv(),
        ensures
            final(self).inv(),
            final(self).width() == old(self).width(),
            old(self)@.len() == 0 ==> r.is_none() && final(self)@ == old(self)@,
            old(self)@.len() > 0 ==> r.is_some() && *r.unwrap() == old(self)@[0]
                && final(self)@ == old(self)@.update(0, *final(r.unwrap())),
    {
        self.get_mut(0)
    }

    /// Provides a reference to the back element, or `None` if the `Igush`
    /// is empty.
    pub fn back(&self) -> (r: Option<&T>)
        requires
            self.inv(),
        ensures
            self@.len() == 0 ==> r.is_none(),
            self@.len() > 0 ==> r == Some(&self@.last()),
    {
        if self.is_empty() {
            return None;
        }
        let i = self.len() - 1;
        self.get(i)
    }

    /// Provides a mutable reference to the back element, or `None` if the
    /// `Igush` is empty.
    pub fn back_mut(&mut self) -> (r: Option<&mut T>)
        requires
            old(self).inv(),
        ensures
            final(self).inv(),
            final(self).width() == old(self).width(),
            old(self)@.len() == 0 ==> r.is_none() && final(self)@ == old(self)@,
            old(self)@.len() > 0 ==> r.is_some() && *r.unwrap() == old(self)@.last()
                && final(self)@ == old(self)@.update(old(self)@.len() - 1, *final(r.unwrap())),
    {
        if self.is_empty() {
            return None;
        }
        let i = self.len() - 1;
        self.get_mut(i)
    }

    /// Swaps elements at indices `i` and `j`. `i` and `j` may be equal.
    ///
    /// Element at index 0 is the front of the array. Both indices must be in
    /// bounds.
    pub fn swap(&mut self, i: usize, j: usize)
        requires
            old(self).inv(),
            i < old(self)@.len(),
            j < old(self)@.len(),
        ensures
            final(self).inv(),
            final(self).width() == old(self).width(),
            final(self)@ == old(self)@.update(i as int, old(self)@[j as int]).update(
                j as int,
                old(self)@[i as int],
            ),
    {
        let ghost pb = self.backing@;
        let ghost ps = self.splits@;
        let ghost wi = self.row_width as int;
        let ghost n = self.backing@.len() as int;
        let ghost v0 = self@;
        proof {
            rows::lemma_div_bound(n, wi);
            assert((n / wi + 1) * wi == (n / wi) * wi + wi) by (nonlinear_arith);
            rows::lemma_phys_in_bounds(n, ps, wi, i as int);
            rows::lemma_phys_in_bounds(n, ps, wi, j as int);
            assert forall|k: int| 0 <= k < n implies 0 <= #[trigger] phys_of(ps, wi, k)
                < n by {
                rows::lemma_phys_in_bounds(n, ps, wi, k);
            }
        }
        if i == j {
            proof {
                assert(v0.update(i as int, v0[j as int]).update(j as int, v0[i as int]) =~= v0);
            }
            return ;
        }

        let real_i = self.real_index(i);
        let real_j = self.real_index(j);
        proof {
            rows::lemma_phys_injective(ps, wi, i as int, j as int);
        }
        // move the later element out, swap it with the earlier one, and
        // put the earlier one back where the later sat
        let (a, b) = if real_i < real_j {
            (real_i, real_j)
        } else {
            (real_j, real_i)
        };
        let xb = self.backing.remove(b);
        let xa = self.backing.remove(a);
        self.backing.insert(a, xb);
        self.backing.insert(b, xa);
        proof {
            assert(self.backing@ =~= pb.update(real_i as int, pb[real_j as int]).update(
                real_j as int,
                pb[real_i as int],
            ));
            let v1 = view_of(self.backing@, ps, wi);
            let v2 = v0.update(i as int, v0[j as int]).update(j as int, v0[i as int]);
            assert forall|k: int| 0 <= k < n implies v1[k] == v2[k] by {
                rows::lemma_phys_in_bounds(n, ps, wi, k);
                if k != i && k != j {
                    rows::lemma_phys_injective(ps, wi, k, i as int);
                    rows::lemma_phys_injective(ps, wi, k, j as int);
                }
            }
            assert(v1 =~= v2);
        }
    }

    /// Remove or add trailing split markers so that there is exactly one per
    /// row again, then re-align the row holding the last element if a
    /// boundary crossing left it split. Invoked as the postlude of every
    /// size-changing operation.
    fn correct_splits(&mut self)
        requires
            rows::renorm_pre(
                old(self).backing@.len() as int,
                old(self).splits@,
                old(self).row_width as int,
            ),
        ensures
            final(self).row_width == old(self).row_width,
            final(self).backing@.len() == old(self).backing@.len(),
            final(self).inv(),
            final(self)@ == view_of(
                old(self).backing@,
                old(self).splits@,
                old(self).row_width as int,
            ),
    {
        let w = self.row_width;
        let n = self.backing.len();
        let ghost orig_backing = self.backing@;
        let ghost orig = self.splits@;
        let ghost wi = w as int;
        let ghost ni = n as int;
        let quo: usize = n / w;
        proof {
            rows::lemma_div_bound(ni, wi);
            assert((quo + 1) * wi == quo * wi + wi) by (nonlinear_arith);
        }
        // grow: one marker per row, newly created rows start left-aligned
        while self.splits.len() <= quo
            invariant
                self.backing@ == orig_backing,
                self.row_width == w,
                quo == ni / wi,
                wi == w as int,
                ni == orig_backing.len(),
                self.splits@.len() >= orig.len(),
                forall|r: int|
                    0 <= r < self.splits@.len() ==> #[trigger] self.splits@[r] == (if r
                        < orig.len() {
                        orig[r]
                    } else {
                        0usize
                    }),
            decreases quo + 1 - self.splits@.len(),
        {
            self.splits.push(0);
        }
        // shrink: a dropped marker belongs to a row past the buffer's end
        while self.splits.len() - 1 > quo
            invariant
                self.backing@ == orig_backing,
                self.row_width == w,
                quo == ni / wi,
                wi == w as int,
                ni == orig_backing.len(),
                self.splits@.len() >= quo + 1,
                forall|r: int|
                    0 <= r < self.splits@.len() ==> #[trigger] self.splits@[r] == (if r
                        < orig.len() {
                        orig[r]
                    } else {
                        0usize
                    }),
            decreases self.splits@.len(),
        {
            self.splits.pop();
        }
        assert(self.splits@.len() == quo + 1);
        let ghost mid = self.splits@;
        proof {
            // the trimmed list still reads the same logical sequence
            assert forall|r: int| 0 <= r && #[trigger] (r * wi) < ni implies r < orig.len() && r
                < mid.len() && orig[r] == mid[r] by {
                rows::lemma_row_of(r * wi, r, wi);
                vstd::arithmetic::div_mod::lemma_div_is_ordered(r * wi, ni - 1, wi);
                vstd::arithmetic::div_mod::lemma_div_is_ordered(ni - 1, ni, wi);
                rows::lemma_row_in_range(ni, orig, wi, r * wi);
            }
            rows::lemma_view_agree(orig_backing, orig, mid, wi);
        }
        if n > 0 {
            let last: usize = (n - 1) / w;
            proof {
                rows::lemma_div_bound(ni - 1, wi);
                vstd::arithmetic::div_mod::lemma_div_is_ordered(ni - 1, ni, wi);
                rows::lemma_row_in_range(ni, orig, wi, ni - 1);
            }
            let split = self.splits[last];
            if split != 0 {
                proof {
                    assert(mid[last as int] == orig[last as int]);
                    assert(ni % wi == 0);
                    let ghost la = last as int;
                    assert(ni == quo * wi);
                    assert(la * wi + wi == ni && (la + 1) * wi == ni) by (nonlinear_arith)
                        requires
                            ni == quo * wi,
                            la * wi <= ni - 1,
                            ni - 1 < la * wi + wi,
                            wi >= 1,
                            ni > 0,
                            la >= 0,
                    ;
                    assert(ni <= mid.len() * wi);
                }
                util::make_contiguous(&mut self.backing, last * w, last * w + w, split);
                util::set_entry(&mut self.splits, last, 0);
                proof {
                    rows::lemma_linearize_row(orig_backing, self.backing@, mid, wi, last as int);
                    if ni % wi == 0 {
                        assert(last as int + 1 == quo) by (nonlinear_arith)
                            requires
                                (last as int + 1) * wi == ni,
                                ni == (ni / wi) * wi,
                                quo == ni / wi,
                                wi >= 1,
                        ;
                    }
                }
            }
        }
    }

    /// Appends an element to the back of the `Igush`.
    pub fn push_back(&mut self, element: T)
        requires
            old(self).inv(),
        ensures
            final(self).inv(),
            final(self).width() == old(self).width(),
            final(self)@ == old(self)@.push(element),
    {
        proof {
            rows::lemma_view_push(self.backing@, self.splits@, self.row_width as int, element);
            rows::lemma_back_marker_zero(
                self.backing@.len() as int,
                self.splits@,
                self.row_width as int,
            );
            rows::lemma_push_state(
                self.backing@.len() as int,
                self.splits@,
                self.row_width as int,
            );
        }
        // the last row is always kept contiguous,
        // so pushing is just pushing to the Vec
        self.backing.push(element);

        self.correct_splits();
    }

    /// Removes the last element from the `Igush` and returns it, or `None` if
    /// it is empty.
    pub fn pop_back(&mut self) -> (r: Option<T>)
        requires
            old(self).inv(),
        ensures
            final(self).inv(),
            final(self).width() == old(self).width(),
            old(self)@.len() > 0 ==> r == Some(old(self)@.last()) && final(self)@ == old(
                self,
            )@.drop_last(),
            old(self)@.len() == 0 ==> r.is_none() && final(self)@ == old(self)@,
    {
        proof {
            if self.backing@.len() > 0 {
                rows::lemma_view_pop(self.backing@, self.splits@, self.row_width as int);
                rows::lemma_pop_state(
                    self.backing@.len() as int,
                    self.splits@,
                    self.row_width as int,
                );
            }
        }
        // the last row is always kept contiguous,
        // so popping is just popping from the Vec
        let element = self.backing.pop();
        self.correct_splits();

        element
    }

    /// Insert `element` at column `c` of the full row `r`, displacing the
    /// row's last logical element, which is returned as the carry. The new
    /// element is swapped into the row's last logical slot and then rotated
    /// into position: when the columns from `c` on occupy one contiguous
    /// physical range, that range rotates right with the split unchanged;
    /// otherwise the columns before `c` shift left and the split moves back
    /// by one.
    #[verifier::rlimit(50)]
    fn row_insert(&mut self, r: usize, c: usize, element: T) -> (carry: T)
        requires
            old(self).row_width >= 1,
            entries_lt(old(self).splits@, old(self).row_width as int),
            c < old(self).row_width,
            (r + 1) as int * old(self).row_width as int <= old(self).backing@.len(),
            r < old(self).splits@.len(),
            old(self).backing@.len() <= old(self).splits@.len() * old(self).row_width,
            old(self).backing@.len() > 0 && old(self).splits@[(old(self).backing@.len()
                - 1) as int / old(self).row_width as int] != 0 ==> old(self).backing@.len() as int
                % old(self).row_width as int == 0,
        ensures
            final(self).row_width == old(self).row_width,
            final(self).backing@.len() == old(self).backing@.len(),
            final(self).splits@.len() == old(self).splits@.len(),
            entries_lt(final(self).splits@, old(self).row_width as int),
            forall|q: int|
                0 <= q < final(self).splits@.len() && q != r ==> final(self).splits@[q] == old(
                    self,
                ).splits@[q],
            ({
                let w = old(self).row_width as int;
                let v0 = view_of(old(self).backing@, old(self).splits@, w);
                let v1 = view_of(final(self).backing@, final(self).splits@, w);
                let lo = r as int * w;
                &&& carry == v0[lo + w - 1]
                &&& (forall|j: int| 0 <= j < v0.len() && !(lo <= j < lo + w) ==> v1[j] == v0[j])
                &&& (forall|j: int| lo <= j < lo + c ==> v1[j] == v0[j])
                &&& v1[lo + c] == element
                &&& (forall|j: int| lo + c < j < lo + w ==> v1[j] == v0[j - 1])
            }),
    {
        let w = self.row_width;
        let total = self.backing.len();
        let ghost wi = w as int;
        let ghost n = old(self).backing@.len() as int;
        let ghost pb = old(self).backing@;
        let ghost ps = old(self).splits@;
        let ghost v0 = view_of(pb, ps, wi);
        let ghost lo = r as int * wi;
        proof {
            assert(lo >= 0 && lo + wi == (r + 1) as int * wi) by (nonlinear_arith)
                requires
                    r as int >= 0,
                    wi >= 1,
                    lo == r as int * wi,
            ;
            assert forall|j: int| 0 <= j < n implies 0 <= #[trigger] phys_of(ps, wi, j)
                < n by {
                rows::lemma_phys_in_bounds_weak(n, ps, wi, j);
            }
        }
        let s = self.splits[r];
        let b = util::wrap_col(w, s, w - 1);
        let mut temp = element;
        core::mem::swap(&mut self.backing[r * w + b], &mut temp);
        // `temp` now holds the row's last logical element and the new
        // element sits where that element was
        let ghost b1 = self.backing@;
        let ghost vm = view_of(b1, ps, wi);
        proof {
            rows::lemma_row_of(lo + wi - 1, r as int, wi);
            assert(phys_of(ps, wi, lo + wi - 1) == lo + b);
            rows::lemma_view_update(pb, ps, wi, lo + wi - 1, element);
            assert(b1 == pb.update(lo + b, element));
            assert(vm == v0.update(lo + wi - 1, element));
            assert(temp == v0[lo + wi - 1]);
        }
        let a = util::wrap_col(w, s, c);
        if a <= b {
            // the columns from `c` on sit in the contiguous range [a, b]
            util::rotate_one_right(&mut self.backing, r * w + a, r * w + b + 1);
            proof {
                let v1 = view_of(self.backing@, self.splits@, wi);
                assert forall|j: int| 0 <= j < n implies v1[j] == (if j < lo || j >= lo + wi {
                    v0[j]
                } else if j < lo + c {
                    v0[j]
                } else if j == lo + c {
                    element
                } else {
                    v0[j - 1]
                }) by {
                    rows::lemma_div_bound(j, wi);
                    let rj = j / wi;
                    rows::lemma_row_in_range(n, ps, wi, j);
                    rows::lemma_phys_in_row(ps, wi, j);
                    if rj != r as int {
                        if rj < r as int {
                            rows::lemma_block_disjoint(rj, r as int, wi);
                        } else {
                            rows::lemma_block_disjoint(r as int, rj, wi);
                        }
                        assert(rj * wi >= 0) by (nonlinear_arith)
                            requires
                                rj >= 0,
                                wi >= 1,
                        ;
                        assert(v1[j] == vm[j]);
                        assert(vm[j] == v0[j]);
                    } else {
                        rows::lemma_row_of(j, r as int, wi);
                        let cc = j - lo;
                        if cc < c {
                            assert(v1[j] == b1[lo + util::col_shift(s as int, cc, wi)]);
                        } else if cc == c {
                            assert(v1[j] == b1[lo + b]);
                        } else {
                            assert(v1[j] == b1[lo + util::col_shift(s as int, cc - 1, wi)]);
                            rows::lemma_row_of(j - 1, r as int, wi);
                        }
                    }
                }
            }
        } else {
            // the columns before `c` wrap: shift them left and move the
            // split marker back by one
            util::rotate_one_left(&mut self.backing, r * w + (s - 1), r * w + s + c);
            util::set_entry(&mut self.splits, r, s - 1);
            proof {
                let v1 = view_of(self.backing@, self.splits@, wi);
                assert forall|j: int| 0 <= j < n implies v1[j] == (if j < lo || j >= lo + wi {
                    v0[j]
                } else if j < lo + c {
                    v0[j]
                } else if j == lo + c {
                    element
                } else {
                    v0[j - 1]
                }) by {
                    rows::lemma_div_bound(j, wi);
                    let rj = j / wi;
                    rows::lemma_row_in_range(n, ps, wi, j);
                    rows::lemma_phys_in_row(ps, wi, j);
                    if rj != r as int {
                        if rj < r as int {
                            rows::lemma_block_disjoint(rj, r as int, wi);
                        } else {
                            rows::lemma_block_disjoint(r as int, rj, wi);
                        }
                        assert(rj * wi >= 0) by (nonlinear_arith)
                            requires
                                rj >= 0,
                                wi >= 1,
                        ;
                        assert(v1[j] == vm[j]);
                        assert(vm[j] == v0[j]);
                    } else {
                        rows::lemma_row_of(j, r as int, wi);
                        let cc = j - lo;
                        if cc < c {
                            assert(v1[j] == b1[lo + util::col_shift(s as int, cc, wi)]);
                        } else if cc == c {
                            assert(v1[j] == b1[lo + (s - 1)]);
                        } else {
                            assert(v1[j] == b1[lo + util::col_shift(s as int, cc - 1, wi)]);
                            rows::lemma_row_of(j - 1, r as int, wi);
                        }
                    }
                }
            }
        }
        temp
    }

    /// Remove the element at column `c` of the full row `r`, appending the
    /// carried value `value` as the row's new last logical element, and
    /// return the removed element. The carry is swapped into the removal
    /// slot and then rotated into position: when the columns from `c` on
    /// occupy one contiguous physical range, that range rotates left with
    /// the split unchanged; otherwise the columns before `c` shift right and
    /// the split moves forward by one.
    #[verifier::rlimit(50)]
    fn row_remove(&mut self, r: usize, c: usize, value: T) -> (out: T)
        requires
            old(self).row_width >= 1,
            entries_lt(old(self).splits@, old(self).row_width as int),
            c < old(self).row_width,
            (r + 1) as int * old(self).row_width as int <= old(self).backing@.len(),
            r < old(self).splits@.len(),
            old(self).backing@.len() <= old(self).splits@.len() * old(self).row_width,
            old(self).backing@.len() > 0 && old(self).splits@[(old(self).backing@.len()
                - 1) as int / old(self).row_width as int] != 0 ==> old(self).backing@.len() as int
                % old(self).row_width as int == 0,
        ensures
            final(self).row_width == old(self).row_width,
            final(self).backing@.len() == old(self).backing@.len(),
            final(self).splits@.len() == old(self).splits@.len(),
            entries_lt(final(self).splits@, old(self).row_width as int),
            forall|q: int|
                0 <= q < final(self).splits@.len() && q != r ==> final(self).splits@[q] == old(
                    self,
                ).splits@[q],
            ({
                let w = old(self).row_width as int;
                let v0 = view_of(old(self).backing@, old(self).splits@, w);
                let v1 = view_of(final(self).backing@, final(self).splits@, w);
                let lo = r as int * w;
                &&& out == v0[lo + c]
                &&& (forall|j: int| 0 <= j < v0.len() && !(lo <= j < lo + w) ==> v1[j] == v0[j])
                &&& (forall|j: int| lo <= j < lo + c ==> v1[j] == v0[j])
                &&& (forall|j: int| lo + c <= j < lo + w - 1 ==> v1[j] == v0[j + 1])
                &&& v1[lo + w - 1] == value
            }),
    {
        let w = self.row_width;
        let total = self.backing.len();
        let ghost wi = w as int;
        let ghost n = old(self).backing@.len() as int;
        let ghost pb = old(self).backing@;
        let ghost ps = old(self).splits@;
        let ghost v0 = view_of(pb, ps, wi);
        let ghost lo = r as int * wi;
        proof {
            assert(lo >= 0 && lo + wi == (r + 1) as int * wi) by (nonlinear_arith)
                requires
                    r as int >= 0,
                    wi >= 1,
                    lo == r as int * wi,
            ;
            assert forall|j: int| 0 <= j < n implies 0 <= #[trigger] phys_of(ps, wi, j)
                < n by {
                rows::lemma_phys_in_bounds_weak(n, ps, wi, j);
            }
        }
        let s = self.splits[r];
        let a = util::wrap_col(w, s, c);
        let mut temp = value;
        core::mem::swap(&mut self.backing[r * w + a], &mut temp);
        // `temp` now holds the removed element and the carried value sits
        // where it was
        let ghost b1 = self.backing@;
        let ghost vm = view_of(b1, ps, wi);
        proof {
            rows::lemma_row_of(lo + c, r as int, wi);
            assert(phys_of(ps, wi, lo + c) == lo + a);
            rows::lemma_view_update(pb, ps, wi, lo + c, value);
            assert(b1 == pb.update(lo + a, value));
            assert(vm == v0.update(lo + c, value));
            assert(temp == v0[lo + c]);
        }
        if s == 0 || c >= w - s {
            // the columns from `c` on sit in the contiguous range [a, b]
            let b = util::wrap_col(w, s, w - 1);
            util::rotate_one_left(&mut self.backing, r * w + a, r * w + b + 1);
            proof {
                let v1 = view_of(self.backing@, self.splits@, wi);
                assert forall|j: int| 0 <= j < n implies v1[j] == (if j < lo || j >= lo + wi {
                    v0[j]
                } else if j < lo + c {
                    v0[j]
                } else if j < lo + wi - 1 {
                    v0[j + 1]
                } else {
                    value
                }) by {
                    rows::lemma_div_bound(j, wi);
                    let rj = j / wi;
                    rows::lemma_row_in_range(n, ps, wi, j);
                    rows::lemma_phys_in_row(ps, wi, j);
                    if rj != r as int {
                        if rj < r as int {
                            rows::lemma_block_disjoint(rj, r as int, wi);
                        } else {
                            rows::lemma_block_disjoint(r as int, rj, wi);
                        }
                        assert(rj * wi >= 0) by (nonlinear_arith)
                            requires
                                rj >= 0,
                                wi >= 1,
                        ;
                        assert(v1[j] == vm[j]);
                        assert(vm[j] == v0[j]);
                    } else {
                        rows::lemma_row_of(j, r as int, wi);
                        let cc = j - lo;
                        if cc < c {
                            assert(v1[j] == b1[lo + util::col_shift(s as int, cc, wi)]);
                        } else if cc == wi - 1 {
                            assert(v1[j] == b1[lo + a]);
                        } else {
                            assert(v1[j] == b1[lo + util::col_shift(s as int, cc + 1, wi)]);
                            rows::lemma_row_of(j + 1, r as int, wi);
                        }
                    }
                }
            }
        } else {
            // the columns before `c` wrap: shift them right and move the
            // split marker forward by one
            util::rotate_one_right(&mut self.backing, r * w + s, r * w + a + 1);
            let s2 = util::wrap_col(w, s, 1);
            util::set_entry(&mut self.splits, r, s2);
            proof {
                let v1 = view_of(self.backing@, self.splits@, wi);
                assert forall|j: int| 0 <= j < n implies v1[j] == (if j < lo || j >= lo + wi {
                    v0[j]
                } else if j < lo + c {
                    v0[j]
                } else if j < lo + wi - 1 {
                    v0[j + 1]
                } else {
                    value
                }) by {
                    rows::lemma_div_bound(j, wi);
                    let rj = j / wi;
                    rows::lemma_row_in_range(n, ps, wi, j);
                    rows::lemma_phys_in_row(ps, wi, j);
                    if rj != r as int {
                        if rj < r as int {
                            rows::lemma_block_disjoint(rj, r as int, wi);
                        } else {
                            rows::lemma_block_disjoint(r as int, rj, wi);
                        }
                        assert(rj * wi >= 0) by (nonlinear_arith)
                            requires
                                rj >= 0,
                                wi >= 1,
                        ;
                        assert(v1[j] == vm[j]);
                        assert(vm[j] == v0[j]);
                    } else {
                        rows::lemma_row_of(j, r as int, wi);
                        let cc = j - lo;
                        if cc < c {
                            assert(v1[j] == b1[lo + util::col_shift(s as int, cc, wi)]);
                        } else if cc == wi - 1 {
                            assert(v1[j] == b1[lo + a]);
                        } else {
                            assert(v1[j] == b1[lo + util::col_shift(s as int, cc + 1, wi)]);
                            rows::lemma_row_of(j + 1, r as int, wi);
                        }
                    }
                }
            }
        }
        temp
    }

    /// Walk a carried value forward through the full rows `[from_row,
    /// to_row)`: each row swaps the carry into its last logical slot and
    /// moves its split marker back by one, so the whole region shifts one
    /// place toward the back with the carried value at its front. Returns
    /// the value displaced from the region's final slot.
    fn carry_forward(&mut self, from_row: usize, to_row: usize, value: T) -> (out: T)
        requires
            old(self).row_width >= 1,
            entries_lt(old(self).splits@, old(self).row_width as int),
            from_row <= to_row,
            to_row as int * old(self).row_width as int <= old(self).backing@.len(),
            to_row <= old(self).splits@.len(),
            old(self).backing@.len() <= old(self).splits@.len() * old(self).row_width,
            old(self).backing@.len() > 0 && old(self).splits@[(old(self).backing@.len()
                - 1) as int / old(self).row_width as int] != 0 ==> old(self).backing@.len() as int
                % old(self).row_width as int == 0,
        ensures
            final(self).row_width == old(self).row_width,
            final(self).backing@.len() == old(self).backing@.len(),
            final(self).splits@.len() == old(self).splits@.len(),
            entries_lt(final(self).splits@, old(self).row_width as int),
            forall|q: int|
                0 <= q < final(self).splits@.len() && !(from_row <= q < to_row)
                    ==> final(self).splits@[q] == old(self).splits@[q],
            ({
                let w = old(self).row_width as int;
                let v0 = view_of(old(self).backing@, old(self).splits@, w);
                let v1 = view_of(final(self).backing@, final(self).splits@, w);
                let lo = from_row as int * w;
                let hi = to_row as int * w;
                &&& (forall|j: int| 0 <= j < v0.len() && !(lo <= j < hi) ==> v1[j] == v0[j])
                &&& (forall|j: int| lo < j < hi ==> v1[j] == v0[j - 1])
                &&& (from_row < to_row ==> v1[lo] == value && out == v0[hi - 1])
                &&& (from_row == to_row ==> out == value && v1 == v0)
            }),
    {
        let w = self.row_width;
        let total = self.backing.len();
        let ghost wi = w as int;
        let ghost v0 = view_of(old(self).backing@, old(self).splits@, wi);
        let ghost n = old(self).backing@.len() as int;
        let ghost lo = from_row as int * wi;
        let mut temp = value;
        let mut row = from_row;
        while row < to_row
            invariant
                total == n,
                from_row <= row <= to_row,
                w == self.row_width,
                wi == w as int,
                w >= 1,
                n == self.backing@.len(),
                self.backing@.len() == old(self).backing@.len(),
                self.splits@.len() == old(self).splits@.len(),
                to_row as int * wi <= n,
                to_row <= self.splits@.len(),
                n <= self.splits@.len() * wi,
                entries_lt(self.splits@, wi),
                self.backing@.len() > 0 && self.splits@[(self.backing@.len() - 1) as int / wi]
                    != 0 ==> n % wi == 0,
                v0 == view_of(old(self).backing@, old(self).splits@, wi),
                lo == from_row as int * wi,
                forall|q: int|
                    0 <= q < self.splits@.len() && !(from_row <= q < row) ==> self.splits@[q]
                        == old(self).splits@[q],
                ({
                    let vc = view_of(self.backing@, self.splits@, wi);
                    let mid = row as int * wi;
                    &&& (forall|j: int| 0 <= j < n && !(lo <= j < mid) ==> vc[j] == v0[j])
                    &&& (forall|j: int| lo < j < mid ==> vc[j] == v0[j - 1])
                    &&& (from_row < row ==> vc[lo] == value && temp == v0[mid - 1])
                    &&& (from_row == row ==> temp == value && vc == v0)
                }),
            decreases to_row - row,
        {
            let ghost pb = self.backing@;
            let ghost ps = self.splits@;
            let ghost tin = temp;
            let ghost vc = view_of(pb, ps, wi);
            let ghost mid = row as int * wi;
            proof {
                // the current row is full and its block lies inside the buffer
                assert(mid + wi <= to_row as int * wi && mid >= lo && lo >= 0 && mid + wi == (
                row as int + 1) * wi) by (nonlinear_arith)
                    requires
                        (row as int) < to_row as int,
                        from_row as int <= row as int,
                        0 <= from_row as int,
                        wi >= 1,
                        mid == row as int * wi,
                        lo == from_row as int * wi,
                ;
            }
            let s = self.splits[row];
            let b = util::wrap_add(w, s, -1);
            proof {
                util::lemma_col_shift_back(s as int, wi);
                rows::lemma_row_update_front(pb, ps, wi, row as int, tin);
            }
            let idx = row * w + b;
            core::mem::swap(&mut self.backing[idx], &mut temp);
            util::set_entry(&mut self.splits, row, b);
            proof {
                let vn = view_of(self.backing@, self.splits@, wi);
                assert(self.backing@ == pb.update(mid + b, tin));
                assert(self.splits@ == ps.update(row as int, b));
                // re-establish the shifted-region picture one row further on
                assert forall|j: int| 0 <= j < n && !(lo <= j < mid + wi) implies vn[j]
                    == v0[j] by {
                    assert(vn[j] == vc[j]);
                }
                if from_row < row {
                    rows::lemma_block_disjoint(from_row as int, row as int, wi);
                    assert(vn[lo] == vc[lo]);
                }
                assert(vn[mid] == tin);
                assert forall|j: int| lo < j < mid + wi implies vn[j] == v0[j - 1] by {
                    if j < mid {
                        assert(vn[j] == vc[j]);
                    } else if j == mid {
                        if from_row < row {
                            assert(vn[mid] == tin && tin == v0[mid - 1]);
                        }
                    } else {
                        assert(vn[j] == vc[j - 1]);
                        assert(vc[j - 1] == v0[j - 1]);
                    }
                }
                assert(temp == vc[mid + wi - 1]);
                assert(vc[mid + wi - 1] == v0[mid + wi - 1]);
                // the row holding the buffer's last element is untouched
                rows::lemma_div_bound(n, wi);
                if n % wi != 0 {
                    rows::lemma_row_in_range(n, ps, wi, n - 1);
                    rows::lemma_row_of(to_row as int * wi, to_row as int, wi);
                    assert(n != to_row as int * wi);
                    vstd::arithmetic::div_mod::lemma_div_is_ordered(
                        to_row as int * wi,
                        n - 1,
                        wi,
                    );
                    assert((n - 1) / wi >= to_row as int);
                }
            }
            row = row + 1;
        }
        temp
    }

    /// Walk a carried value backward through the full rows `[from_row,
    /// to_row)`, from the last to the first: each row swaps the carry into
    /// its first logical slot and moves its split marker forward by one, so
    /// the whole region shifts one place toward the front with the carried
    /// value at its back. Returns the value displaced from the region's
    /// first slot.
    fn carry_backward(&mut self, from_row: usize, to_row: usize, value: T) -> (out: T)
        requires
            old(self).row_width >= 1,
            entries_lt(old(self).splits@, old(self).row_width as int),
            from_row <= to_row,
            to_row as int * old(self).row_width as int <= old(self).backing@.len(),
            to_row <= old(self).splits@.len(),
            old(self).backing@.len() <= old(self).splits@.len() * old(self).row_width,
            old(self).backing@.len() > 0 && old(self).splits@[(old(self).backing@.len()
                - 1) as int / old(self).row_width as int] != 0 ==> old(self).backing@.len() as int
                % old(self).row_width as int == 0,
        ensures
            final(self).row_width == old(self).row_width,
            final(self).backing@.len() == old(self).backing@.len(),
            final(self).splits@.len() == old(self).splits@.len(),
            entries_lt(final(self).splits@, old(self).row_width as int),
            forall|q: int|
                0 <= q < final(self).splits@.len() && !(from_row <= q < to_row)
                    ==> final(self).splits@[q] == old(self).splits@[q],
            ({
                let w = old(self).row_width as int;
                let v0 = view_of(old(self).backing@, old(self).splits@, w);
                let v1 = view_of(final(self).backing@, final(self).splits@, w);
                let lo = from_row as int * w;
                let hi = to_row as int * w;
                &&& (forall|j: int| 0 <= j < v0.len() && !(lo <= j < hi) ==> v1[j] == v0[j])
                &&& (forall|j: int| lo <= j < hi - 1 ==> v1[j] == v0[j + 1])
                &&& (from_row < to_row ==> v1[hi - 1] == value && out == v0[lo])
                &&& (from_row == to_row ==> out == value && v1 == v0)
            }),
    {
        let w = self.row_width;
        let total = self.backing.len();
        let ghost wi = w as int;
        let ghost v0 = view_of(old(self).backing@, old(self).splits@, wi);
        let ghost n = old(self).backing@.len() as int;
        let ghost hi = to_row as int * wi;
        let mut temp = value;
        let mut row = to_row;
        while row > from_row
            invariant
                total == n,
                from_row <= row <= to_row,
                w == self.row_width,
                wi == w as int,
                w >= 1,
                n == self.backing@.len(),
                self.backing@.len() == old(self).backing@.len(),
                self.splits@.len() == old(self).splits@.len(),
                to_row as int * wi <= n,
                to_row <= self.splits@.len(),
                n <= self.splits@.len() * wi,
                entries_lt(self.splits@, wi),
                self.backing@.len() > 0 && self.splits@[(self.backing@.len() - 1) as int / wi]
                    != 0 ==> n % wi == 0,
                v0 == view_of(old(self).backing@, old(self).splits@, wi),
                hi == to_row as int * wi,
                forall|q: int|
                    0 <= q < self.splits@.len() && !(row <= q < to_row) ==> self.splits@[q]
                        == old(self).splits@[q],
                ({
                    let vc = view_of(self.backing@, self.splits@, wi);
                    let mid = row as int * wi;
                    &&& (forall|j: int| 0 <= j < n && !(mid <= j < hi) ==> vc[j] == v0[j])
                    &&& (forall|j: int| mid <= j < hi - 1 ==> vc[j] == v0[j + 1])
                    &&& (row < to_row ==> vc[hi - 1] == value && temp == v0[mid])
                    &&& (row == to_row ==> temp == value && vc == v0)
                }),
            decreases row,
        {
            row = row - 1;
            let ghost pb = self.backing@;
            let ghost ps = self.splits@;
            let ghost tin = temp;
            let ghost vc = view_of(pb, ps, wi);
            let ghost mid = row as int * wi;
            proof {
                assert(mid + wi <= to_row as int * wi && mid >= from_row as int * wi && mid >= 0
                    && mid + wi == (row as int + 1) * wi) by (nonlinear_arith)
                    requires
                        (row as int) < to_row as int,
                        from_row as int <= row as int,
                        0 <= from_row as int,
                        wi >= 1,
                        mid == row as int * wi,
                ;
            }
            let s = self.splits[row];
            proof {
                util::lemma_col_shift_mod(s as int, 1, wi);
                rows::lemma_row_update_back(pb, ps, wi, row as int, tin);
            }
            let s2 = util::wrap_add(w, s, 1);
            let idx = row * w + s;
            core::mem::swap(&mut self.backing[idx], &mut temp);
            util::set_entry(&mut self.splits, row, s2);
            proof {
                let vn = view_of(self.backing@, self.splits@, wi);
                assert(self.backing@ == pb.update(mid + s, tin));
                assert(self.splits@ == ps.update(row as int, s2));
                // re-establish the shifted-region picture one row further down
                assert forall|j: int| 0 <= j < n && !(mid <= j < hi) implies vn[j]
                    == v0[j] by {
                    assert(vn[j] == vc[j]);
                }
                if row + 1 < to_row {
                    rows::lemma_block_disjoint(row as int + 1, to_row as int, wi);
                    assert(vn[hi - 1] == vc[hi - 1]);
                }
                assert(vn[mid + wi - 1] == tin);
                assert forall|j: int| mid <= j < hi - 1 implies vn[j] == v0[j + 1] by {
                    if j >= mid + wi {
                        assert(vn[j] == vc[j]);
                    } else if j == mid + wi - 1 {
                        if row + 1 < to_row {
                            assert(vn[j] == tin && tin == v0[mid + wi]);
                        }
                    } else {
                        assert(vn[j] == vc[j + 1]);
                        assert(vc[j + 1] == v0[j + 1]);
                    }
                }
                assert(temp == vc[mid]);
                assert(vc[mid] == v0[mid]);
                // the row holding the buffer's last element is untouched
                rows::lemma_div_bound(n, wi);
                if n % wi != 0 {
                    rows::lemma_row_in_range(n, ps, wi, n - 1);
                    rows::lemma_row_of(to_row as int * wi, to_row as int, wi);
                    assert(n != to_row as int * wi);
                    vstd::arithmetic::div_mod::lemma_div_is_ordered(
                        to_row as int * wi,
                        n - 1,
                        wi,
                    );
                    assert((n - 1) / wi >= to_row as int);
                }
            }
        }
        temp
    }

    /// Removes the first element and returns it, or `None` if the `Igush` is
    /// empty.
    pub fn pop_front(&mut self) -> (r: Option<T>)
        requires
            old(self).inv(),
        ensures
            final(self).inv(),
            final(self).width() == old(self).width(),
            old(self)@.len() > 0 ==> r == Some(old(self)@[0]) && final(self)@ == old(
                self,
            )@.subrange(1, old(self)@.len() as int),
            old(self)@.len() == 0 ==> r.is_none() && final(self)@ == old(self)@,
    {
        let w = self.row_width;
        let total = self.backing.len();
        let ghost wi = w as int;
        let ghost n = self.backing@.len() as int;
        let ghost v0 = self@;
        if let Some(last) = self.last_row() {
            proof {
                assert(total == n);
                rows::lemma_div_bound(n, wi);
                rows::lemma_div_bound(n - 1, wi);
                vstd::arithmetic::div_mod::lemma_div_nonincreasing(n - 1, wi);
                assert(last as int == (n - 1) / wi);
                assert((n / wi + 1) * wi == (n / wi) * wi + wi) by (nonlinear_arith);
                vstd::arithmetic::div_mod::lemma_div_is_ordered(n - 1, n, wi);
                rows::lemma_view_remove_tail(self.backing@, self.splits@, wi, last as int * wi);
                rows::lemma_pop_state(n, self.splits@, wi);
                rows::lemma_row_of(last as int * wi, last as int, wi);
                assert(phys_of(self.splits@, wi, last as int * wi) == last as int * wi);
            }
            let ghost p = last as int * wi;
            // remove first element from last row
            // the last row is always kept contiguous
            let mut temp = self.backing.remove(last * w);
            proof {
                assert(self.backing@ == old(self).backing@.remove(p));
                assert(temp == v0[p]);
            }
            let ghost vc = view_of(self.backing@, self.splits@, wi);
            // walk backward through the full rows, swapping out each row's
            // first element
            let out = self.carry_backward(0, last, temp);
            proof {
                let vn = view_of(self.backing@, self.splits@, wi);
                assert forall|j: int| 0 <= j < n - 1 implies vn[j] == v0.subrange(
                    1,
                    n,
                )[j] by {
                    if j < p - 1 {
                        assert(vn[j] == vc[j + 1]);
                        assert(vc[j + 1] == v0.remove(p)[j + 1]);
                    } else if j == p - 1 {
                        assert(vn[j] == temp);
                    } else {
                        assert(vn[j] == vc[j]);
                        assert(vc[j] == v0.remove(p)[j]);
                    }
                }
                assert(view_of(self.backing@, self.splits@, wi) =~= v0.subrange(1, n));
                assert(out == v0[0]) by {
                    if last > 0 {
                        assert(out == vc[0]);
                        assert(vc[0] == v0.remove(p)[0]);
                    }
                }
                // renormalization applies: the marker of row `last` is
                // untouched and still zero
                if (n - 1) % wi != 0 {
                    rows::lemma_row_of(n - 2, (n - 1) / wi, wi);
                }
                assert(rows::renorm_pre(n - 1, self.splits@, wi));
            }
            self.correct_splits();
            Some(out)
        } else {
            None
        }
    }

    /// Prepends an element to the `Igush`.
    pub fn push_front(&mut self, element: T)
        requires
            old(self).inv(),
        ensures
            final(self).inv(),
            final(self).width() == old(self).width(),
            final(self)@ == seq![element] + old(self)@,
    {
        let w = self.row_width;
        let ghost wi = w as int;
        let ghost n = self.backing@.len() as int;
        let ghost v0 = self@;
        let back = self.back_row();
        proof {
            rows::lemma_div_bound(n, wi);
            rows::lemma_back_marker_zero(n, self.splits@, wi);
            assert((n / wi + 1) * wi == (n / wi) * wi + wi) by (nonlinear_arith);
            if n > 0 {
                rows::lemma_div_bound(n - 1, wi);
                vstd::arithmetic::div_mod::lemma_div_is_ordered(n - 1, n, wi);
            }
        }
        // walk the new element in through every full row,
        // swapping out each row's last element
        let temp = self.carry_forward(0, back, element);
        let ghost vc = view_of(self.backing@, self.splits@, wi);
        proof {
            rows::lemma_view_insert_tail(self.backing@, self.splits@, wi, back as int * wi, temp);
            rows::lemma_push_state(n, self.splits@, wi);
        }
        // insert at beginning of last row to maintain contiguity
        let total = self.backing.len();
        proof {
            assert(total == n);
        }
        self.backing.insert(back * w, temp);
        proof {
            let p = back as int * wi;
            let vn = view_of(self.backing@, self.splits@, wi);
            if back > 0 {
                assert(wi <= p) by (nonlinear_arith)
                    requires
                        back as int >= 1,
                        wi >= 1,
                        p == back as int * wi,
                ;
            }
            assert(vn == vc.insert(p, temp));
            assert forall|j: int| 0 <= j < n + 1 implies vn[j] == (seq![element] + v0)[j] by {
                if j < p {
                    assert(vn[j] == vc[j]);
                } else if j == p {
                    if back > 0 {
                        assert(vn[p] == temp && temp == v0[p - 1]);
                    } else {
                        assert(vn[p] == temp && temp == element);
                    }
                } else {
                    assert(vn[j] == vc[j - 1]);
                }
            }
            assert(vn =~= seq![element] + v0);
        }
        self.correct_splits();
    }

    /// Inserts an element at `index` within the `Igush`, shifting all
    /// elements with indices greater than or equal to `index` towards the
    /// back.
    ///
    /// Element at index 0 is the front of the queue. `index` must be at most
    /// the current length.
    pub fn insert(&mut self, index: usize, element: T)
        requires
            old(self).inv(),
            index <= old(self)@.len(),
        ensures
            final(self).inv(),
            final(self).width() == old(self).width(),
            final(self)@ == old(self)@.insert(index as int, element),
    {
        let w = self.row_width;
        let total = self.backing.len();
        let ghost wi = w as int;
        let ghost n = self.backing@.len() as int;
        let ghost v0 = self@;
        let (target_row, target_col) = util::div_rem(index, self.row_width);
        let back = self.back_row();
        proof {
            rows::lemma_div_bound(n, wi);
            rows::lemma_div_bound(index as int, wi);
            rows::lemma_back_marker_zero(n, self.splits@, wi);
            assert((n / wi + 1) * wi == (n / wi) * wi + wi) by (nonlinear_arith);
            vstd::arithmetic::div_mod::lemma_div_is_ordered(index as int, n, wi);
        }

        if target_row == back {
            // the insertion point lies in the trailing contiguous region
            proof {
                rows::lemma_view_insert_tail(self.backing@, self.splits@, wi, index as int, element);
                rows::lemma_push_state(n, self.splits@, wi);
                assert((index as int / wi) * wi <= index as int);
            }
            self.backing.insert(index, element);

            self.correct_splits();
            return ;
        }

        proof {
            // the target row is full
            assert((target_row as int + 1) * wi <= back as int * wi && target_row as int + 1
                <= back as int && back as int * wi <= n && (target_row as int + 1) * wi
                == target_row as int * wi + wi) by (nonlinear_arith)
                requires
                    (target_row as int) < back as int,
                    wi >= 1,
                    back as int == n / wi,
                    (n / wi) * wi <= n,
            ;
        }
        // place the element inside its row, displacing the row's last element
        let temp = self.row_insert(target_row, target_col, element);
        let ghost va = view_of(self.backing@, self.splits@, wi);
        proof {
            // the row holding the buffer's last element was not touched
            if n % wi != 0 {
                rows::lemma_row_of(n - 1, n / wi, wi);
                assert(self.splits@[(n - 1) / wi] == old(self).splits@[(n - 1) / wi]);
            }
        }
        // walk the displaced value through the remaining full rows
        let temp2 = self.carry_forward(target_row + 1, back, temp);
        let ghost vb = view_of(self.backing@, self.splits@, wi);
        proof {
            rows::lemma_view_insert_tail(self.backing@, self.splits@, wi, back as int * wi, temp2);
            rows::lemma_push_state(n, self.splits@, wi);
        }
        // insert at beginning of last row to maintain contiguity
        self.backing.insert(back * w, temp2);
        proof {
            let i = index as int;
            let lo = target_row as int * wi;
            let hi = back as int * wi;
            let vn = view_of(self.backing@, self.splits@, wi);
            assert(vn == vb.insert(hi, temp2));
            assert(temp2 == v0[hi - 1]) by {
                if target_row + 1 < back {
                    rows::lemma_block_disjoint(target_row as int + 1, back as int, wi);
                    assert(temp2 == va[hi - 1]);
                    assert(va[hi - 1] == v0[hi - 1]);
                }
            }
            assert forall|j: int| 0 <= j < n + 1 implies vn[j] == v0.insert(i, element)[j] by {
                if j < hi {
                    assert(vn[j] == vb[j]);
                    if j < i {
                        assert(vb[j] == va[j] && va[j] == v0[j]);
                    } else if j == i {
                        assert(vb[j] == va[j] && va[j] == element);
                    } else if j < lo + wi {
                        assert(vb[j] == va[j] && va[j] == v0[j - 1]);
                    } else if j == lo + wi && target_row + 1 < back {
                        assert(vb[j] == temp && temp == v0[j - 1]);
                    } else if j > lo + wi {
                        assert(vb[j] == va[j - 1] && va[j - 1] == v0[j - 1]);
                    }
                } else if j == hi {
                    assert(vn[j] == temp2);
                } else {
                    assert(vn[j] == vb[j - 1]);
                    assert(vb[j - 1] == va[j - 1] && va[j - 1] == v0[j - 1]);
                }
            }
            assert(vn =~= v0.insert(i, element));
        }
        self.correct_splits();
    }

    /// Removes and returns the element at `index` from the `Igush`, shifting
    /// all elements after it towards the front.
    /// Returns `None` if `index` is out of bounds.
    ///
    /// Element at index 0 is the front of the queue.
    pub fn remove(&mut self, index: usize) -> (r: Option<T>)
        requires
            old(self).inv(),
        ensures
            final(self).inv(),
            final(self).width() == old(self).width(),
            index < old(self)@.len() ==> r == Some(old(self)@[index as int]) && final(self)@
                == old(self)@.remove(index as int),
            index >= old(self)@.len() ==> r.is_none() && final(self)@ == old(self)@,
    {
        if index >= self.len() {
            return None;
        }

        let w = self.row_width;
        let total = self.backing.len();
        let ghost wi = w as int;
        let ghost n = self.backing@.len() as int;
        let ghost v0 = self@;
        let last = match self.last_row() {
            Some(l) => l,
            None => {
                return None;
            },
        };
        let (target_row, target_col) = util::div_rem(index, self.row_width);
        proof {
            rows::lemma_div_bound(n, wi);
            rows::lemma_div_bound(n - 1, wi);
            rows::lemma_div_bound(index as int, wi);
            vstd::arithmetic::div_mod::lemma_div_nonincreasing(n - 1, wi);
            assert(last as int == (n - 1) / wi);
            assert((n / wi + 1) * wi == (n / wi) * wi + wi) by (nonlinear_arith);
            vstd::arithmetic::div_mod::lemma_div_is_ordered(n - 1, n, wi);
            vstd::arithmetic::div_mod::lemma_div_is_ordered(index as int, n - 1, wi);
        }

        if target_row == last {
            // the removal point lies in the trailing contiguous region
            proof {
                rows::lemma_view_remove_tail(self.backing@, self.splits@, wi, index as int);
                rows::lemma_pop_state(n, self.splits@, wi);
                assert((index as int / wi) * wi <= index as int);
                rows::lemma_row_of(index as int, last as int, wi);
                assert(phys_of(self.splits@, wi, index as int) == index as int);
                if (n - 1) % wi != 0 {
                    rows::lemma_row_of(n - 2, (n - 1) / wi, wi);
                }
            }
            let element = self.backing.remove(index);
            self.correct_splits();

            return Some(element);
        }

        proof {
            assert((target_row as int + 1) * wi <= last as int * wi && target_row as int + 1
                <= last as int && (target_row as int + 1) * wi == target_row as int * wi
                + wi) by (nonlinear_arith)
                requires
                    (target_row as int) < last as int,
                    wi >= 1,
                    target_row as int >= 0,
            ;
            rows::lemma_row_of(last as int * wi, last as int, wi);
            assert(phys_of(self.splits@, wi, last as int * wi) == last as int * wi);
            rows::lemma_view_remove_tail(self.backing@, self.splits@, wi, last * w as int);
            rows::lemma_pop_state(n, self.splits@, wi);
        }
        let ghost p = last as int * wi;
        // remove first element from last row
        // the last row is always kept contiguous
        let temp = self.backing.remove(last * w);
        proof {
            assert(self.backing@ == old(self).backing@.remove(p));
            assert(temp == v0[p]);
        }
        let ghost va = view_of(self.backing@, self.splits@, wi);
        // walk it backward through the full rows between
        let temp2 = self.carry_backward(target_row + 1, last, temp);
        let ghost vb = view_of(self.backing@, self.splits@, wi);
        proof {
            // the row holding the shortened buffer's last element was not
            // touched and is still left-aligned
            if (n - 1) % wi != 0 {
                rows::lemma_row_of(n - 2, (n - 1) / wi, wi);
                assert(self.splits@[(n - 2) / wi] == old(self).splits@[(n - 2) / wi]);
            }
        }
        // swap it into the target row, extracting the removed element
        let out = self.row_remove(target_row, target_col, temp2);
        proof {
            let i = index as int;
            let lo = (target_row as int + 1) * wi;
            let row0 = target_row as int * wi;
            let vn = view_of(self.backing@, self.splits@, wi);
            assert(temp2 == v0[lo]) by {
                if target_row + 1 < last {
                    rows::lemma_block_disjoint(target_row as int + 1, last as int, wi);
                    assert(temp2 == va[lo]);
                    assert(va[lo] == v0.remove(p)[lo]);
                } else {
                    assert(lo == p);
                }
            }
            assert(out == vb[i]) by {
                assert(row0 <= i < row0 + wi);
            }
            assert(vb[i] == v0[i]) by {
                if target_row + 1 < last {
                    assert(vb[i] == va[i]);
                }
                assert(va[i] == v0.remove(p)[i]);
            }
            assert forall|j: int| 0 <= j < n - 1 implies vn[j] == v0.remove(i)[j] by {
                if j < i {
                    assert(vn[j] == vb[j]);
                    if target_row + 1 < last {
                        assert(vb[j] == va[j]);
                    }
                    assert(va[j] == v0.remove(p)[j]);
                } else if j < row0 + wi - 1 {
                    assert(vn[j] == vb[j + 1]);
                    if target_row + 1 < last {
                        assert(vb[j + 1] == va[j + 1]);
                    }
                    assert(va[j + 1] == v0.remove(p)[j + 1]);
                } else if j == row0 + wi - 1 {
                    assert(vn[j] == temp2);
                } else if j < p - 1 {
                    assert(vn[j] == vb[j]);
                    assert(vb[j] == va[j + 1]);
                    assert(va[j + 1] == v0.remove(p)[j + 1]);
                } else if j == p - 1 {
                    assert(vn[j] == vb[j] && vb[j] == temp && temp == v0[p]);
                } else {
                    assert(vn[j] == vb[j] && vb[j] == va[j]);
                    assert(va[j] == v0.remove(p)[j]);
                }
            }
            assert(vn =~= v0.remove(i));
            // renormalization applies: the marker of row `last` is untouched
            // and still zero
            if (n - 1) % wi != 0 {
                rows::lemma_row_of(n - 2, (n - 1) / wi, wi);
            }
            assert(rows::renorm_pre(n - 1, self.splits@, wi));
        }
        self.correct_splits();

        Some(out)
    }

    /// All split markers are zero: the backing buffer holds the logical
    /// sequence in order.
    pub closed spec fn is_contiguous(&self) -> bool {
        forall|r: int| 0 <= r < self.splits@.len() ==> self.splits@[r] == 0
    }

    /// Make the backing structure completely contiguous, row by row.
    pub fn make_contiguous(&mut self)
        requires
            old(self).inv(),
        ensures
            final(self).inv(),
            final(self).width() == old(self).width(),
            final(self)@ == old(self)@,
            final(self).is_contiguous(),
            old(self).is_contiguous() ==> *final(self) == *old(self),
    {
        let w = self.row_width;
        let n = self.backing.len();
        let ghost wi = w as int;
        let ghost ni = n as int;
        let rows = self.splits.len();
        let mut r: usize = 0;
        proof {
            rows::lemma_div_bound(ni, wi);
            if ni > 0 {
                rows::lemma_div_bound(ni - 1, wi);
                vstd::arithmetic::div_mod::lemma_div_is_ordered(ni - 1, ni, wi);
            }
            assert((ni / wi + 1) * wi == (ni / wi) * wi + wi) by (nonlinear_arith);
        }
        while r < rows
            invariant
                r <= rows,
                w == self.row_width,
                wi == w as int,
                ni == n as int,
                n == self.backing@.len(),
                rows == self.splits@.len(),
                self.inv(),
                self@ == old(self)@,
                self.row_width == old(self).row_width,
                forall|q: int| 0 <= q < r ==> self.splits@[q] == 0,
                old(self).is_contiguous() ==> *self == *old(self),
            decreases rows - r,
        {
            let s = self.splits[r];
            if s > 0 {
                let ghost pre = *self;
                proof {
                    // a row that is still split must be full
                    rows::lemma_div_bound(ni, wi);
                    rows::lemma_div_bound(ni - 1, wi);
                    vstd::arithmetic::div_mod::lemma_div_is_ordered(ni - 1, ni, wi);
                    assert((ni / wi + 1) * wi == (ni / wi) * wi + wi) by (nonlinear_arith);
                    if ni > 0 && ni % wi == 0 {
                        assert((ni / wi - 1) * wi == ni - wi) by (nonlinear_arith)
                            requires
                                ni == (ni / wi) * wi,
                        ;
                        rows::lemma_row_of(ni - 1, ni / wi - 1, wi);
                    }
                    if ni > 0 && ni % wi != 0 {
                        rows::lemma_row_of(ni - 1, ni / wi, wi);
                    }
                    assert((r as int) < (ni - 1) / wi);
                    rows::lemma_block_disjoint(r as int, (ni - 1) / wi, wi);
                    assert((r as int + 1) * wi == r as int * wi + wi && r as int * wi >= 0)
                        by (nonlinear_arith)
                        requires
                            r as int >= 0,
                            wi >= 1,
                    ;
                    assert((r as int + 1) * wi <= ni);
                }
                util::make_contiguous(&mut self.backing, r * w, r * w + w, s);
                util::set_entry(&mut self.splits, r, 0);
                proof {
                    rows::lemma_linearize_row(
                        pre.backing@,
                        self.backing@,
                        pre.splits@,
                        wi,
                        r as int,
                    );
                }
            }
            r = r + 1;
        }
    }

    /// Retrieves an element in the `Igush` by index.
    ///
    /// Element at index 0 is the front of the array.
    pub fn get(&self, index: usize) -> (r: Option<&T>)
        requires
            self.inv(),
        ensures
            index < self@.len() ==> r == Some(&self@[index as int]),
            index >= self@.len() ==> r.is_none(),
    {
        if index >= self.len() {
            return None;
        }

        let i = self.real_index(index);
        Some(&self.backing[i])
    }
}

} // verus!
