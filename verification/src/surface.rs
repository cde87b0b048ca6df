//! The public operation surface: bulk and range operations built by
//! composing the core primitives, plus the capacity pass-throughs of the
//! backing buffer. No new invariants live here.

use vstd::prelude::*;
use vstd::std_specs::cmp::PartialEqSpec;

use crate::rows;
use crate::Igush;

verus! {

/// The subsequence of `s` at the positions where `keep` holds.
pub open spec fn filter_by<T>(s: Seq<T>, keep: Seq<bool>) -> Seq<T>
    decreases s.len(),
{
    if s.len() == 0 {
        Seq::empty()
    } else if keep[0] {
        seq![s[0]] + filter_by(s.drop_first(), keep.drop_first())
    } else {
        filter_by(s.drop_first(), keep.drop_first())
    }
}

/// Appending one decision extends the filtered subsequence accordingly.
proof fn lemma_filter_by_push<T>(s: Seq<T>, keep: Seq<bool>, x: T, k: bool)
    requires
        s.len() == keep.len(),
    ensures
        filter_by(s.push(x), keep.push(k)) == if k {
            filter_by(s, keep).push(x)
        } else {
            filter_by(s, keep)
        },
    decreases s.len(),
{
    if s.len() == 0 {
        assert(s.push(x).drop_first() =~= Seq::<T>::empty());
        assert(keep.push(k).drop_first() =~= Seq::<bool>::empty());
        assert(s.push(x)[0] == x);
        assert(keep.push(k)[0] == k);
        assert(filter_by(Seq::<T>::empty(), Seq::<bool>::empty()) == Seq::<T>::empty());
        if k {
            assert(filter_by(s.push(x), keep.push(k)) == seq![x] + Seq::<T>::empty());
            assert(filter_by(s, keep) == Seq::<T>::empty());
            assert(filter_by(s.push(x), keep.push(k)) =~= filter_by(s, keep).push(x));
        } else {
            assert(filter_by(s.push(x), keep.push(k)) =~= filter_by(s, keep));
        }
    } else {
        assert(s.push(x).drop_first() =~= s.drop_first().push(x));
        assert(keep.push(k).drop_first() =~= keep.drop_first().push(k));
        lemma_filter_by_push(s.drop_first(), keep.drop_first(), x, k);
        assert(s.push(x)[0] == s[0]);
        assert(keep.push(k)[0] == keep[0]);
        if keep[0] {
            if k {
                assert(filter_by(s.push(x), keep.push(k)) =~= filter_by(s, keep).push(x));
            }
        }
    }
}

/// The filtered subsequence is no longer than the original.
proof fn lemma_filter_by_len<T>(s: Seq<T>, keep: Seq<bool>)
    ensures
        filter_by(s, keep).len() <= s.len(),
    decreases s.len(),
{
    if s.len() > 0 {
        lemma_filter_by_len(s.drop_first(), keep.drop_first());
    }
}

impl<T> Igush<T> {
    /// Returns the number of elements the `Igush` can hold without
    /// reallocating.
    pub fn capacity(&self) -> (r: usize)
        ensures
            r >= self@.len(),
    {
        crate::util::vec_capacity(&self.backing)
    }

    /// Reserves capacity for at least `additional` more elements to be
    /// inserted in the given `Igush`. The collection may reserve more space
    /// to avoid frequent reallocations.
    pub fn reserve(&mut self, additional: usize)
        requires
            old(self).inv(),
        ensures
            final(self).inv(),
            final(self).width() == old(self).width(),
            final(self)@ == old(self)@,
    {
        self.backing.reserve(additional);
    }

    /// Reserves the minimum capacity for exactly `additional` more elements
    /// to be inserted in the given `Igush`. Does nothing if the capacity is
    /// already sufficient.
    pub fn reserve_exact(&mut self, additional: usize)
        requires
            old(self).inv(),
        ensures
            final(self).inv(),
            final(self).width() == old(self).width(),
            final(self)@ == old(self)@,
    {
        crate::util::vec_reserve_exact(&mut self.backing, additional);
    }

    /// Shrinks the capacity of the `Igush` as much as possible.
    pub fn shrink_to_fit(&mut self)
        requires
            old(self).inv(),
        ensures
            final(self).inv(),
            final(self).width() == old(self).width(),
            final(self)@ == old(self)@,
    {
        crate::util::vec_shrink_to_fit(&mut self.backing);
    }

    /// Shortens the `Igush`, dropping excess elements from the back.
    ///
    /// If `len` is greater than the `Igush`'s current length, this has no
    /// effect.
    pub fn truncate(&mut self, len: usize)
        requires
            old(self).inv(),
        ensures
            final(self).inv(),
            final(self).width() == old(self).width(),
            len < old(self)@.len() ==> final(self)@ == old(self)@.subrange(0, len as int),
            len >= old(self)@.len() ==> final(self)@ == old(self)@,
    {
        proof {
            assert(old(self)@.subrange(0, old(self)@.len() as int) =~= old(self)@);
        }
        while self.len() > len
            invariant
                self.inv(),
                self.width() == old(self).width(),
                self@.len() <= old(self)@.len(),
                self@ == old(self)@.subrange(0, self@.len() as int),
                self@.len() >= len || self@ == old(self)@,
            decreases self@.len(),
        {
            let ghost prev = self@;
            self.pop_back();
            proof {
                assert(self@ == prev.drop_last());
                assert(self@ =~= old(self)@.subrange(0, self@.len() as int));
            }
        }
        proof {
            if self@.len() == old(self)@.len() {
                assert(old(self)@.subrange(0, self@.len() as int) =~= old(self)@);
            }
        }
    }

    /// Clears the `Igush`, removing all values.
    pub fn clear(&mut self)
        requires
            old(self).inv(),
        ensures
            final(self).inv(),
            final(self).width() == old(self).width(),
            final(self)@ == Seq::<T>::empty(),
    {
        self.splits.clear();
        self.splits.push(0);
        self.backing.clear();
        proof {
            assert(final(self)@ =~= Seq::<T>::empty());
        }
    }

    /// Returns `true` if the `Igush` contains an element equal to the given
    /// value.
    pub fn contains(&self, x: &T) -> (r: bool) where T: PartialEq
        requires
            self.inv(),
        ensures
            T::obeys_eq_spec() ==> (r <==> exists|k: int|
                0 <= k < self@.len() && self@[k].eq_spec(x)),
    {
        let n = self.len();
        let mut i: usize = 0;
        while i < n
            invariant
                self.inv(),
                i <= n,
                n == self@.len(),
                T::obeys_eq_spec() ==> forall|k: int| 0 <= k < i ==> !self@[k].eq_spec(x),
            decreases n - i,
        {
            match self.get(i) {
                Some(e) => {
                    if e.eq(x) {
                        return true;
                    }
                },
                None => {},
            }
            i = i + 1;
        }
        false
    }

    /// Returns a front-to-back listing of references to the elements, for
    /// iteration.
    pub fn iter(&self) -> (r: Vec<&T>)
        requires
            self.inv(),
        ensures
            r@.len() == self@.len(),
            forall|k: int| 0 <= k < r@.len() ==> *r@[k] == self@[k],
    {
        let n = self.len();
        let mut out: Vec<&T> = Vec::new();
        let mut i: usize = 0;
        while i < n
            invariant
                self.inv(),
                i <= n,
                n == self@.len(),
                out@.len() == i as int,
                forall|k: int| 0 <= k < i ==> *out@[k] == self@[k],
            decreases n - i,
        {
            match self.get(i) {
                Some(e) => { out.push(e) },
                None => {},
            }
            i = i + 1;
        }
        out
    }

    /// Removes the elements with indices in `[start, end)` and returns them
    /// in their original order.
    pub fn drain(&mut self, start: usize, end: usize) -> (r: Vec<T>)
        requires
            old(self).inv(),
            start <= end,
            end <= old(self)@.len(),
        ensures
            final(self).inv(),
            final(self).width() == old(self).width(),
            r@ == old(self)@.subrange(start as int, end as int),
            final(self)@ == old(self)@.subrange(0, start as int) + old(self)@.subrange(
                end as int,
                old(self)@.len() as int,
            ),
    {
        let ghost n = self@.len() as int;
        let mut out: Vec<T> = Vec::new();
        let mut k: usize = 0;
        let count = end - start;
        while k < count
            invariant
                self.inv(),
                self.width() == old(self).width(),
                k <= count,
                count == end - start,
                start <= end <= n,
                n == old(self)@.len(),
                out@ == old(self)@.subrange(start as int, start as int + k as int),
                self@ == old(self)@.subrange(0, start as int + 0) + old(self)@.subrange(
                    start as int + k as int,
                    n,
                ),
            decreases count - k,
        {
            let ghost prev = self@;
            if let Some(x) = self.remove(start) {
                out.push(x);
            }
            k = k + 1;
            proof {
                assert(out@ =~= old(self)@.subrange(start as int, start as int + k as int));
                assert(self@ =~= old(self)@.subrange(0, start as int) + old(self)@.subrange(
                    start as int + k as int,
                    n,
                ));
            }
        }
        proof {
            assert(self@ =~= old(self)@.subrange(0, start as int) + old(self)@.subrange(
                end as int,
                n,
            ));
        }
        out
    }

    /// Splits the `Igush` into two at the given index.
    ///
    /// Returns a newly allocated `Igush`. `self` contains elements
    /// `[0, at)`, and the returned `Igush` contains elements `[at, len)`,
    /// with a row width chosen for its own length.
    pub fn split_off(&mut self, at: usize) -> (r: Self)
        requires
            old(self).inv(),
            at <= old(self)@.len(),
        ensures
            final(self).inv(),
            final(self).width() == old(self).width(),
            final(self)@ == old(self)@.subrange(0, at as int),
            r.inv(),
            r@ == old(self)@.subrange(at as int, old(self)@.len() as int),
    {
        let ghost n = self@.len() as int;
        self.make_contiguous();
        let ghost wi = self.row_width as int;
        proof {
            rows::lemma_div_bound(n, wi);
            assert((n / wi + 1) * wi == (n / wi) * wi + wi) by (nonlinear_arith);
            rows::lemma_view_identity(self.backing@, self.splits@, wi);
        }
        let other = self.backing.split_off(at);
        proof {
            rows::lemma_div_bound(at as int, wi);
            if at > 0 {
                rows::lemma_div_bound(at as int - 1, wi);
                vstd::arithmetic::div_mod::lemma_div_is_ordered(at as int - 1, n, wi);
                vstd::arithmetic::div_mod::lemma_div_is_ordered(at as int - 1, at as int, wi);
            }
            vstd::arithmetic::div_mod::lemma_div_is_ordered(at as int, n, wi);
        }
        proof {
            rows::lemma_view_identity(self.backing@, self.splits@, wi);
        }
        self.correct_splits();
        Igush::from_vec(other)
    }

    /// Moves all the elements of `other` into `self`, leaving `other`
    /// empty.
    pub fn append(&mut self, other: &mut Self)
        requires
            old(self).inv(),
            old(other).inv(),
        ensures
            final(self).inv(),
            final(self).width() == old(self).width(),
            final(self)@ == old(self)@ + old(other)@,
            final(other).inv(),
            final(other).width() == old(other).width(),
            final(other)@ == Seq::<T>::empty(),
    {
        other.make_contiguous();
        let ghost wo = other.row_width as int;
        let ghost m = other@.len() as int;
        proof {
            rows::lemma_div_bound(m, wo);
            assert((m / wo + 1) * wo == (m / wo) * wo + wo) by (nonlinear_arith);
            rows::lemma_view_identity(other.backing@, other.splits@, wo);
        }
        let mut moved: Vec<T> = Vec::new();
        core::mem::swap(&mut other.backing, &mut moved);
        other.splits.clear();
        other.splits.push(0);
        proof {
            assert(final(other)@ =~= Seq::<T>::empty());
        }
        self.extend_back(moved);
    }

    /// Appends the contents of the vector, front to back.
    pub fn extend_back(&mut self, elements: Vec<T>)
        requires
            old(self).inv(),
        ensures
            final(self).inv(),
            final(self).width() == old(self).width(),
            final(self)@ == old(self)@ + elements@,
    {
        let mut rest = elements;
        let ghost all = rest@;
        while rest.len() > 0
            invariant
                self.inv(),
                self.width() == old(self).width(),
                self@ == old(self)@ + all.subrange(0, all.len() - rest@.len()),
                all.len() >= rest@.len(),
                rest@ == all.subrange(all.len() - rest@.len(), all.len() as int),
            decreases rest@.len(),
        {
            let x = rest.remove(0);
            self.push_back(x);
            proof {
                assert(self@ =~= old(self)@ + all.subrange(0, all.len() - rest@.len()));
                assert(rest@ =~= all.subrange(all.len() - rest@.len(), all.len() as int));
            }
        }
        proof {
            assert(all.subrange(0, all.len() as int) =~= all);
        }
    }

    /// Prepends the contents of the vector: each element in turn becomes
    /// the new front, so the vector ends up reversed at the front.
    pub fn extend_front(&mut self, elements: Vec<T>)
        requires
            old(self).inv(),
        ensures
            final(self).inv(),
            final(self).width() == old(self).width(),
            final(self)@ == elements@.reverse() + old(self)@,
    {
        let mut rest = elements;
        let ghost all = rest@;
        while rest.len() > 0
            invariant
                self.inv(),
                self.width() == old(self).width(),
                self@ == all.subrange(0, all.len() - rest@.len()).reverse() + old(self)@,
                all.len() >= rest@.len(),
                rest@ == all.subrange(all.len() - rest@.len(), all.len() as int),
            decreases rest@.len(),
        {
            let x = rest.remove(0);
            self.push_front(x);
            proof {
                assert(self@ =~= all.subrange(0, all.len() - rest@.len()).reverse() + old(
                    self,
                )@);
                assert(rest@ =~= all.subrange(all.len() - rest@.len(), all.len() as int));
            }
        }
        proof {
            assert(all.subrange(0, all.len() as int) =~= all);
        }
    }

    /// Modifies the `Igush` in-place so that `len()` equals `new_len`,
    /// either by removing excess elements from the back or by appending
    /// elements produced by calling `generator` to the back.
    pub fn resize_with<F: Fn() -> T>(&mut self, new_len: usize, generator: F)
        requires
            old(self).inv(),
            call_requires(generator, ()),
        ensures
            final(self).inv(),
            final(self).width() == old(self).width(),
            final(self)@.len() == new_len,
            new_len <= old(self)@.len() ==> final(self)@ == old(self)@.subrange(0, new_len as int),
            new_len > old(self)@.len() ==> final(self)@.subrange(0, old(self)@.len() as int)
                == old(self)@ && (forall|k: int|
                old(self)@.len() <= k < new_len ==> call_ensures(generator, (), final(self)@[k])),
    {
        let len = self.len();

        if new_len > len {
            while self.len() < new_len
                invariant
                    self.inv(),
                    self.width() == old(self).width(),
                    old(self)@.len() <= self@.len() <= new_len,
                    self@.subrange(0, old(self)@.len() as int) == old(self)@,
                    forall|k: int|
                        old(self)@.len() <= k < self@.len() ==> call_ensures(
                            generator,
                            (),
                            self@[k],
                        ),
                    call_requires(generator, ()),
                decreases new_len - self@.len(),
            {
                let x = generator();
                self.push_back(x);
                proof {
                    assert(self@.subrange(0, old(self)@.len() as int) =~= old(self)@);
                }
            }
        } else {
            self.truncate(new_len);
            proof {
                if new_len == old(self)@.len() {
                    assert(old(self)@.subrange(0, new_len as int) =~= old(self)@);
                }
            }
        }
    }

    /// Modifies the `Igush` in-place so that `len()` equals `new_len`,
    /// either by removing excess elements from the back or by appending
    /// clones of `value` to the back.
    pub fn resize(&mut self, new_len: usize, value: T) where T: Clone
        requires
            old(self).inv(),
        ensures
            final(self).inv(),
            final(self).width() == old(self).width(),
            final(self)@.len() == new_len,
            new_len <= old(self)@.len() ==> final(self)@ == old(self)@.subrange(0, new_len as int),
            new_len > old(self)@.len() ==> final(self)@.subrange(0, old(self)@.len() as int)
                == old(self)@ && (forall|k: int|
                old(self)@.len() <= k < new_len ==> vstd::pervasive::cloned::<T>(
                    value,
                    final(self)@[k],
                )),
    {
        let len = self.len();

        if new_len > len {
            while self.len() < new_len
                invariant
                    self.inv(),
                    self.width() == old(self).width(),
                    old(self)@.len() <= self@.len() <= new_len,
                    self@.subrange(0, old(self)@.len() as int) == old(self)@,
                    forall|k: int|
                        old(self)@.len() <= k < self@.len() ==> vstd::pervasive::cloned::<T>(
                            value,
                            self@[k],
                        ),
                decreases new_len - self@.len(),
            {
                let x = value.clone();
                self.push_back(x);
                proof {
                    assert(self@.subrange(0, old(self)@.len() as int) =~= old(self)@);
                }
            }
        } else {
            self.truncate(new_len);
            proof {
                if new_len == old(self)@.len() {
                    assert(old(self)@.subrange(0, new_len as int) =~= old(self)@);
                }
            }
        }
    }

    /// Retains only the elements for which the predicate returns `true`,
    /// visiting each element exactly once in order and preserving the order
    /// of the retained elements.
    pub fn retain<F: Fn(&T) -> bool>(&mut self, f: F)
        requires
            old(self).inv(),
            forall|t: &T| call_requires(f, (t,)),
        ensures
            final(self).inv(),
            final(self).width() == old(self).width(),
            exists|keep: Seq<bool>|
                {
                    &&& keep.len() == old(self)@.len()
                    &&& (forall|k: int|
                        0 <= k < keep.len() ==> call_ensures(f, (&old(self)@[k],), keep[k]))
                    &&& final(self)@ == filter_by(old(self)@, keep)
                },
    {
        let ghost n = self@.len() as int;
        self.make_contiguous();
        let ghost wi = self.row_width as int;
        proof {
            rows::lemma_div_bound(n, wi);
            assert((n / wi + 1) * wi == (n / wi) * wi + wi) by (nonlinear_arith);
            rows::lemma_view_identity(self.backing@, self.splits@, wi);
        }
        let mut rest: Vec<T> = Vec::new();
        core::mem::swap(&mut self.backing, &mut rest);
        let mut kept: Vec<T> = Vec::new();
        let ghost mut keep_track: Seq<bool> = Seq::empty();
        let ghost all = rest@;
        while rest.len() > 0
            invariant
                forall|t: &T| call_requires(f, (t,)),
                all.len() >= rest@.len(),
                rest@ == all.subrange(all.len() - rest@.len(), all.len() as int),
                keep_track.len() == all.len() - rest@.len(),
                forall|k: int|
                    0 <= k < keep_track.len() ==> call_ensures(f, (&all[k],), keep_track[k]),
                kept@ == filter_by(all.subrange(0, keep_track.len() as int), keep_track),
            decreases rest@.len(),
        {
            let ghost done = all.len() - rest@.len();
            let x = rest.remove(0);
            proof {
                assert(x == all[done]);
                assert(rest@ =~= all.subrange(all.len() - rest@.len(), all.len() as int));
            }
            let decision = f(&x);
            proof {
                lemma_filter_by_push(
                    all.subrange(0, done),
                    keep_track,
                    all[done],
                    decision,
                );
                assert(all.subrange(0, done).push(all[done]) =~= all.subrange(0, done + 1));
            }
            if decision {
                kept.push(x);
            }
            proof {
                keep_track = keep_track.push(decision);
            }
        }
        proof {
            assert(all.subrange(0, all.len() as int) =~= all);
        }
        core::mem::swap(&mut self.backing, &mut kept);
        let ghost m = self.backing@.len() as int;
        let ghost zsplits = self.splits@;
        proof {
            lemma_filter_by_len(all, keep_track);
            rows::lemma_div_bound(m, wi);
            if m > 0 {
                rows::lemma_div_bound(m - 1, wi);
                vstd::arithmetic::div_mod::lemma_div_is_ordered(m - 1, n - 1, wi);
                vstd::arithmetic::div_mod::lemma_div_is_ordered(n - 1, n, wi);
            }
            rows::lemma_view_identity(self.backing@, zsplits, wi);
        }
        self.correct_splits();
    }
}

} // verus!
