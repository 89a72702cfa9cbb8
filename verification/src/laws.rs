//! Laws that relate several operations of the allocator.
//!
//! The contracts of `add`, `subtract` and the two allocation operations pin
//! each call's result down to [`add_seq`] and [`subtract_seq`] of the prior
//! state; the theorems here therefore speak about those model functions and
//! apply to any sequence of calls.

use vstd::prelude::*;

use crate::model::{
    add_seq, cut_hi, cut_lo, cut_pieces, lemma_add_seq_wf, lemma_cut_hi_ge, lemma_cut_hi_props,
    lemma_cut_lo_ge, lemma_cut_lo_props, lemma_cut_pieces_facts, lemma_cut_run,
    lemma_merged_region_facts, lemma_subtract_seq_covers, merged_region, subtract_seq,
};
use crate::region::{covers, separated, touches, wf_seq, Region};

verus! {

/// Adding a range and then immediately subtracting the same range yields
/// exactly the state that subtracting the range from the prior set alone
/// would have: the round trip can erase coverage that already existed
/// inside the range, but nothing else.
pub proof fn lemma_add_then_subtract(s: Seq<Region>, b: int, e: int)
    requires
        wf_seq(s),
        0 <= b <= e <= usize::MAX,
    ensures
        subtract_seq(add_seq(s, b, e), b, e) == subtract_seq(s, b, e),
{
    let lo = cut_lo(s, b);
    let hi = cut_hi(s, e);
    let m = merged_region(s, b, e);
    let a = add_seq(s, b, e);
    lemma_cut_run(s, b, e);
    lemma_merged_region_facts(s, b, e);
    lemma_add_seq_wf(s, b, e);
    lemma_cut_pieces_facts(s, b, e);
    assert(a.len() == lo + 1 + (s.len() - hi));
    assert(forall|i: int| 0 <= i < lo ==> a[i] == s[i]);
    assert(a[lo as int] == m);
    assert(forall|j: int| lo < j < a.len() ==> a[j] == s[j - lo - 1 + hi]);

    // the merged region is the whole run of the second subtraction
    lemma_cut_lo_props(a, b);
    lemma_cut_hi_props(a, e);
    assert forall|i: int| 0 <= i < lo implies (#[trigger] a[i]).end() < b by {
        assert(a[i] == s[i]);
    }
    lemma_cut_lo_ge(a, b, lo);
    assert(m.end() >= e >= b);
    assert(cut_lo(a, b) == lo);
    assert forall|i: int| 0 <= i < lo + 1 implies (#[trigger] a[i]).base <= e by {
        if i < lo {
            assert(a[i] == s[i]);
            assert(s[i].end() < b);
        }
    }
    lemma_cut_hi_ge(a, e, lo + 1);
    if cut_hi(a, e) > lo + 1 {
        assert(a[lo + 1] == s[hi]);
        assert(s[hi].base > e);
    }
    assert(cut_hi(a, e) == lo + 1);
    lemma_cut_pieces_facts(a, b, e);

    // the remainders of the merged region are the remainders of the run
    let has_left = lo < hi && s[lo].base < b;
    let has_right = lo < hi && s[hi - 1].end() > e;
    assert((m.base as int) < b <==> has_left);
    assert(m.end() > e <==> has_right);
    if has_left {
        assert(cut_pieces(a, b, e)[0] == (Region {
            base: m.base,
            size: (b - m.base) as usize,
        }));
        assert(cut_pieces(s, b, e)[0] == (Region {
            base: s[lo].base,
            size: (b - s[lo].base) as usize,
        }));
        assert(m.base == s[lo].base);
    }
    if has_right {
        assert(cut_pieces(a, b, e)[cut_pieces(a, b, e).len() - 1] == (Region {
            base: e as usize,
            size: (m.end() - e) as usize,
        }));
        assert(cut_pieces(s, b, e)[cut_pieces(s, b, e).len() - 1] == (Region {
            base: e as usize,
            size: (s[hi - 1].end() - e) as usize,
        }));
        assert(m.end() == s[hi - 1].end());
    }
    assert(cut_pieces(a, b, e) =~= cut_pieces(s, b, e));
    assert(a.subrange(0, cut_lo(a, b)) =~= s.subrange(0, lo));
    assert(a.subrange(cut_hi(a, e), a.len() as int) =~= s.subrange(hi, s.len() as int));
    assert(subtract_seq(a, b, e) =~= subtract_seq(s, b, e));
}

/// Subtracting a range that overlaps no stored region leaves the set
/// exactly as it was, provided no zero-size region touches the range.  (A
/// zero-size region that touches the range is removed and leaves no
/// remainder, so it would not be restored.)
pub proof fn lemma_subtract_untouched(s: Seq<Region>, b: int, e: int)
    requires
        wf_seq(s),
        0 <= b <= e <= usize::MAX,
        forall|i: int|
            0 <= i < s.len() ==> !((#[trigger] s[i]).base < e && b < s[i].end()),
        forall|i: int| 0 <= i < s.len() && touches(#[trigger] s[i], b, e) ==> s[i].size > 0,
    ensures
        subtract_seq(s, b, e) == s,
{
    let lo = cut_lo(s, b);
    let hi = cut_hi(s, e);
    lemma_cut_run(s, b, e);
    lemma_cut_pieces_facts(s, b, e);
    if lo < hi {
        // every run region either ends exactly at b or starts exactly at e
        assert forall|i: int| lo <= i < hi implies (#[trigger] s[i]).end() == b
            || s[i].base == e by {
            assert(touches(s[i], b, e));
            assert(!(s[i].base < e && b < s[i].end()));
        }
        // and the run has at most two members: one of each shape
        assert forall|i: int, j: int| lo <= i < j < hi implies (#[trigger] s[i]).end() == b
            && (#[trigger] s[j]).base == e by {
            assert(s[i].end() <= s[j].base);
            assert(touches(s[i], b, e) && touches(s[j], b, e));
            if s[i].base == e {
                // then s[j].base > e, contradicting that s[j] touches
                assert(s[i].size > 0);
                assert(s[j].base >= s[i].end() > e);
            }
            if s[j].end() == b {
                // then s[i].end < b, contradicting that s[i] touches
                assert(s[j].size > 0);
                assert(s[i].end() <= s[j].base < b);
            }
        }
        if hi - lo >= 3 {
            // a middle member could be of neither shape
            assert(s[lo].end() == b && s[lo + 1].base == e);
            assert(s[lo + 1].end() == b && s[lo + 2].base == e);
            assert(s[lo + 1].size > 0);
            assert(false);
        }
        if hi - lo == 2 {
            assert(s[lo].end() == b && s[lo].size > 0 && s[lo].base < b);
            assert(s[hi - 1].base == e && s[hi - 1].size > 0 && s[hi - 1].end() > e);
            assert(cut_pieces(s, b, e).len() == 2);
            assert(cut_pieces(s, b, e)[0] == s[lo]);
            assert(cut_pieces(s, b, e)[1] == s[hi - 1]);
        } else {
            let t = s[lo];
            assert(t.size > 0);
            if t.end() == b {
                assert(t.base < b);
                assert(!(t.end() > e));
                assert(cut_pieces(s, b, e) =~= seq![t]);
            } else {
                assert(t.base == e && t.end() > e);
                assert(!(t.base < b));
                assert(cut_pieces(s, b, e) =~= seq![t]);
            }
        }
    }
    assert(subtract_seq(s, b, e) =~= s);
}

/// The round trip: `add(b, s)` immediately followed by `subtract(b, s)`
/// restores exactly the prior region set, whenever the range overlaps no
/// stored region and no zero-size region touches it.  In general (see
/// [`lemma_add_then_subtract`]) the pair of calls is equivalent to
/// subtracting the range from the prior set alone.
pub proof fn lemma_round_trip(s: Seq<Region>, b: int, e: int)
    requires
        wf_seq(s),
        0 <= b <= e <= usize::MAX,
        forall|i: int|
            0 <= i < s.len() ==> !((#[trigger] s[i]).base < e && b < s[i].end()),
        forall|i: int| 0 <= i < s.len() && touches(#[trigger] s[i], b, e) ==> s[i].size > 0,
    ensures
        subtract_seq(add_seq(s, b, e), b, e) == s,
{
    lemma_add_then_subtract(s, b, e);
    lemma_subtract_untouched(s, b, e);
}

/// The disjointness invariant in its pairwise form: in a separated set any
/// two distinct stored regions are strictly apart — one ends strictly
/// before the other begins.  `new` establishes `separated`, `add` preserves
/// it, and so does `subtract` of a non-empty range, so this holds after any
/// sequence of such calls.
pub proof fn lemma_pairwise_separation(s: Seq<Region>, i: int, j: int)
    requires
        separated(s),
        0 <= i < s.len(),
        0 <= j < s.len(),
        i != j,
    ensures
        s[i].end() < s[j].base || s[j].end() < s[i].base,
{
}

/// Allocation exclusivity: once a range has been carved out of the set —
/// which is what a successful allocation does — every address still covered
/// lies outside that range, so no later allocation can return overlapping
/// space.
pub proof fn lemma_allocation_exclusive(s: Seq<Region>, b: int, e: int, x: int)
    requires
        wf_seq(s),
        0 <= b <= e <= usize::MAX,
        covers(subtract_seq(s, b, e), x),
    ensures
        covers(s, x),
        !(b <= x < e),
{
    lemma_subtract_seq_covers(s, b, e, subtract_seq(s, b, e));
}

} // verus!
