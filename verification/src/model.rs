//! The mathematical model of the two mutating operations.
//!
//! Under [`wf_seq`] the regions that overlap or touch a given interval form a
//! contiguous run of indices `[cut_lo, cut_hi)` of the stored sequence.
//! `add` replaces that run by its union with the interval; `subtract`
//! replaces it by the at most two remainders that lie outside the interval.
//! [`add_seq`] and [`subtract_seq`] state those results directly, and the
//! lemmas here establish the facts every contract of the allocator needs:
//! preservation of well-formedness and of separation, and the exact effect
//! on point coverage.

use vstd::prelude::*;

use crate::region::{covers, covers_closed, separated, touches, wf_seq, Region};

verus! {

/// The number of leading stored regions that lie entirely before `b`, i.e.
/// the length of the maximal prefix whose ends are below `b`.  Under
/// [`wf_seq`] this is the index of the first region that overlaps or touches
/// an interval starting at `b`, if any does.
pub open spec fn cut_lo(s: Seq<Region>, b: int) -> int
    decreases s.len(),
{
    if s.len() == 0 {
        0
    } else if s[0].end() < b {
        1 + cut_lo(s.drop_first(), b)
    } else {
        0
    }
}

/// The length of the maximal prefix of stored regions whose bases are at
/// most `e`.  Under [`wf_seq`] every region from this index on lies entirely
/// past an interval ending at `e`.
pub open spec fn cut_hi(s: Seq<Region>, e: int) -> int
    decreases s.len(),
{
    if s.len() == 0 {
        0
    } else if s[0].base <= e {
        1 + cut_hi(s.drop_first(), e)
    } else {
        0
    }
}

/// The single region that `add(b, e - b)` stores in place of the run of
/// overlapping or touching regions: its base is the least of `b` and the
/// run's bases, its end the greatest of `e` and the run's ends.
pub open spec fn merged_region(s: Seq<Region>, b: int, e: int) -> Region {
    let lo = cut_lo(s, b);
    let hi = cut_hi(s, e);
    let mb = if lo < hi && s[lo].base < b {
        s[lo].base as int
    } else {
        b
    };
    let me = if lo < hi && s[hi - 1].end() > e {
        s[hi - 1].end()
    } else {
        e
    };
    Region { base: mb as usize, size: (me - mb) as usize }
}

/// The sequence stored after `add(b, e - b)`: the regions before the run,
/// then the merged region, then the regions past the run.
pub open spec fn add_seq(s: Seq<Region>, b: int, e: int) -> Seq<Region> {
    let lo = cut_lo(s, b);
    let hi = cut_hi(s, e);
    s.subrange(0, lo) + seq![merged_region(s, b, e)] + s.subrange(hi, s.len() as int)
}

/// The part of a removed region `t` that lies before a subtracted interval
/// starting at `b`: `[t.base, t.base + min(t.size, b - t.base))`.  The size
/// is clamped to `t.size` so the remainder never exceeds the source region.
pub open spec fn left_piece(t: Region, b: int) -> Region {
    let sz = if b - t.base < t.size {
        b - t.base
    } else {
        t.size as int
    };
    Region { base: t.base, size: sz as usize }
}

/// The part of a removed region `t` that lies past a subtracted interval
/// ending at `e`: a region of size `min(t.size, t.end - e)` ending where `t`
/// ended, again clamped to the source region's size.
pub open spec fn right_piece(t: Region, e: int) -> Region {
    let sz = if t.end() - e < t.size {
        t.end() - e
    } else {
        t.size as int
    };
    Region { base: (t.end() - sz) as usize, size: sz as usize }
}

/// The remainders that `subtract(b, e - b)` stores in place of the run of
/// overlapping or touching regions.  Under [`wf_seq`] only the first region
/// of the run can reach below `b` and only the last can reach past `e`, so
/// at most two remainders arise.
pub open spec fn cut_pieces(s: Seq<Region>, b: int, e: int) -> Seq<Region> {
    let lo = cut_lo(s, b);
    let hi = cut_hi(s, e);
    let lefts: Seq<Region> = if lo < hi && s[lo].base < b {
        seq![left_piece(s[lo], b)]
    } else {
        Seq::empty()
    };
    let rights: Seq<Region> = if lo < hi && s[hi - 1].end() > e {
        seq![right_piece(s[hi - 1], e)]
    } else {
        Seq::empty()
    };
    lefts + rights
}

/// The sequence stored after `subtract(b, e - b)`: the regions before the
/// run, then the at most two remainders, then the regions past the run.
pub open spec fn subtract_seq(s: Seq<Region>, b: int, e: int) -> Seq<Region> {
    let lo = cut_lo(s, b);
    let hi = cut_hi(s, e);
    s.subrange(0, lo) + cut_pieces(s, b, e) + s.subrange(hi, s.len() as int)
}

/// `cut_lo` is a prefix length: everything before it ends below `b`, and the
/// region at it, if any, does not.
pub proof fn lemma_cut_lo_props(s: Seq<Region>, b: int)
    ensures
        0 <= cut_lo(s, b) <= s.len(),
        forall|i: int| 0 <= i < cut_lo(s, b) ==> (#[trigger] s[i]).end() < b,
        cut_lo(s, b) < s.len() ==> s[cut_lo(s, b)].end() >= b,
    decreases s.len(),
{
    if s.len() != 0 && s[0].end() < b {
        let rest = s.drop_first();
        lemma_cut_lo_props(rest, b);
        assert forall|i: int| 0 <= i < cut_lo(s, b) implies (#[trigger] s[i]).end() < b by {
            if i > 0 {
                assert(rest[i - 1] == s[i]);
                assert(rest[i - 1].end() < b);
            }
        }
        if cut_lo(s, b) < s.len() {
            assert(rest[cut_lo(rest, b)] == s[cut_lo(s, b)]);
        }
    }
}

/// Any index below which every end is below `b` bounds `cut_lo` from below.
pub proof fn lemma_cut_lo_ge(s: Seq<Region>, b: int, k: int)
    requires
        0 <= k <= s.len(),
        forall|i: int| 0 <= i < k ==> (#[trigger] s[i]).end() < b,
    ensures
        cut_lo(s, b) >= k,
    decreases s.len(),
{
    if k > 0 {
        let rest = s.drop_first();
        assert(s[0].end() < b);
        assert forall|i: int| 0 <= i < k - 1 implies (#[trigger] rest[i]).end() < b by {
            assert(rest[i] == s[i + 1]);
            assert(s[i + 1].end() < b);
        }
        lemma_cut_lo_ge(rest, b, k - 1);
        assert(cut_lo(s, b) == 1 + cut_lo(rest, b));
    } else {
        lemma_cut_lo_props(s, b);
    }
}

/// `cut_hi` is a prefix length: everything before it has base at most `e`,
/// and the region at it, if any, does not.
pub proof fn lemma_cut_hi_props(s: Seq<Region>, e: int)
    ensures
        0 <= cut_hi(s, e) <= s.len(),
        forall|i: int| 0 <= i < cut_hi(s, e) ==> (#[trigger] s[i]).base <= e,
        cut_hi(s, e) < s.len() ==> s[cut_hi(s, e)].base > e,
    decreases s.len(),
{
    if s.len() != 0 && s[0].base <= e {
        let rest = s.drop_first();
        lemma_cut_hi_props(rest, e);
        assert forall|i: int| 0 <= i < cut_hi(s, e) implies (#[trigger] s[i]).base <= e by {
            if i > 0 {
                assert(rest[i - 1] == s[i]);
                assert(rest[i - 1].base <= e);
            }
        }
        if cut_hi(s, e) < s.len() {
            assert(rest[cut_hi(rest, e)] == s[cut_hi(s, e)]);
        }
    }
}

/// Any index below which every base is at most `e` bounds `cut_hi` from
/// below.
pub proof fn lemma_cut_hi_ge(s: Seq<Region>, e: int, k: int)
    requires
        0 <= k <= s.len(),
        forall|i: int| 0 <= i < k ==> (#[trigger] s[i]).base <= e,
    ensures
        cut_hi(s, e) >= k,
    decreases s.len(),
{
    if k > 0 {
        let rest = s.drop_first();
        assert(s[0].base <= e);
        assert forall|i: int| 0 <= i < k - 1 implies (#[trigger] rest[i]).base <= e by {
            assert(rest[i] == s[i + 1]);
            assert(s[i + 1].base <= e);
        }
        lemma_cut_hi_ge(rest, e, k - 1);
        assert(cut_hi(s, e) == 1 + cut_hi(rest, e));
    } else {
        lemma_cut_hi_props(s, e);
    }
}

/// Under [`wf_seq`] the two cuts bracket exactly the regions that overlap or
/// touch `[b, e)`: the run `[cut_lo, cut_hi)` consists of the touching
/// regions, everything before it ends below `b`, and everything past it
/// starts past `e`.
pub proof fn lemma_cut_run(s: Seq<Region>, b: int, e: int)
    requires
        wf_seq(s),
        b <= e,
    ensures
        0 <= cut_lo(s, b) <= cut_hi(s, e) <= s.len(),
        forall|i: int| 0 <= i < cut_lo(s, b) ==> (#[trigger] s[i]).end() < b,
        forall|i: int| cut_lo(s, b) <= i < cut_hi(s, e) ==> touches(#[trigger] s[i], b, e),
        forall|i: int| cut_hi(s, e) <= i < s.len() ==> (#[trigger] s[i]).base > e,
{
    let lo = cut_lo(s, b);
    let hi = cut_hi(s, e);
    lemma_cut_lo_props(s, b);
    lemma_cut_hi_props(s, e);
    assert(forall|i: int| 0 <= i < lo ==> (#[trigger] s[i]).base <= e) by {
        assert forall|i: int| 0 <= i < lo implies (#[trigger] s[i]).base <= e by {
            assert(s[i].end() < b);
        }
    }
    lemma_cut_hi_ge(s, e, lo);
    assert forall|i: int| lo <= i < hi implies touches(#[trigger] s[i], b, e) by {
        assert(s[i].base <= e);
        if i == lo {
            assert(s[i].end() >= b);
        } else {
            assert(s[lo].end() <= s[i].base);
            assert(s[lo].end() >= b);
        }
    }
    assert forall|i: int| hi <= i < s.len() implies (#[trigger] s[i]).base > e by {
        if i > hi {
            assert(s[hi].base < s[i].base);
        }
    }
}

/// The merged region's bounds: it reaches at least from `b` to `e`, it
/// encloses every region of the run, and each of its endpoints is either the
/// corresponding endpoint of the interval or of the run's outermost region.
pub proof fn lemma_merged_region_facts(s: Seq<Region>, b: int, e: int)
    requires
        wf_seq(s),
        0 <= b <= e <= usize::MAX,
    ensures
        ({
            let lo = cut_lo(s, b);
            let hi = cut_hi(s, e);
            let m = merged_region(s, b, e);
            &&& m.base <= b
            &&& e <= m.end() <= usize::MAX
            &&& forall|i: int|
                lo <= i < hi ==> m.base <= (#[trigger] s[i]).base && s[i].end() <= m.end()
            &&& m.base == if lo < hi && s[lo].base < b {
                s[lo].base as int
            } else {
                b
            }
            &&& m.end() == if lo < hi && s[hi - 1].end() > e {
                s[hi - 1].end()
            } else {
                e
            }
        }),
{
    let lo = cut_lo(s, b);
    let hi = cut_hi(s, e);
    let m = merged_region(s, b, e);
    lemma_cut_run(s, b, e);
    let mb: int = if lo < hi && s[lo].base < b {
        s[lo].base as int
    } else {
        b
    };
    let me: int = if lo < hi && s[hi - 1].end() > e {
        s[hi - 1].end()
    } else {
        e
    };
    assert(0 <= mb <= b);
    assert(e <= me <= usize::MAX);
    assert(m.base == mb as usize);
    assert(m.size == (me - mb) as usize);
    assert forall|i: int| lo <= i < hi implies m.base <= (#[trigger] s[i]).base
        && s[i].end() <= m.end() by {
        if lo < i {
            assert(s[lo].base < s[i].base);
        }
        if i < hi - 1 {
            assert(s[i].end() <= s[hi - 1].base);
        }
    }
}

/// `add` keeps the stored sequence well-formed, and keeps it separated if it
/// was separated.
pub proof fn lemma_add_seq_wf(s: Seq<Region>, b: int, e: int)
    requires
        wf_seq(s),
        0 <= b <= e <= usize::MAX,
    ensures
        wf_seq(add_seq(s, b, e)),
        separated(s) ==> separated(add_seq(s, b, e)),
{
    let lo = cut_lo(s, b);
    let hi = cut_hi(s, e);
    let m = merged_region(s, b, e);
    let a = add_seq(s, b, e);
    lemma_cut_run(s, b, e);
    lemma_merged_region_facts(s, b, e);
    assert(a.len() == lo + 1 + (s.len() - hi));
    assert(a[lo as int] == m);
    assert(forall|i: int| 0 <= i < lo ==> a[i] == s[i]);
    assert(forall|j: int| lo < j < a.len() ==> a[j] == s[j - lo - 1 + hi]);

    assert forall|i: int, j: int| 0 <= i < j < a.len() implies (#[trigger] a[i]).end()
        <= (#[trigger] a[j]).base && a[i].base < a[j].base by {
        if j < lo {
            // both in the kept prefix
        } else if i < lo && j == lo {
            assert(s[i].end() < b);
            if lo < hi && s[lo].base < b {
                assert(s[i].end() <= s[lo].base);
                assert(s[i].base < s[lo].base);
            }
        } else if i == lo {
            let j2 = j - lo - 1 + hi;
            assert(a[j] == s[j2]);
            assert(s[j2].base > e);
            if lo < hi && s[hi - 1].end() > e {
                assert(s[hi - 1].end() <= s[j2].base);
            }
        } else if i < lo && j > lo {
            let j2 = j - lo - 1 + hi;
            assert(a[j] == s[j2]);
        } else {
            // both in the kept suffix
            let i2 = i - lo - 1 + hi;
            let j2 = j - lo - 1 + hi;
            assert(a[i] == s[i2] && a[j] == s[j2]);
        }
    }
    assert forall|i: int| 0 <= i < a.len() implies (#[trigger] a[i]).end() <= usize::MAX by {
        if i < lo {
            assert(a[i] == s[i]);
        } else if i > lo {
            assert(a[i] == s[i - lo - 1 + hi]);
        }
    }
    assert(wf_seq(a));

    if separated(s) {
        assert forall|i: int, j: int| 0 <= i < j < a.len() implies (#[trigger] a[i]).end()
            < (#[trigger] a[j]).base by {
            if j < lo {
            } else if i < lo && j == lo {
                assert(s[i].end() < b);
                if lo < hi && s[lo].base < b {
                    assert(s[i].end() < s[lo].base);
                }
            } else if i == lo {
                let j2 = j - lo - 1 + hi;
                assert(a[j] == s[j2]);
                assert(s[j2].base > e);
                if lo < hi && s[hi - 1].end() > e {
                    assert(s[hi - 1].end() < s[j2].base);
                }
            } else if i < lo && j > lo {
                assert(a[j] == s[j - lo - 1 + hi]);
            } else {
                assert(a[i] == s[i - lo - 1 + hi] && a[j] == s[j - lo - 1 + hi]);
            }
        }
    }
}

/// A point is covered after `add` exactly when it was covered before or lies
/// in the added interval: half-open for the half-open reading, inclusive at
/// both ends for the closed reading that `check_point` uses.  The result
/// sequence is a parameter so that a caller's own name for it appears in the
/// conclusion.
pub proof fn lemma_add_seq_covers(s: Seq<Region>, b: int, e: int, a: Seq<Region>)
    requires
        wf_seq(s),
        0 <= b <= e <= usize::MAX,
        a == add_seq(s, b, e),
    ensures
        forall|x: int| covers(a, x) <==> covers(s, x) || (b <= x < e),
        forall|x: int| covers_closed(a, x) <==> covers_closed(s, x) || (b <= x <= e),
{
    let lo = cut_lo(s, b);
    let hi = cut_hi(s, e);
    let m = merged_region(s, b, e);
    lemma_cut_run(s, b, e);
    lemma_merged_region_facts(s, b, e);
    assert(a.len() == lo + 1 + (s.len() - hi));
    assert(a[lo as int] == m);
    assert(forall|i: int| 0 <= i < lo ==> a[i] == s[i]);
    assert(forall|j: int| lo < j < a.len() ==> a[j] == s[j - lo - 1 + hi]);

    assert forall|x: int| covers(a, x) <==> covers(s, x) || (b <= x < e) by {
        if covers(a, x) {
            let k = choose|k: int| 0 <= k < a.len() && (#[trigger] a[k]).base <= x < a[k].end();
            if k < lo {
                assert(a[k] == s[k]);
                assert(covers(s, x));
            } else if k > lo {
                assert(a[k] == s[k - lo - 1 + hi]);
                assert(covers(s, x));
            } else {
                if x < b {
                    assert(lo < hi && s[lo].base < b);
                    assert(s[lo].base <= x < s[lo].end());
                    assert(covers(s, x));
                } else if x >= e {
                    assert(lo < hi && s[hi - 1].end() > e);
                    assert(s[hi - 1].base <= x < s[hi - 1].end());
                    assert(covers(s, x));
                }
            }
        }
        if covers(s, x) {
            let i = choose|i: int| 0 <= i < s.len() && (#[trigger] s[i]).base <= x < s[i].end();
            if i < lo {
                assert(a[i] == s[i]);
                assert(covers(a, x));
            } else if i >= hi {
                assert(a[i - hi + lo + 1] == s[i]);
                assert(covers(a, x));
            } else {
                assert(m.base <= x < m.end());
                assert(covers(a, x));
            }
        }
        if b <= x < e {
            assert(m.base <= x < m.end());
            assert(covers(a, x));
        }
    }

    assert forall|x: int| covers_closed(a, x) <==> covers_closed(s, x) || (b <= x <= e) by {
        if covers_closed(a, x) {
            let k = choose|k: int| 0 <= k < a.len() && (#[trigger] a[k]).base <= x <= a[k].end();
            if k < lo {
                assert(a[k] == s[k]);
                assert(covers_closed(s, x));
            } else if k > lo {
                assert(a[k] == s[k - lo - 1 + hi]);
                assert(covers_closed(s, x));
            } else {
                if x < b {
                    assert(lo < hi && s[lo].base < b);
                    assert(s[lo].base <= x <= s[lo].end());
                    assert(covers_closed(s, x));
                } else if x > e {
                    assert(lo < hi && s[hi - 1].end() > e);
                    assert(s[hi - 1].base <= x <= s[hi - 1].end());
                    assert(covers_closed(s, x));
                }
            }
        }
        if covers_closed(s, x) {
            let i = choose|i: int| 0 <= i < s.len() && (#[trigger] s[i]).base <= x <= s[i].end();
            if i < lo {
                assert(a[i] == s[i]);
                assert(covers_closed(a, x));
            } else if i >= hi {
                assert(a[i - hi + lo + 1] == s[i]);
                assert(covers_closed(a, x));
            } else {
                assert(m.base <= x <= m.end());
                assert(covers_closed(a, x));
            }
        }
        if b <= x <= e {
            assert(m.base <= x <= m.end());
            assert(covers_closed(a, x));
        }
    }
}

/// The shape of the remainders of a subtraction: the left remainder, when
/// present, is `[s[lo].base, b)`; the right remainder, when present, is
/// `[e, s[hi - 1].end)`.  (The size clamps in their definitions never bite,
/// because the outermost run regions overlap or touch the interval.)
pub proof fn lemma_cut_pieces_facts(s: Seq<Region>, b: int, e: int)
    requires
        wf_seq(s),
        0 <= b <= e <= usize::MAX,
    ensures
        ({
            let lo = cut_lo(s, b);
            let hi = cut_hi(s, e);
            let pc = cut_pieces(s, b, e);
            let has_left = lo < hi && s[lo].base < b;
            let has_right = lo < hi && s[hi - 1].end() > e;
            &&& pc.len() == (if has_left { 1 as int } else { 0 }) + (if has_right { 1 as int } else { 0 })
            &&& has_left ==> pc[0] == (Region { base: s[lo].base, size: (b - s[lo].base) as usize })
            &&& has_right ==> pc[pc.len() - 1] == (Region {
                base: e as usize,
                size: (s[hi - 1].end() - e) as usize,
            })
        }),
{
    let lo = cut_lo(s, b);
    let hi = cut_hi(s, e);
    lemma_cut_run(s, b, e);
    if lo < hi {
        assert(touches(s[lo], b, e));
        assert(touches(s[hi - 1], b, e));
        if s[lo].base < b {
            // the left clamp never bites: b - base <= size because end >= b
            assert(b - s[lo].base <= s[lo].size);
        }
        if s[hi - 1].end() > e {
            // the right clamp never bites: end - e <= size because base <= e
            assert(s[hi - 1].end() - e <= s[hi - 1].size);
        }
    }
}

/// `subtract` keeps the stored sequence well-formed.
pub proof fn lemma_subtract_seq_wf(s: Seq<Region>, b: int, e: int)
    requires
        wf_seq(s),
        0 <= b <= e <= usize::MAX,
    ensures
        wf_seq(subtract_seq(s, b, e)),
{
    let lo = cut_lo(s, b);
    let hi = cut_hi(s, e);
    let pc = cut_pieces(s, b, e);
    let pl = pc.len() as int;
    let r = subtract_seq(s, b, e);
    lemma_cut_run(s, b, e);
    lemma_cut_pieces_facts(s, b, e);
    assert(r.len() == lo + pl + (s.len() - hi));
    assert(forall|i: int| 0 <= i < lo ==> r[i] == s[i]);
    assert(forall|i: int| 0 <= i < pl ==> r[lo + i] == pc[i]);
    assert(forall|j: int| lo + pl <= j < r.len() ==> r[j] == s[j - lo - pl + hi]);
    let has_left = lo < hi && s[lo].base < b;
    let has_right = lo < hi && s[hi - 1].end() > e;

    assert forall|i: int, j: int| 0 <= i < j < r.len() implies (#[trigger] r[i]).end()
        <= (#[trigger] r[j]).base && r[i].base < r[j].base by {
        if j < lo {
        } else if i < lo && lo <= j < lo + pl {
            assert(s[i].end() < b);
            if has_left && j == lo {
                assert(s[i].end() <= s[lo].base && s[i].base < s[lo].base);
            } else {
                assert(r[j].base == e);
            }
        } else if lo <= i < lo + pl && lo <= j < lo + pl {
            // left remainder before right remainder
            assert(r[i].base == s[lo].base && r[i].end() == b);
            assert(r[j].base == e);
        } else if i < lo && j >= lo + pl {
            assert(r[j] == s[j - lo - pl + hi]);
        } else if lo <= i < lo + pl && j >= lo + pl {
            let j2 = j - lo - pl + hi;
            assert(r[j] == s[j2]);
            assert(s[j2].base > e);
            if has_left && i == lo {
                assert(r[i].end() == b);
                assert(s[lo].base < s[j2].base);
            } else {
                assert(r[i].end() == s[hi - 1].end());
                assert(s[hi - 1].end() <= s[j2].base);
            }
        } else {
            assert(r[i] == s[i - lo - pl + hi] && r[j] == s[j - lo - pl + hi]);
        }
    }
    assert forall|i: int| 0 <= i < r.len() implies (#[trigger] r[i]).end() <= usize::MAX by {
        if i < lo {
            assert(r[i] == s[i]);
        } else if i >= lo + pl {
            assert(r[i] == s[i - lo - pl + hi]);
        } else if has_left && i == lo {
            assert(r[i].end() == b);
        } else {
            assert(r[i].end() == s[hi - 1].end());
        }
    }
    assert(wf_seq(r));
}

/// When the subtracted interval is non-empty, `subtract` keeps the set
/// separated.  (A zero-size subtraction that splits a region leaves the two
/// halves adjacent; that is the one way adjacency can arise.)
pub proof fn lemma_subtract_seq_separated(s: Seq<Region>, b: int, e: int)
    requires
        wf_seq(s),
        0 <= b <= e <= usize::MAX,
    ensures
        separated(s) && b < e ==> separated(subtract_seq(s, b, e)),
{
    let lo = cut_lo(s, b);
    let hi = cut_hi(s, e);
    let pc = cut_pieces(s, b, e);
    let pl = pc.len() as int;
    let r = subtract_seq(s, b, e);
    lemma_cut_run(s, b, e);
    lemma_cut_pieces_facts(s, b, e);
    assert(r.len() == lo + pl + (s.len() - hi));
    assert(forall|i: int| 0 <= i < lo ==> r[i] == s[i]);
    assert(forall|i: int| 0 <= i < pl ==> r[lo + i] == pc[i]);
    assert(forall|j: int| lo + pl <= j < r.len() ==> r[j] == s[j - lo - pl + hi]);
    let has_left = lo < hi && s[lo].base < b;

    if separated(s) && b < e {
        assert forall|i: int, j: int| 0 <= i < j < r.len() implies (#[trigger] r[i]).end()
            < (#[trigger] r[j]).base by {
            if j < lo {
            } else if i < lo && lo <= j < lo + pl {
                assert(s[i].end() < b);
                if has_left && j == lo {
                    assert(s[i].end() < s[lo].base);
                } else {
                    assert(r[j].base == e);
                }
            } else if lo <= i < lo + pl && lo <= j < lo + pl {
                assert(r[i].end() == b);
                assert(r[j].base == e);
            } else if i < lo && j >= lo + pl {
                assert(r[j] == s[j - lo - pl + hi]);
            } else if lo <= i < lo + pl && j >= lo + pl {
                let j2 = j - lo - pl + hi;
                assert(r[j] == s[j2]);
                assert(s[j2].base > e);
                if has_left && i == lo {
                    assert(r[i].end() == b);
                } else {
                    assert(r[i].end() == s[hi - 1].end());
                    assert(s[hi - 1].end() < s[j2].base);
                }
            } else {
                assert(r[i] == s[i - lo - pl + hi] && r[j] == s[j - lo - pl + hi]);
            }
        }
    }
}

/// A point is covered after `subtract` exactly when it was covered before
/// and does not lie in the subtracted half-open interval.  The result
/// sequence is a parameter so that a caller's own name for it appears in the
/// conclusion.
#[verifier::rlimit(40)]
pub proof fn lemma_subtract_seq_covers(s: Seq<Region>, b: int, e: int, r: Seq<Region>)
    requires
        wf_seq(s),
        0 <= b <= e <= usize::MAX,
        r == subtract_seq(s, b, e),
    ensures
        forall|x: int| covers(r, x) <==> covers(s, x) && !(b <= x < e),
{
    let lo = cut_lo(s, b);
    let hi = cut_hi(s, e);
    let pc = cut_pieces(s, b, e);
    let pl = pc.len() as int;
    lemma_cut_run(s, b, e);
    lemma_cut_pieces_facts(s, b, e);
    assert(r.len() == lo + pl + (s.len() - hi));
    assert(forall|i: int| 0 <= i < lo ==> r[i] == s[i]);
    assert(forall|i: int| 0 <= i < pl ==> r[lo + i] == pc[i]);
    assert(forall|j: int| lo + pl <= j < r.len() ==> r[j] == s[j - lo - pl + hi]);
    let has_left = lo < hi && s[lo].base < b;
    let has_right = lo < hi && s[hi - 1].end() > e;

    assert forall|x: int| covers(r, x) <==> covers(s, x) && !(b <= x < e) by {
        if covers(r, x) {
            let k = choose|k: int| 0 <= k < r.len() && (#[trigger] r[k]).base <= x < r[k].end();
            if k < lo {
                assert(r[k] == s[k]);
                assert(covers(s, x) && x < b);
            } else if k >= lo + pl {
                let k2 = k - lo - pl + hi;
                assert(r[k] == s[k2]);
                assert(covers(s, x) && x > e);
            } else if has_left && k == lo {
                assert(s[lo].base <= x < b);
                assert(x < s[lo].end());
                assert(covers(s, x));
            } else {
                assert(r[k].base == e && r[k].end() == s[hi - 1].end());
                assert(s[hi - 1].base <= x < s[hi - 1].end());
                assert(covers(s, x) && x >= e);
            }
        }
        if covers(s, x) && !(b <= x < e) {
            let i = choose|i: int| 0 <= i < s.len() && (#[trigger] s[i]).base <= x < s[i].end();
            if i < lo {
                assert(r[i] == s[i]);
                assert(covers(r, x));
            } else if i >= hi {
                assert(r[i - hi + lo + pl] == s[i]);
                assert(covers(r, x));
            } else if x < b {
                // only the first run region reaches below b
                if i > lo {
                    assert(s[lo].end() <= s[i].base);
                    assert(s[lo].end() >= b);
                }
                assert(i == lo && has_left);
                assert(r[lo].base == s[lo].base && r[lo].end() == b);
                assert(covers(r, x));
            } else {
                // x >= e: only the last run region reaches past e
                if i < hi - 1 {
                    assert(s[i].end() <= s[hi - 1].base);
                    assert(s[hi - 1].base <= e);
                }
                assert(i == hi - 1 && has_right);
                assert(r[lo + pl - 1].base == e && r[lo + pl - 1].end() == s[hi - 1].end());
                assert(covers(r, x));
            }
        }
    }
}

/// `n` is a power of two.  Size-based allocation rejects every other
/// alignment out of hand.
pub open spec fn is_power_of_two(n: int) -> bool
    decreases n,
{
    if n <= 0 {
        false
    } else if n == 1 {
        true
    } else {
        n % 2 == 0 && is_power_of_two(n / 2)
    }
}

/// The least multiple of `a` that is at least `b`, for positive `a`: the
/// aligned base at which an allocation inside a region starting at `b`
/// would be placed.
pub open spec fn align_up(b: int, a: int) -> int {
    if b % a == 0 {
        b
    } else {
        b + a - b % a
    }
}

/// Region `r` can host a block of `size` addresses whose base is aligned to
/// `alignment`: the region is large enough at all, and the aligned base
/// still leaves room for the block before the region's end.
pub open spec fn fits(r: Region, size: int, alignment: int) -> bool {
    size <= r.size && align_up(r.base as int, alignment) + size <= r.end()
}

/// The index of the first stored region that can host such a block, or the
/// length of the sequence when none can.  Because the sequence is sorted by
/// base, this is the lowest-base feasible region.
pub open spec fn first_fit(s: Seq<Region>, size: int, alignment: int) -> int
    decreases s.len(),
{
    if s.len() == 0 {
        0
    } else if fits(s[0], size, alignment) {
        0
    } else {
        1 + first_fit(s.drop_first(), size, alignment)
    }
}

/// `first_fit` is a prefix length: no region before it fits, and the region
/// at it, if any, fits.
pub proof fn lemma_first_fit_props(s: Seq<Region>, size: int, alignment: int)
    ensures
        0 <= first_fit(s, size, alignment) <= s.len(),
        forall|i: int|
            0 <= i < first_fit(s, size, alignment) ==> !fits(#[trigger] s[i], size, alignment),
        first_fit(s, size, alignment) < s.len() ==> fits(
            s[first_fit(s, size, alignment)],
            size,
            alignment,
        ),
    decreases s.len(),
{
    let ff = first_fit(s, size, alignment);
    if s.len() != 0 && !fits(s[0], size, alignment) {
        let rest = s.drop_first();
        lemma_first_fit_props(rest, size, alignment);
        assert forall|i: int| 0 <= i < ff implies !fits(#[trigger] s[i], size, alignment) by {
            if i > 0 {
                assert(rest[i - 1] == s[i]);
                assert(!fits(rest[i - 1], size, alignment));
            }
        }
        if ff < s.len() {
            assert(rest[first_fit(rest, size, alignment)] == s[ff]);
        }
    }
}

} // verus!
