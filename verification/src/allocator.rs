//! The region allocator: a canonical set of disjoint half-open intervals,
//! stored as a vector sorted by base address, mutated in place by `add`,
//! `subtract` and the two allocation operations.

use vstd::prelude::*;

use crate::model::{
    add_seq, align_up, cut_hi, cut_lo, cut_pieces, first_fit, fits, is_power_of_two,
    left_piece, lemma_add_seq_covers,
    lemma_add_seq_wf, lemma_cut_pieces_facts, lemma_cut_run, lemma_first_fit_props,
    lemma_merged_region_facts, lemma_subtract_seq_covers, lemma_subtract_seq_separated,
    lemma_subtract_seq_wf, merged_region, right_piece, subtract_seq,
};
use crate::region::{covers, covers_closed, has_container, separated, wf_seq, Region};

verus! {

/// An endpoint-based region allocator.
///
/// It owns a set of [`Region`] values with the invariant that no two stored
/// regions overlap; the mutating operations merge any entries that overlap
/// or touch the range they are given, so after a sequence of non-degenerate
/// operations no two stored regions are even adjacent.  The vector is kept
/// sorted by base address, which is also the order in which allocation scans
/// the regions.
pub struct RegionAllocator {
    regions: Vec<Region>,
}

impl View for RegionAllocator {
    type V = Seq<Region>;

    closed spec fn view(&self) -> Seq<Region> {
        self.regions@
    }
}

impl RegionAllocator {
    /// Create an empty [`RegionAllocator`].
    pub fn new() -> (r: Self)
        ensures
            r@ == Seq::<Region>::empty(),
            wf_seq(r@),
            separated(r@),
    {
        let r = RegionAllocator { regions: Vec::new() };
        proof {
            assert(r@ =~= Seq::<Region>::empty());
        }
        r
    }

    /// Add the region `[base, base + size)` to the set.
    /// The left endpoint is inclusive, and the right endpoint is exclusive.
    ///
    /// Every stored region that overlaps or touches the new one is merged
    /// into it, so in the final set no two regions intersect: if both
    /// `[0, 10)` and `[10, 20)` are added sequentially, only `[0, 20)`
    /// remains stored.  `base + size` must not overflow the address space;
    /// that is the caller's contract.
    #[verifier::loop_isolation(false)]
    pub fn add(&mut self, base: usize, size: usize)
        requires
            wf_seq(old(self)@),
            base + size <= usize::MAX,
        ensures
            final(self)@ == add_seq(old(self)@, base as int, base + size),
            wf_seq(final(self)@),
            separated(old(self)@) ==> separated(final(self)@),
            forall|x: int|
                covers(final(self)@, x) <==> covers(old(self)@, x) || (base <= x < base + size),
            forall|x: int|
                covers_closed(final(self)@, x) <==> covers_closed(old(self)@, x) || (base <= x
                    <= base + size),
    {
        let e = base + size;
        let ghost s = self@;
        let ghost bi = base as int;
        let ghost ei = e as int;
        proof {
            lemma_cut_run(s, bi, ei);
            lemma_merged_region_facts(s, bi, ei);
            lemma_add_seq_wf(s, bi, ei);
        }
        let ghost lo = cut_lo(s, bi);
        let ghost hi = cut_hi(s, ei);
        let n = self.regions.len();
        let mut out: Vec<Region> = Vec::new();
        let mut i: usize = 0;
        // keep the regions that lie entirely before the new one
        while i < n && self.regions[i].base + self.regions[i].size < base
            invariant
                i <= lo,
                out@ == s.subrange(0, i as int),
            decreases n - i,
        {
            out.push(self.regions[i]);
            i = i + 1;
            proof {
                assert(out@ =~= s.subrange(0, i as int));
            }
        }
        proof {
            assert(i == lo);
        }
        // absorb the run of regions that overlap or touch `[base, e)`
        let mut mb = base;
        let mut me = e;
        while i < n && self.regions[i].base <= e
            invariant
                lo <= i <= hi,
                out@ == s.subrange(0, lo as int),
                mb as int == if lo < i && s[lo as int].base < bi {
                    s[lo as int].base as int
                } else {
                    bi
                },
                me as int == if lo < i && s[i as int - 1].end() > ei {
                    s[i as int - 1].end()
                } else {
                    ei
                },
            decreases n - i,
        {
            proof {
                if lo < i {
                    assert(s[i as int - 1].end() <= s[i as int].base);
                }
            }
            let r = self.regions[i];
            if r.base < mb {
                mb = r.base;
            }
            let rend = r.base + r.size;
            if rend > me {
                me = rend;
            }
            i = i + 1;
        }
        proof {
            assert(i == hi);
        }
        out.push(Region { base: mb, size: me - mb });
        proof {
            assert(Region { base: mb, size: (me - mb) as usize } == merged_region(s, bi, ei));
            assert(out@ =~= s.subrange(0, lo as int) + seq![merged_region(s, bi, ei)]);
        }
        // keep the regions that lie entirely past the new one
        while i < n
            invariant
                hi <= i <= n,
                out@ == s.subrange(0, lo as int) + seq![merged_region(s, bi, ei)] + s.subrange(
                    hi as int,
                    i as int,
                ),
            decreases n - i,
        {
            out.push(self.regions[i]);
            i = i + 1;
            proof {
                assert(out@ =~= s.subrange(0, lo as int) + seq![merged_region(s, bi, ei)]
                    + s.subrange(hi as int, i as int));
            }
        }
        self.regions = out;
        proof {
            assert(self@ =~= add_seq(s, bi, ei));
            lemma_add_seq_covers(s, bi, ei, self@);
        }
    }

    /// Subtract the region `[base, base + size)` from every stored region.
    ///
    /// Afterwards no stored region intersects the given range: a region
    /// wholly contained in it disappears, and one that reaches beyond it on
    /// either side is trimmed, or split into two remainders.  `base + size`
    /// must not overflow the address space; that is the caller's contract.
    #[verifier::loop_isolation(false)]
    #[verifier::rlimit(40)]
    pub fn subtract(&mut self, base: usize, size: usize)
        requires
            wf_seq(old(self)@),
            base + size <= usize::MAX,
        ensures
            final(self)@ == subtract_seq(old(self)@, base as int, base + size),
            wf_seq(final(self)@),
            separated(old(self)@) && size > 0 ==> separated(final(self)@),
            forall|x: int|
                covers(final(self)@, x) <==> covers(old(self)@, x) && !(base <= x < base + size),
    {
        let e = base + size;
        let ghost s = self@;
        let ghost bi = base as int;
        let ghost ei = e as int;
        proof {
            lemma_cut_run(s, bi, ei);
            lemma_cut_pieces_facts(s, bi, ei);
            lemma_subtract_seq_wf(s, bi, ei);
            lemma_subtract_seq_separated(s, bi, ei);
        }
        let ghost lo = cut_lo(s, bi);
        let ghost hi = cut_hi(s, ei);
        let n = self.regions.len();
        let mut out: Vec<Region> = Vec::new();
        let mut i: usize = 0;
        // keep the regions that lie entirely before the subtracted range
        while i < n && self.regions[i].base + self.regions[i].size < base
            invariant
                i <= lo,
                out@ == s.subrange(0, i as int),
            decreases n - i,
        {
            out.push(self.regions[i]);
            i = i + 1;
            proof {
                assert(out@ =~= s.subrange(0, i as int));
            }
        }
        proof {
            assert(i == lo);
        }
        // replace the run of regions that overlap or touch the range by
        // their remainders outside it
        while i < n && self.regions[i].base <= e
            invariant
                lo <= i <= hi,
                out@ == s.subrange(0, lo as int) + (if lo < i && s[lo as int].base < bi {
                    seq![left_piece(s[lo as int], bi)]
                } else {
                    Seq::<Region>::empty()
                }) + (if lo < i && s[i as int - 1].end() > ei {
                    seq![right_piece(s[i as int - 1], ei)]
                } else {
                    Seq::<Region>::empty()
                }),
            decreases n - i,
        {
            proof {
                if lo < i {
                    assert(s[i as int - 1].end() <= s[i as int].base);
                }
                if i > lo {
                    assert(s[lo as int].end() <= s[i as int].base);
                    assert(s[lo as int].end() >= bi);
                }
            }
            let t = self.regions[i];
            if t.base < base {
                let lsz = if base - t.base < t.size {
                    base - t.base
                } else {
                    t.size
                };
                out.push(Region { base: t.base, size: lsz });
            }
            let tend = t.base + t.size;
            if tend > e {
                let rsz = if tend - e < t.size {
                    tend - e
                } else {
                    t.size
                };
                out.push(Region { base: tend - rsz, size: rsz });
            }
            i = i + 1;
            proof {
                assert(out@ =~= s.subrange(0, lo as int) + (if lo < i && s[lo as int].base < bi {
                    seq![left_piece(s[lo as int], bi)]
                } else {
                    Seq::<Region>::empty()
                }) + (if lo < i && s[i as int - 1].end() > ei {
                    seq![right_piece(s[i as int - 1], ei)]
                } else {
                    Seq::<Region>::empty()
                }));
            }
        }
        proof {
            assert(i == hi);
            assert(out@ =~= s.subrange(0, lo as int) + cut_pieces(s, bi, ei));
        }
        // keep the regions that lie entirely past the subtracted range
        while i < n
            invariant
                hi <= i <= n,
                out@ == s.subrange(0, lo as int) + cut_pieces(s, bi, ei)
                    + s.subrange(hi as int, i as int),
            decreases n - i,
        {
            out.push(self.regions[i]);
            i = i + 1;
            proof {
                assert(out@ =~= s.subrange(0, lo as int) + cut_pieces(s, bi, ei)
                    + s.subrange(hi as int, i as int));
            }
        }
        self.regions = out;
        proof {
            assert(self@ =~= subtract_seq(s, bi, ei));
            lemma_subtract_seq_covers(s, bi, ei, self@);
        }
    }

    /// Dispatch to [`Self::add`] or [`Self::subtract`] on a flag.
    pub fn add_or_subtract(&mut self, base: usize, size: usize, is_add: bool)
        requires
            wf_seq(old(self)@),
            base + size <= usize::MAX,
        ensures
            final(self)@ == if is_add {
                add_seq(old(self)@, base as int, base + size)
            } else {
                subtract_seq(old(self)@, base as int, base + size)
            },
            wf_seq(final(self)@),
            separated(old(self)@) && (is_add || size > 0) ==> separated(final(self)@),
    {
        if is_add {
            self.add(base, size);
        } else {
            self.subtract(base, size);
        }
    }

    /// Find if any stored region perfectly matches the given range: an exact
    /// membership test, not a containment test.
    #[verifier::loop_isolation(false)]
    pub fn check_region(&self, base: usize, size: usize) -> (r: bool)
        ensures
            r == self@.contains(Region { base, size }),
    {
        let n = self.regions.len();
        let mut i: usize = 0;
        while i < n
            invariant
                i <= n,
                forall|j: int| 0 <= j < i ==> #[trigger] self@[j] != (Region { base, size }),
            decreases n - i,
        {
            let t = self.regions[i];
            if t.base == base && t.size == size {
                proof {
                    assert(self@[i as int] == Region { base, size });
                }
                return true;
            }
            i = i + 1;
        }
        false
    }

    /// Return the number of regions in the set.
    pub fn len(&self) -> (n: usize)
        ensures
            n == self@.len(),
    {
        self.regions.len()
    }

    /// Whether the set holds no region at all.
    pub fn is_empty(&self) -> (r: bool)
        ensures
            r == (self@.len() == 0),
    {
        self.regions.len() == 0
    }

    /// Check whether the point is covered.  The test is inclusive at both
    /// ends: `addr` counts as covered by a stored region `[base, base +
    /// size)` even when it equals `base + size`, unlike the half-open
    /// convention every other operation uses.
    #[verifier::loop_isolation(false)]
    pub fn check_point(&self, addr: usize) -> (r: bool)
        requires
            wf_seq(self@),
        ensures
            r == covers_closed(self@, addr as int),
    {
        let n = self.regions.len();
        let mut i: usize = 0;
        while i < n
            invariant
                i <= n,
                forall|j: int|
                    0 <= j < i ==> !((#[trigger] self@[j]).base <= addr as int
                        <= self@[j].end()),
            decreases n - i,
        {
            let t = self.regions[i];
            if t.base <= addr && addr <= t.base + t.size {
                proof {
                    assert(self@[i as int].base <= addr as int <= self@[i as int].end());
                }
                return true;
            }
            i = i + 1;
        }
        false
    }

    /// Allocate the exact range `[base, base + size)`: succeeds, and
    /// subtracts the range from the set, if and only if a single stored
    /// region wholly contains it.  `base + size` must not overflow the
    /// address space; that is the caller's contract.
    #[verifier::loop_isolation(false)]
    pub fn allocate_by_addr(&mut self, base: usize, size: usize) -> (ok: bool)
        requires
            wf_seq(old(self)@),
            base + size <= usize::MAX,
        ensures
            ok == has_container(old(self)@, base as int, base + size),
            !ok ==> final(self)@ == old(self)@,
            ok ==> final(self)@ == subtract_seq(old(self)@, base as int, base + size),
            ok ==> forall|x: int| base <= x < base + size ==> covers(old(self)@, x),
            ok ==> forall|x: int|
                covers(final(self)@, x) <==> covers(old(self)@, x) && !(base <= x < base + size),
            wf_seq(final(self)@),
            separated(old(self)@) && (size > 0 || !ok) ==> separated(final(self)@),
    {
        let ghost s = self@;
        let ghost bi = base as int;
        let e = base + size;
        let ghost ei = e as int;
        let n = self.regions.len();
        let mut i: usize = 0;
        let mut found = false;
        while i < n
            invariant
                i <= n,
                found == exists|j: int|
                    0 <= j < i && (#[trigger] s[j]).base <= bi && ei <= s[j].end(),
            decreases n - i,
        {
            let t = self.regions[i];
            if t.base <= base && e <= t.base + t.size {
                found = true;
                proof {
                    assert(s[i as int].base <= bi && ei <= s[i as int].end());
                }
            }
            i = i + 1;
        }
        if found {
            proof {
                let w = choose|j: int|
                    0 <= j < s.len() && (#[trigger] s[j]).base <= bi && ei <= s[j].end();
                assert forall|x: int| bi <= x < ei implies covers(s, x) by {
                    assert(s[w].base <= x < s[w].end());
                }
            }
            self.subtract(base, size);
            true
        } else {
            false
        }
    }

    /// Allocate a region of `size` addresses at an arbitrary position
    /// aligned to `alignment`, which must be a power of two; every other
    /// alignment is rejected with no match attempted.  Stored regions are
    /// tried in ascending base order, so the lowest-base region that can
    /// host an aligned block wins; the chosen range is subtracted from the
    /// set and returned as `(base, size)`.
    #[verifier::loop_isolation(false)]
    pub fn allocate_by_size(&mut self, size: usize, alignment: usize) -> (r: Option<
        (usize, usize),
    >)
        requires
            wf_seq(old(self)@),
        ensures
            (r is Some) <==> (is_power_of_two(alignment as int) && first_fit(
                old(self)@,
                size as int,
                alignment as int,
            ) < old(self)@.len()),
            r is None ==> final(self)@ == old(self)@,
            r is Some ==> ({
                let ff = first_fit(old(self)@, size as int, alignment as int);
                let a = align_up(old(self)@[ff].base as int, alignment as int);
                &&& r == Some((a as usize, size))
                &&& final(self)@ == subtract_seq(old(self)@, a, a + size)
                &&& forall|x: int| a <= x < a + size ==> covers(old(self)@, x)
                &&& forall|x: int|
                    covers(final(self)@, x) <==> covers(old(self)@, x) && !(a <= x < a + size)
            }),
            wf_seq(final(self)@),
            separated(old(self)@) && (size > 0 || r is None) ==> separated(final(self)@),
    {
        let ghost s = self@;
        let ghost szi = size as int;
        let ghost ali = alignment as int;
        proof {
            lemma_first_fit_props(s, szi, ali);
        }
        if !power_of_two(alignment) {
            return None;
        }
        let n = self.regions.len();
        let mut i: usize = 0;
        let mut got = false;
        let mut res_base: usize = 0;
        while i < n
            invariant
                i <= n,
                alignment >= 1,
                !got ==> forall|j: int| 0 <= j < i ==> !fits(#[trigger] s[j], szi, ali),
                got ==> first_fit(s, szi, ali) < i && fits(s[first_fit(s, szi, ali)], szi, ali)
                    && res_base as int == align_up(
                    s[first_fit(s, szi, ali)].base as int,
                    ali,
                ),
            decreases n - i,
        {
            let t = self.regions[i];
            if !got && size <= t.size {
                let rem = t.base % alignment;
                if rem == 0 {
                    if t.base <= t.base + t.size - size {
                        got = true;
                        res_base = t.base;
                        proof {
                            assert(fits(s[i as int], szi, ali));
                            assert(first_fit(s, szi, ali) == i as int);
                        }
                    } else {
                        proof {
                            assert(!fits(s[i as int], szi, ali));
                        }
                    }
                } else {
                    let pad = alignment - rem;
                    if pad <= usize::MAX - t.base {
                        let aligned = t.base + pad;
                        if aligned <= t.base + t.size - size {
                            got = true;
                            res_base = aligned;
                            proof {
                                assert(fits(s[i as int], szi, ali));
                                assert(first_fit(s, szi, ali) == i as int);
                            }
                        } else {
                            proof {
                                assert(!fits(s[i as int], szi, ali));
                            }
                        }
                    } else {
                        proof {
                            // the aligned base itself would overflow the
                            // address space, so nothing fits in this region
                            assert(align_up(t.base as int, ali) > usize::MAX);
                            assert(!fits(s[i as int], szi, ali));
                        }
                    }
                }
            }
            i = i + 1;
        }
        if got {
            let ghost ff = first_fit(s, szi, ali);
            let ghost a = align_up(s[ff].base as int, ali);
            proof {
                assert(fits(s[ff], szi, ali));
                assert(s[ff].base as int <= a);
                assert(a + szi <= s[ff].end());
                assert forall|x: int| a <= x < a + szi implies covers(s, x) by {
                    assert(s[ff].base <= x < s[ff].end());
                }
            }
            self.subtract(res_base, size);
            Some((res_base, size))
        } else {
            None
        }
    }
}

/// `n` is a power of two: the alignment validity test of size-based
/// allocation.
fn power_of_two(n: usize) -> (r: bool)
    ensures
        r == is_power_of_two(n as int),
{
    if n == 0 {
        return false;
    }
    let mut m = n;
    while m > 1 && m % 2 == 0
        invariant
            1 <= m <= n,
            is_power_of_two(n as int) == is_power_of_two(m as int),
        decreases m,
    {
        m = m / 2;
    }
    m == 1
}

} // verus!
