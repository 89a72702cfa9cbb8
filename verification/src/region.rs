//! The [`Region`] value type and the spec-level vocabulary used by every
//! contract: well-formedness of a stored sequence of regions, the
//! overlap-or-touch predicate shared by the mutating operations, and the two
//! point-coverage predicates.

use vstd::prelude::*;

verus! {

/// A half-open interval `[base, base + size)` of the address space.
///
/// The left endpoint is inclusive and the right endpoint is exclusive; a
/// region with `size == 0` covers no address.
#[derive(Clone, Copy, PartialEq, Eq, Structural, Debug)]
pub struct Region {
    pub base: usize,
    pub size: usize,
}

impl Region {
    /// The first address past the interval, as a mathematical integer.
    pub open spec fn end(self) -> int {
        self.base + self.size
    }
}

/// `r` overlaps or touches the interval `[b, e)`: the test is inclusive at
/// both boundaries, so a region that merely shares an endpoint with the
/// interval counts.  This is the scan predicate shared by `add` and
/// `subtract`; its inclusiveness is what makes adjacent regions merge.
pub open spec fn touches(r: Region, b: int, e: int) -> bool {
    r.base <= e && r.end() >= b
}

/// The representation invariant of a stored sequence of regions: every
/// region's end fits in a machine word, bases strictly increase, and the
/// half-open intervals are pairwise disjoint (adjacency is tolerated here;
/// see [`separated`] for the stronger gap condition).
pub open spec fn wf_seq(s: Seq<Region>) -> bool {
    &&& forall|i: int| 0 <= i < s.len() ==> (#[trigger] s[i]).end() <= usize::MAX
    &&& forall|i: int, j: int|
        0 <= i < j < s.len() ==> (#[trigger] s[i]).end() <= (#[trigger] s[j]).base
            && s[i].base < s[j].base
}

/// No two stored regions overlap or are adjacent: between any two there is a
/// gap of at least one address.
pub open spec fn separated(s: Seq<Region>) -> bool {
    forall|i: int, j: int|
        0 <= i < j < s.len() ==> (#[trigger] s[i]).end() < (#[trigger] s[j]).base
}

/// Some stored region contains `x` under the half-open convention.
pub open spec fn covers(s: Seq<Region>, x: int) -> bool {
    exists|i: int| 0 <= i < s.len() && (#[trigger] s[i]).base <= x < s[i].end()
}

/// Some stored region's closed range `[base, base + size]` contains `x`.
/// This inclusive-at-both-ends test is the one `check_point` performs; it
/// deliberately differs from the half-open convention used everywhere else.
pub open spec fn covers_closed(s: Seq<Region>, x: int) -> bool {
    exists|i: int| 0 <= i < s.len() && (#[trigger] s[i]).base <= x <= s[i].end()
}

/// Some single stored region wholly contains the interval `[b, e)`.  This is
/// the success condition of address-based allocation: an interval that spans
/// two stored regions, or reaches outside the tracked set, does not count.
pub open spec fn has_container(s: Seq<Region>, b: int, e: int) -> bool {
    exists|i: int| 0 <= i < s.len() && (#[trigger] s[i]).base <= b && e <= s[i].end()
}

} // verus!
