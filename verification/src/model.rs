//! Domain model: core segments, markers (age constraints) and their
//! validation rules.
//!
//! Depths, ages and weights are IEEE-754 binary64 values held as their bit
//! patterns (`f64::to_bits`); `crate::binary64` compares them.

use vstd::prelude::*;
use crate::binary64::{eq, le, lt, is_nan, order_key, key, less, less_eq};
use crate::text::{blank, is_blank};
use vstd::string::StringExecFns;

verus! {

pub const SOLVER_VERSION: u32 = 3;

/// A core segment. `present == false` marks a missing section, which must
/// carry a positive `gap_min_years` (a gap is never filled with zero years).
#[derive(Clone, Debug)]
pub struct Segment {
    pub id: String,
    pub top: u64,
    pub bottom: u64,
    pub present: bool,
    pub gap_min_years: Option<u64>,
    pub note: String,
    pub version: i64,
}

/// An observed age constraint at one depth.
#[derive(Clone, Debug)]
pub struct Marker {
    pub id: String,
    pub depth: u64,
    /// `layer` | `volcano` | `isotope` | `anchor`
    pub kind: String,
    /// Hard: the age must lie in `[lo, hi]`; soft: `[lo, hi]` only bounds the distribution.
    pub hard: bool,
    pub lo: u64,
    pub hi: u64,
    pub mean: Option<u64>,
    pub sd: Option<u64>,
    pub alt_means: Vec<u64>,
    pub exchange_group: Option<String>,
    pub weight: u64,
    pub excluded: bool,
    pub note: String,
    pub version: i64,
}

/// Whether the markers of an exchange group have their distributions rotated.
#[derive(Clone, Debug, PartialEq, Eq)]
pub struct ExchangeState {
    pub group: String,
    pub swapped: bool,
}

/// The complete, immutable input of one solve.
#[derive(Clone, Debug)]
pub struct SolveInput {
    pub seed: u64,
    pub draws: usize,
    pub solver_version: u32,
    pub segments: Vec<Segment>,
    pub markers: Vec<Marker>,
    pub exchanges: Vec<ExchangeState>,
}

/// A validation failure, with its message.
#[derive(Debug)]
pub struct ModelError(pub String);

/// Why a segment is invalid.
#[derive(Clone, Copy, Debug, PartialEq, Eq)]
pub enum SegmentFault {
    /// The id is empty once trimmed.
    BlankId,
    /// `bottom > top` does not hold.
    DepthsNotIncreasing,
    /// A missing section without a positive `gap_min_years`.
    NoGapDuration,
}

/// Why a set of segments is invalid.
#[derive(Clone, Copy, Debug, PartialEq, Eq)]
pub enum SegmentsFault {
    /// Segment `index` (the first invalid one) fails `fault`.
    Invalid { index: usize, fault: SegmentFault },
    /// Segments `upper` and `lower` overlap, `upper` starting no deeper than `lower`.
    Overlap { upper: usize, lower: usize },
}

/// The verdict on one segment.
pub open spec fn segment_fault(s: Segment) -> Option<SegmentFault> {
    if is_blank(s.id@) {
        Some(SegmentFault::BlankId)
    } else if !lt(s.top, s.bottom) {
        Some(SegmentFault::DepthsNotIncreasing)
    } else if !s.present && !(s.gap_min_years matches Some(g) && lt(0, g)) {
        Some(SegmentFault::NoGapDuration)
    } else {
        None
    }
}

impl Segment {
    pub fn validate(&self) -> (r: Result<(), SegmentFault>)
        ensures
            match r {
                Ok(()) => segment_fault(*self) is None,
                Err(f) => segment_fault(*self) == Some(f),
            },
    {
        if blank(&self.id) {
            return Err(SegmentFault::BlankId);
        }
        if !less(self.top, self.bottom) {
            return Err(SegmentFault::DepthsNotIncreasing);
        }
        if !self.present {
            match self.gap_min_years {
                Some(g) => {
                    if !less(0, g) {
                        return Err(SegmentFault::NoGapDuration);
                    }
                }
                None => {
                    return Err(SegmentFault::NoGapDuration);
                }
            }
        }
        Ok(())
    }
}

/// The marker kinds the model knows.
pub open spec fn known_kind(kind: Seq<char>) -> bool {
    kind == "layer"@ || kind == "volcano"@ || kind == "isotope"@ || kind == "anchor"@
}

/// The verdict on one marker, as the message of its first failed rule.
pub open spec fn marker_fault(m: Marker) -> Option<Seq<char>> {
    if is_blank(m.id@) {
        Some("锦标 id 不能为空"@)
    } else if !known_kind(m.kind@) {
        Some("锦标 "@ + m.id@ + " 类型非法: "@ + m.kind@)
    } else if lt(m.hi, m.lo) {
        Some("锦标 "@ + m.id@ + " 区间反向 hi<lo"@)
    } else if lt(m.weight, 0) {
        Some("锦标 "@ + m.id@ + " 权重为负"@)
    } else {
        None
    }
}

fn text_eq(a: &String, b: &str) -> (r: bool)
    ensures r == (a@ == b@),
{
    *a == String::from_str(b)
}

impl Marker {
    pub fn validate(&self) -> (r: Result<(), ModelError>)
        ensures
            match r {
                Ok(()) => marker_fault(*self) is None,
                Err(e) => marker_fault(*self) == Some(e.0@),
            },
    {
        if blank(&self.id) {
            return Err(ModelError(String::from_str("锦标 id 不能为空")));
        }
        if !(text_eq(&self.kind, "layer") || text_eq(&self.kind, "volcano") || text_eq(&self.kind, "isotope")
            || text_eq(&self.kind, "anchor")) {
            let mut msg = String::from_str("锦标 ");
            msg.append(self.id.as_str());
            msg.append(" 类型非法: ");
            msg.append(self.kind.as_str());
            return Err(ModelError(msg));
        }
        if less(self.hi, self.lo) {
            let mut msg = String::from_str("锦标 ");
            msg.append(self.id.as_str());
            msg.append(" 区间反向 hi<lo");
            return Err(ModelError(msg));
        }
        if less(self.weight, 0) {
            let mut msg = String::from_str("锦标 ");
            msg.append(self.id.as_str());
            msg.append(" 权重为负");
            return Err(ModelError(msg));
        }
        Ok(())
    }
}


/// Neither segment reaches into the other: one ends no deeper than the other starts.
pub open spec fn apart(a: Segment, b: Segment) -> bool {
    le(a.bottom, b.top) || le(b.bottom, a.top)
}

pub open spec fn all_valid(segs: Seq<Segment>) -> bool {
    forall|i: int| 0 <= i < segs.len() ==> #[trigger] segment_fault(segs[i]) is None
}

pub open spec fn pairwise_apart(segs: Seq<Segment>) -> bool {
    forall|i: int, j: int| 0 <= i < segs.len() && 0 <= j < segs.len() && i != j ==> apart(#[trigger] segs[i], #[trigger] segs[j])
}

/// `perm` lists the segments by top depth, ties in list order.
pub open spec fn by_top(segs: Seq<Segment>, perm: Seq<usize>) -> bool {
    &&& forall|a: int| 0 <= a < perm.len() ==> #[trigger] perm[a] < segs.len()
    &&& forall|a: int, b: int| 0 <= a < b < perm.len() ==> before_by_top(segs, #[trigger] perm[a], #[trigger] perm[b])
}

pub open spec fn before_by_top(segs: Seq<Segment>, x: usize, y: usize) -> bool {
    order_key(segs[x as int].top) < order_key(segs[y as int].top)
        || (order_key(segs[x as int].top) == order_key(segs[y as int].top) && x < y)
}

/// In the order `perm`, each segment ends no deeper than the next one starts,
/// up to position `k`.
pub open spec fn chained(segs: Seq<Segment>, perm: Seq<usize>, k: int) -> bool {
    forall|a: int| 0 <= a < k ==> #[trigger] le(segs[perm[a] as int].bottom, segs[perm[a + 1] as int].top)
}

proof fn lemma_chain(segs: Seq<Segment>, perm: Seq<usize>, a: int, b: int)
    requires
        all_valid(segs),
        by_top(segs, perm),
        0 <= a < b < perm.len(),
        chained(segs, perm, perm.len() - 1),
    ensures
        le(segs[perm[a] as int].bottom, segs[perm[b] as int].top),
    decreases b - a,
{
    assert(le(segs[perm[a] as int].bottom, segs[perm[a + 1] as int].top));
    if a + 1 < b {
        lemma_chain(segs, perm, a + 1, b);
        assert(segment_fault(segs[perm[a + 1] as int]) is None);
    }
}

/// Indices of the segments ordered by top depth, ties in list order.
fn order_by_top(segments: &Vec<Segment>) -> (perm: Vec<usize>)
    ensures
        perm@.len() == segments@.len(),
        by_top(segments@, perm@),
        forall|j: usize| j < segments@.len() ==> #[trigger] perm@.contains(j),
{
    let n = segments.len();
    let mut perm: Vec<usize> = Vec::new();
    let mut i: usize = 0;
    while i < n
        invariant
            n == segments@.len(),
            i <= n,
            perm@.len() == i,
            forall|a: int| 0 <= a < perm@.len() ==> #[trigger] perm@[a] < i,
            forall|a: int, b: int| 0 <= a < b < perm@.len() ==> before_by_top(segments@, #[trigger] perm@[a], #[trigger] perm@[b]),
            forall|j: usize| j < i ==> #[trigger] perm@.contains(j),
        decreases n - i,
    {
        let ki = key(segments[i].top);
        let mut p: usize = 0;
        while p < perm.len() && key(segments[perm[p]].top) <= ki
            invariant
                p <= perm@.len(),
                i < n,
                n == segments@.len(),
                forall|a: int| 0 <= a < perm@.len() ==> #[trigger] perm@[a] < i,
                ki == order_key(segments@[i as int].top),
                forall|a: int| 0 <= a < p ==> order_key(segments@[#[trigger] perm@[a] as int].top) <= ki,
            decreases perm@.len() - p,
        {
            p = p + 1;
        }
        let ghost old_perm = perm@;
        perm.insert(p, i);
        assert(perm@ =~= old_perm.insert(p as int, i));
        assert forall|a: int| 0 <= a < perm@.len() implies #[trigger] perm@[a] < i + 1 by {
            if a < p { assert(perm@[a] == old_perm[a]); } else if a > p { assert(perm@[a] == old_perm[a - 1]); }
        }
        assert forall|a: int, b: int| 0 <= a < b < perm@.len() implies before_by_top(segments@, #[trigger] perm@[a], #[trigger] perm@[b]) by {
            if b < p {
                assert(perm@[a] == old_perm[a] && perm@[b] == old_perm[b]);
            } else if b == p {
                assert(perm@[a] == old_perm[a]);
                assert(order_key(segments@[old_perm[a] as int].top) <= ki);
            } else if a == p {
                assert(perm@[b] == old_perm[b - 1]);
                assert(order_key(segments@[old_perm[p as int] as int].top) > ki);
                if b - 1 > p {
                    assert(before_by_top(segments@, old_perm[p as int], old_perm[b - 1]));
                }
            } else if a < p {
                assert(perm@[a] == old_perm[a] && perm@[b] == old_perm[b - 1]);
                assert(before_by_top(segments@, old_perm[a], old_perm[b - 1]));
            } else {
                assert(perm@[a] == old_perm[a - 1] && perm@[b] == old_perm[b - 1]);
                assert(before_by_top(segments@, old_perm[a - 1], old_perm[b - 1]));
            }
        }
        assert forall|j: usize| j < i + 1 implies #[trigger] perm@.contains(j) by {
            if j == i {
                assert(perm@[p as int] == i);
            } else {
                assert(old_perm.contains(j));
                let w = choose|w: int| 0 <= w < old_perm.len() && old_perm[w] == j;
                if w < p { assert(perm@[w] == j); } else { assert(perm@[w + 1] == j); }
            }
        }
        i = i + 1;
    }
    perm
}

/// `f` is the verdict on `segs`: the first invalid segment, or else the
/// first pair of neighbours, in top-depth order, that overlap.
pub open spec fn segments_fault(segs: Seq<Segment>, f: SegmentsFault) -> bool {
    match f {
        SegmentsFault::Invalid { index, fault } => {
            &&& index < segs.len()
            &&& segment_fault(segs[index as int]) == Some(fault)
            &&& forall|j: int| 0 <= j < index ==> #[trigger] segment_fault(segs[j]) is None
        },
        SegmentsFault::Overlap { upper, lower } => {
            &&& all_valid(segs)
            &&& upper < segs.len() && lower < segs.len() && upper != lower
            &&& !apart(segs[upper as int], segs[lower as int])
            &&& le(segs[upper as int].top, segs[lower as int].top)
            &&& exists|perm: Seq<usize>, k: int| {
                &&& perm.len() == segs.len() && by_top(segs, perm)
                &&& 0 <= k && k + 1 < perm.len() && perm[k] == upper && perm[k + 1] == lower
                &&& #[trigger] chained(segs, perm, k)
            }
        },
    }
}

/// Checks every segment, then that no two segments overlap.
pub fn validate_segments(segments: &Vec<Segment>) -> (r: Result<(), SegmentsFault>)
    ensures
        r is Ok <==> all_valid(segments@) && pairwise_apart(segments@),
        r matches Err(f) ==> segments_fault(segments@, f),
{
    let n = segments.len();
    let mut i: usize = 0;
    while i < n
        invariant
            n == segments@.len(),
            i <= n,
            forall|j: int| 0 <= j < i ==> #[trigger] segment_fault(segments@[j]) is None,
        decreases n - i,
    {
        match segments[i].validate() {
            Ok(()) => {}
            Err(fault) => {
                return Err(SegmentsFault::Invalid { index: i, fault });
            }
        }
        i = i + 1;
    }
    let perm = order_by_top(segments);
    let mut k: usize = 0;
    while k < n && k + 1 < n
        invariant
            n == segments@.len(),
            perm@.len() == n,
            all_valid(segments@),
            by_top(segments@, perm@),
            k < n || (k == 0 && n == 0),
            chained(segments@, perm@, k as int),
        decreases n - k,
    {
        let upper = perm[k];
        let lower = perm[k + 1];
        if !less_eq(segments[upper].bottom, segments[lower].top) {
            proof {
                assert(before_by_top(segments@, perm@[k as int], perm@[k + 1]));
                assert(segment_fault(segments@[lower as int]) is None);
                assert(segment_fault(segments@[upper as int]) is None);
                assert(!pairwise_apart(segments@)) by {
                    assert(!apart(segments@[upper as int], segments@[lower as int]));
                }
                assert(chained(segments@, perm@, k as int));
            }
            return Err(SegmentsFault::Overlap { upper, lower });
        }
        k = k + 1;
    }
    proof {
        if n > 0 {
            assert(chained(segments@, perm@, n - 1));
        }
        assert forall|x: int, y: int| 0 <= x < segments@.len() && 0 <= y < segments@.len() && x != y
            implies apart(#[trigger] segments@[x], #[trigger] segments@[y]) by {
            assert(perm@.contains(x as usize));
            assert(perm@.contains(y as usize));
            let a = choose|a: int| 0 <= a < perm@.len() && perm@[a] == x as usize;
            let b = choose|b: int| 0 <= b < perm@.len() && perm@[b] == y as usize;
            if a < b {
                lemma_chain(segments@, perm@, a, b);
            } else if b < a {
                lemma_chain(segments@, perm@, b, a);
            }
        }
    }
    Ok(())
}

/// `perm` reorders `0 .. n`: every position once.
pub open spec fn reorders(perm: Seq<int>, n: int) -> bool {
    &&& perm.len() == n
    &&& forall|t: int| 0 <= t < n ==> 0 <= #[trigger] perm[t] < n
    &&& forall|t: int, u: int| 0 <= t < u < n ==> #[trigger] perm[t] != #[trigger] perm[u]
    &&& forall|i: int| 0 <= i < n ==> perm.contains(i)
}

/// The verdict on a set of segments does not depend on their order: `b`
/// lists the segments of `a` in another order, and `validate_segments`
/// accepts one exactly when it accepts the other.
pub proof fn lemma_segment_verdict_ignores_order(a: Seq<Segment>, b: Seq<Segment>, perm: Seq<int>)
    requires
        reorders(perm, a.len() as int),
        b.len() == a.len(),
        forall|t: int| 0 <= t < b.len() ==> #[trigger] b[t] == a[perm[t]],
    ensures
        (all_valid(a) && pairwise_apart(a)) == (all_valid(b) && pairwise_apart(b)),
{
    if all_valid(a) && pairwise_apart(a) {
        assert forall|t: int| 0 <= t < b.len() implies #[trigger] segment_fault(b[t]) is None by {
            assert(b[t] == a[perm[t]]);
        }
        assert forall|t: int, u: int| 0 <= t < b.len() && 0 <= u < b.len() && t != u implies apart(#[trigger] b[t], #[trigger] b[u]) by {
            assert(b[t] == a[perm[t]] && b[u] == a[perm[u]]);
            if t < u { assert(perm[t] != perm[u]); } else { assert(perm[u] != perm[t]); }
        }
    }
    if all_valid(b) && pairwise_apart(b) {
        assert forall|i: int| 0 <= i < a.len() implies #[trigger] segment_fault(a[i]) is None by {
            assert(perm.contains(i));
            let t = choose|t: int| 0 <= t < perm.len() && perm[t] == i;
            assert(b[t] == a[i]);
        }
        assert forall|i: int, j: int| 0 <= i < a.len() && 0 <= j < a.len() && i != j implies apart(#[trigger] a[i], #[trigger] a[j]) by {
            assert(perm.contains(i) && perm.contains(j));
            let t = choose|t: int| 0 <= t < perm.len() && perm[t] == i;
            let u = choose|u: int| 0 <= u < perm.len() && perm[u] == j;
            assert(b[t] == a[i] && b[u] == a[j]);
            assert(apart(b[t], b[u]));
        }
    }
}

/// Valid segments are pairwise apart exactly when, sorted by top depth, each
/// one ends no deeper than the next one starts (neighbours may touch at a
/// boundary, never overlap).
pub proof fn lemma_apart_iff_sorted_chain(segs: Seq<Segment>, perm: Seq<usize>)
    requires
        all_valid(segs),
        segs.len() <= usize::MAX,
        perm.len() == segs.len(),
        by_top(segs, perm),
        forall|j: usize| j < segs.len() ==> #[trigger] perm.contains(j),
    ensures
        pairwise_apart(segs) <==> chained(segs, perm, perm.len() - 1),
{
    if pairwise_apart(segs) {
        assert forall|a: int| 0 <= a < perm.len() - 1 implies #[trigger] le(segs[perm[a] as int].bottom, segs[perm[a + 1] as int].top) by {
            let x = perm[a] as int;
            let y = perm[a + 1] as int;
            assert(before_by_top(segs, perm[a], perm[a + 1]));
            assert(x != y);
            assert(apart(segs[x], segs[y]));
            assert(segment_fault(segs[x]) is None && segment_fault(segs[y]) is None);
        }
    }
    if chained(segs, perm, perm.len() - 1) {
        assert forall|x: int, y: int| 0 <= x < segs.len() && 0 <= y < segs.len() && x != y
            implies apart(#[trigger] segs[x], #[trigger] segs[y]) by {
            assert(perm.contains(x as usize));
            assert(perm.contains(y as usize));
            let a = choose|a: int| 0 <= a < perm.len() && perm[a] == x as usize;
            let b = choose|b: int| 0 <= b < perm.len() && perm[b] == y as usize;
            if a < b {
                lemma_chain(segs, perm, a, b);
            } else if b < a {
                lemma_chain(segs, perm, b, a);
            }
        }
    }
}

}
