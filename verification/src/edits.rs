//! Editing rules of the workspace: patches to a marker or a segment, and the
//! checks an edit must pass before it is stored.

use vstd::prelude::*;
use crate::binary64::{lt, less};
use crate::model::{Marker, ModelError, Segment, SegmentFault, SegmentsFault, all_valid, apart, marker_fault, pairwise_apart,
    segment_fault, segments_fault, validate_segments};
use crate::text::{blank, is_blank};
use vstd::string::StringExecFns;

verus! {

/// The largest number of draws a solve may ask for.
pub const MAX_DRAWS: usize = 100_000;

/// A solve asks for between 1 and `MAX_DRAWS` draws.
pub fn check_draws(draws: usize) -> (r: Result<(), String>)
    ensures
        r is Ok <==> 1 <= draws <= MAX_DRAWS,
        r matches Err(e) ==> e@ == "draws 必须在 1..=100000"@,
{
    if draws == 0 || draws > MAX_DRAWS {
        Err(String::from_str("draws 必须在 1..=100000"))
    } else {
        Ok(())
    }
}

/// Both optional texts are absent, or both present with the same text.
pub open spec fn same_text_option(a: Option<String>, b: Option<String>) -> bool {
    match (a, b) {
        (None, None) => true,
        (Some(x), Some(y)) => x@ == y@,
        _ => false,
    }
}

/// `a` and `b` hold the same values.
pub open spec fn same_marker(a: Marker, b: Marker) -> bool {
    &&& a.id@ == b.id@ && a.depth == b.depth && a.kind@ == b.kind@ && a.hard == b.hard
    &&& a.lo == b.lo && a.hi == b.hi && a.mean == b.mean && a.sd == b.sd && a.alt_means@ == b.alt_means@
    &&& same_text_option(a.exchange_group, b.exchange_group)
    &&& a.weight == b.weight && a.excluded == b.excluded && a.note@ == b.note@ && a.version == b.version
}

/// `a` and `b` hold the same values.
pub open spec fn same_segment(a: Segment, b: Segment) -> bool {
    a.id@ == b.id@ && a.top == b.top && a.bottom == b.bottom && a.present == b.present
        && a.gap_min_years == b.gap_min_years && a.note@ == b.note@ && a.version == b.version
}

fn copy_text_option(o: &Option<String>) -> (r: Option<String>)
    ensures same_text_option(r, *o),
{
    match o {
        Some(s) => Some(s.clone()),
        None => None,
    }
}

/// A copy of `m`.
pub fn duplicate_marker(m: &Marker) -> (r: Marker)
    ensures same_marker(r, *m),
{
    Marker {
        id: m.id.clone(),
        depth: m.depth,
        kind: m.kind.clone(),
        hard: m.hard,
        lo: m.lo,
        hi: m.hi,
        mean: m.mean,
        sd: m.sd,
        alt_means: m.alt_means.clone(),
        exchange_group: copy_text_option(&m.exchange_group),
        weight: m.weight,
        excluded: m.excluded,
        note: m.note.clone(),
        version: m.version,
    }
}

/// A copy of `s`.
pub fn duplicate_segment(s: &Segment) -> (r: Segment)
    ensures same_segment(r, *s),
{
    Segment {
        id: s.id.clone(),
        top: s.top,
        bottom: s.bottom,
        present: s.present,
        gap_min_years: s.gap_min_years,
        note: s.note.clone(),
        version: s.version,
    }
}

/// Changes requested to a marker; absent fields stay as they are.
#[derive(Debug)]
pub struct MarkerPatch {
    pub depth: Option<u64>,
    pub kind: Option<String>,
    pub hard: Option<bool>,
    pub lo: Option<u64>,
    pub hi: Option<u64>,
    pub mean: Option<u64>,
    /// A negative value clears the standard deviation.
    pub sd: Option<u64>,
    pub alt_means: Option<Vec<u64>>,
    /// A blank group name clears the group.
    pub exchange_group: Option<String>,
    pub weight: Option<u64>,
    pub excluded: Option<bool>,
    pub note: Option<String>,
    /// Defaults to bumping the version by one.
    pub bump_version: Option<bool>,
}

/// Changes requested to a segment; absent fields stay as they are.
#[derive(Debug)]
pub struct SegmentPatch {
    pub top: Option<u64>,
    pub bottom: Option<u64>,
    pub present: Option<bool>,
    pub gap_min_years: Option<u64>,
    pub note: Option<String>,
    pub bump_version: Option<bool>,
}

pub open spec fn pick<T>(p: Option<T>, current: T) -> T {
    match p { Some(v) => v, None => current }
}

pub open spec fn pick_text(p: Option<String>, current: Seq<char>) -> Seq<char> {
    match p { Some(v) => v@, None => current }
}

pub open spec fn bumped(bump: Option<bool>, version: i64) -> int {
    if bump != Some(false) { version + 1 } else { version as int }
}

/// `r` is `m` with `p` applied.
pub open spec fn patched_marker(r: Marker, m: Marker, p: MarkerPatch) -> bool {
    &&& r.id@ == m.id@
    &&& r.depth == pick(p.depth, m.depth)
    &&& r.kind@ == pick_text(p.kind, m.kind@)
    &&& r.hard == pick(p.hard, m.hard)
    &&& r.lo == pick(p.lo, m.lo)
    &&& r.hi == pick(p.hi, m.hi)
    &&& r.mean == (match p.mean { Some(v) => Some(v), None => m.mean })
    &&& r.sd == (match p.sd { Some(v) => if lt(v, 0) { None } else { Some(v) }, None => m.sd })
    &&& r.alt_means@ == (match p.alt_means { Some(v) => v@, None => m.alt_means@ })
    &&& (match p.exchange_group {
            Some(v) => if is_blank(v@) { r.exchange_group is None } else { same_text_option(r.exchange_group, Some(v)) },
            None => same_text_option(r.exchange_group, m.exchange_group),
        })
    &&& r.weight == pick(p.weight, m.weight)
    &&& r.excluded == pick(p.excluded, m.excluded)
    &&& r.note@ == pick_text(p.note, m.note@)
    &&& r.version == bumped(p.bump_version, m.version)
}

/// The message refusing an edited marker, if any.
pub open spec fn marker_edit_refusal(r: Marker) -> Option<Seq<char>> {
    match marker_fault(r) {
        Some(msg) => Some(msg),
        None => if lt(r.depth, 0) {
            Some("深度不能为负"@)
        } else if lt(r.hi, r.lo) {
            Some("区间 hi<lo"@)
        } else {
            None
        },
    }
}

/// Why a marker edit was not applied.
#[derive(Debug)]
pub enum MarkerEditError {
    NotFound,
    Rejected(String),
}

fn find_marker_by_id(markers: &Vec<Marker>, id: &String) -> (r: Option<usize>)
    ensures
        match r {
            Some(k) => k < markers@.len() && markers@[k as int].id@ == id@
                && forall|j: int| 0 <= j < k ==> #[trigger] markers@[j].id@ != id@,
            None => forall|j: int| 0 <= j < markers@.len() ==> #[trigger] markers@[j].id@ != id@,
        },
{
    let mut i: usize = 0;
    while i < markers.len()
        invariant
            i <= markers@.len(),
            forall|j: int| 0 <= j < i ==> #[trigger] markers@[j].id@ != id@,
        decreases markers@.len() - i,
    {
        if markers[i].id == *id {
            return Some(i);
        }
        i = i + 1;
    }
    None
}

fn patch_placement(m: &mut Marker, depth: Option<u64>, kind: Option<String>, hard: Option<bool>, lo: Option<u64>, hi: Option<u64>)
    ensures
        final(m).id@ == old(m).id@,
        final(m).depth == pick(depth, old(m).depth),
        final(m).kind@ == pick_text(kind, old(m).kind@),
        final(m).hard == pick(hard, old(m).hard),
        final(m).lo == pick(lo, old(m).lo),
        final(m).hi == pick(hi, old(m).hi),
        final(m).mean == old(m).mean && final(m).sd == old(m).sd && final(m).alt_means@ == old(m).alt_means@,
        same_text_option(final(m).exchange_group, old(m).exchange_group),
        final(m).weight == old(m).weight && final(m).excluded == old(m).excluded && final(m).note@ == old(m).note@,
        final(m).version == old(m).version,
{
    if let Some(v) = depth { m.depth = v; }
    if let Some(v) = kind { m.kind = v; }
    if let Some(v) = hard { m.hard = v; }
    if let Some(v) = lo { m.lo = v; }
    if let Some(v) = hi { m.hi = v; }
}

fn patch_distribution(m: &mut Marker, mean: Option<u64>, sd: Option<u64>, alt_means: Option<Vec<u64>>, exchange_group: Option<String>)
    ensures
        final(m).id@ == old(m).id@ && final(m).depth == old(m).depth && final(m).kind@ == old(m).kind@,
        final(m).hard == old(m).hard && final(m).lo == old(m).lo && final(m).hi == old(m).hi,
        final(m).mean == (match mean { Some(v) => Some(v), None => old(m).mean }),
        final(m).sd == (match sd { Some(v) => if lt(v, 0) { None } else { Some(v) }, None => old(m).sd }),
        final(m).alt_means@ == (match alt_means { Some(v) => v@, None => old(m).alt_means@ }),
        (match exchange_group {
            Some(v) => if is_blank(v@) { final(m).exchange_group is None } else { same_text_option(final(m).exchange_group, Some(v)) },
            None => same_text_option(final(m).exchange_group, old(m).exchange_group),
        }),
        final(m).weight == old(m).weight && final(m).excluded == old(m).excluded && final(m).note@ == old(m).note@,
        final(m).version == old(m).version,
{
    if let Some(v) = mean { m.mean = Some(v); }
    if let Some(v) = sd { m.sd = if less(v, 0) { None } else { Some(v) }; }
    if let Some(v) = alt_means { m.alt_means = v; }
    if let Some(v) = exchange_group { m.exchange_group = if blank(&v) { None } else { Some(v) }; }
}

fn patch_bookkeeping(m: &mut Marker, weight: Option<u64>, excluded: Option<bool>, note: Option<String>, bump_version: Option<bool>)
    requires bump_version != Some(false) ==> old(m).version < i64::MAX,
    ensures
        final(m).id@ == old(m).id@ && final(m).depth == old(m).depth && final(m).kind@ == old(m).kind@,
        final(m).hard == old(m).hard && final(m).lo == old(m).lo && final(m).hi == old(m).hi,
        final(m).mean == old(m).mean && final(m).sd == old(m).sd && final(m).alt_means@ == old(m).alt_means@,
        same_text_option(final(m).exchange_group, old(m).exchange_group),
        final(m).weight == pick(weight, old(m).weight),
        final(m).excluded == pick(excluded, old(m).excluded),
        final(m).note@ == pick_text(note, old(m).note@),
        final(m).version == bumped(bump_version, old(m).version),
{
    if let Some(v) = weight { m.weight = v; }
    if let Some(v) = excluded { m.excluded = v; }
    if let Some(v) = note { m.note = v; }
    let bump = match bump_version { Some(b) => b, None => true };
    if bump {
        m.version = m.version + 1;
    }
}

/// Applies `patch` to the first marker named `id` and checks the result.
pub fn edit_marker(markers: &Vec<Marker>, id: &String, patch: MarkerPatch) -> (r: Result<Marker, MarkerEditError>)
    requires
        patch.bump_version != Some(false) ==> forall|k: int| 0 <= k < markers@.len() && #[trigger] markers@[k].id@ == id@
            && (forall|j: int| 0 <= j < k ==> markers@[j].id@ != id@) ==> markers@[k].version < i64::MAX,
    ensures
        (r matches Err(MarkerEditError::NotFound)) <==> forall|j: int| 0 <= j < markers@.len() ==> #[trigger] markers@[j].id@ != id@,
        forall|k: int| 0 <= k < markers@.len() && #[trigger] markers@[k].id@ == id@ && (forall|j: int| 0 <= j < k ==> markers@[j].id@ != id@) ==> {
            match r {
                Ok(m) => patched_marker(m, markers@[k], patch) && marker_edit_refusal(m) is None,
                Err(MarkerEditError::Rejected(msg)) => exists|e: Marker|
                    #[trigger] patched_marker(e, markers@[k], patch) && marker_edit_refusal(e) == Some(msg@),
                Err(MarkerEditError::NotFound) => false,
            }
        },
{
    let pos = match find_marker_by_id(markers, id) {
        Some(p) => p,
        None => { return Err(MarkerEditError::NotFound); }
    };
    let ghost unedited = markers@[pos as int];
    let ghost p = patch;
    let mut m = duplicate_marker(&markers[pos]);
    let MarkerPatch { depth, kind, hard, lo, hi, mean, sd, alt_means, exchange_group, weight, excluded, note, bump_version } = patch;
    patch_placement(&mut m, depth, kind, hard, lo, hi);
    patch_distribution(&mut m, mean, sd, alt_means, exchange_group);
    patch_bookkeeping(&mut m, weight, excluded, note, bump_version);
    assert(patched_marker(m, unedited, p));
    match m.validate() {
        Err(e) => {
            let ModelError(msg) = e;
            return Err(MarkerEditError::Rejected(msg));
        }
        Ok(()) => {}
    }
    if less(m.depth, 0) {
        return Err(MarkerEditError::Rejected(String::from_str("深度不能为负")));
    }
    if less(m.hi, m.lo) {
        return Err(MarkerEditError::Rejected(String::from_str("区间 hi<lo")));
    }
    Ok(m)
}


/// `r` is `s` with `p` applied.
pub open spec fn patched_segment(r: Segment, s: Segment, p: SegmentPatch) -> bool {
    &&& r.id@ == s.id@
    &&& r.top == pick(p.top, s.top)
    &&& r.bottom == pick(p.bottom, s.bottom)
    &&& r.present == pick(p.present, s.present)
    &&& r.gap_min_years == (match p.gap_min_years { Some(v) => Some(v), None => s.gap_min_years })
    &&& r.note@ == pick_text(p.note, s.note@)
    &&& r.version == bumped(p.bump_version, s.version)
}

/// `s` fits among the segments not named `id`: they are all valid, no two
/// of them overlap, and none overlaps `s`.
pub open spec fn fits_among(segs: Seq<Segment>, id: Seq<char>, s: Segment) -> bool {
    &&& forall|j: int| 0 <= j < segs.len() && segs[j].id@ != id ==> #[trigger] segment_fault(segs[j]) is None
    &&& forall|i: int, j: int| 0 <= i < segs.len() && 0 <= j < segs.len() && i != j && segs[i].id@ != id && segs[j].id@ != id
        ==> apart(#[trigger] segs[i], #[trigger] segs[j])
    &&& forall|j: int| 0 <= j < segs.len() && segs[j].id@ != id ==> apart(#[trigger] segs[j], s)
}

/// Why a segment edit was not applied.
#[derive(Debug)]
pub enum SegmentEditError {
    NotFound,
    /// The edited segment, given here, is invalid for `fault`.
    Invalid { fault: SegmentFault, segment: Segment },
    /// The edited segment does not fit among the others: `fault` refers to
    /// `segments`, the other segments in list order followed by the edited one.
    Conflict { fault: SegmentsFault, segments: Vec<Segment> },
}

fn patch_segment_fields(s: &mut Segment, patch: SegmentPatch)
    requires patch.bump_version != Some(false) ==> old(s).version < i64::MAX,
    ensures patched_segment(*final(s), *old(s), patch),
{
    let SegmentPatch { top, bottom, present, gap_min_years, note, bump_version } = patch;
    if let Some(v) = top { s.top = v; }
    if let Some(v) = bottom { s.bottom = v; }
    if let Some(v) = present { s.present = v; }
    if let Some(v) = gap_min_years { s.gap_min_years = Some(v); }
    if let Some(v) = note { s.note = v; }
    let bump = match bump_version { Some(b) => b, None => true };
    if bump {
        s.version = s.version + 1;
    }
}

proof fn lemma_same_segment(a: Segment, b: Segment, c: Segment, d: Segment)
    requires same_segment(a, b), same_segment(c, d),
    ensures
        segment_fault(a) == segment_fault(b),
        apart(a, c) == apart(b, d),
{
}

/// `order` lists, in increasing order, every position of `segs` whose
/// segment is not named `id`.
pub open spec fn others_listed(segs: Seq<Segment>, id: Seq<char>, order: Seq<int>) -> bool {
    &&& forall|t: int| 0 <= t < order.len() ==> 0 <= #[trigger] order[t] < segs.len() && segs[order[t]].id@ != id
    &&& forall|t: int, u: int| 0 <= t < u < order.len() ==> #[trigger] order[t] < #[trigger] order[u]
    &&& forall|i: int| 0 <= i < segs.len() && #[trigger] segs[i].id@ != id ==> order.contains(i)
}

/// Applies `patch` to the first segment named `id` and checks that the result
/// is valid and fits among the other segments.
pub fn edit_segment(segments: &Vec<Segment>, id: &String, patch: SegmentPatch) -> (r: Result<Segment, SegmentEditError>)
    requires
        patch.bump_version != Some(false) ==> forall|k: int| 0 <= k < segments@.len() && #[trigger] segments@[k].id@ == id@
            && (forall|j: int| 0 <= j < k ==> segments@[j].id@ != id@) ==> segments@[k].version < i64::MAX,
    ensures
        (r matches Err(SegmentEditError::NotFound)) <==> forall|j: int| 0 <= j < segments@.len() ==> #[trigger] segments@[j].id@ != id@,
        forall|k: int| 0 <= k < segments@.len() && #[trigger] segments@[k].id@ == id@ && (forall|j: int| 0 <= j < k ==> segments@[j].id@ != id@) ==> {
            match r {
                Ok(s) => patched_segment(s, segments@[k], patch) && segment_fault(s) is None && fits_among(segments@, id@, s),
                Err(SegmentEditError::Invalid { fault, segment }) =>
                    patched_segment(segment, segments@[k], patch) && segment_fault(segment) == Some(fault),
                Err(SegmentEditError::Conflict { fault, segments: all }) => exists|e: Segment| {
                    &&& #[trigger] patched_segment(e, segments@[k], patch)
                    &&& segment_fault(e) is None
                    &&& !fits_among(segments@, id@, e)
                    &&& all@.len() >= 1 && same_segment(all@[all@.len() - 1], e)
                    &&& exists|order: Seq<int>| {
                        &&& #[trigger] others_listed(segments@, id@, order)
                        &&& all@.len() == order.len() + 1
                        &&& forall|t: int| 0 <= t < order.len() ==> same_segment(#[trigger] all@[t], segments@[order[t]])
                    }
                    &&& !(all_valid(all@) && pairwise_apart(all@))
                    &&& segments_fault(all@, fault)
                },
                Err(SegmentEditError::NotFound) => false,
            }
        },
{
    let mut pos: usize = 0;
    while pos < segments.len() && segments[pos].id != *id
        invariant
            pos <= segments@.len(),
            forall|j: int| 0 <= j < pos ==> #[trigger] segments@[j].id@ != id@,
        decreases segments@.len() - pos,
    {
        pos = pos + 1;
    }
    if pos == segments.len() {
        return Err(SegmentEditError::NotFound);
    }
    let ghost unedited = segments@[pos as int];
    let ghost p = patch;
    proof {
        assert forall|k: int| 0 <= k < segments@.len() && #[trigger] segments@[k].id@ == id@
            && (forall|j: int| 0 <= j < k ==> segments@[j].id@ != id@) implies k == pos by {
            if k > pos {
                assert(segments@[pos as int].id@ == id@);
            }
        }
    }
    let mut s = duplicate_segment(&segments[pos]);
    patch_segment_fields(&mut s, patch);
    assert(patched_segment(s, unedited, p));
    match s.validate() {
        Err(f) => { return Err(SegmentEditError::Invalid { fault: f, segment: s }); }
        Ok(()) => {}
    }
    // The other segments, in list order, then the edited one.
    let mut all: Vec<Segment> = Vec::new();
    let ghost mut src: Seq<int> = Seq::empty();
    let mut j: usize = 0;
    while j < segments.len()
        invariant
            j <= segments@.len(),
            all@.len() == src.len(),
            forall|t: int| 0 <= t < src.len() ==> 0 <= #[trigger] src[t] < j && segments@[src[t]].id@ != id@
                && same_segment(all@[t], segments@[src[t]]),
            forall|t: int, u: int| 0 <= t < u < src.len() ==> #[trigger] src[t] < #[trigger] src[u],
            forall|i: int| 0 <= i < j && #[trigger] segments@[i].id@ != id@ ==> src.contains(i),
        decreases segments@.len() - j,
    {
        let ghost before = src;
        if segments[j].id != *id {
            all.push(duplicate_segment(&segments[j]));
            proof { src = src.push(j as int); }
        }
        proof {
            assert forall|i: int| 0 <= i < j + 1 && #[trigger] segments@[i].id@ != id@ implies src.contains(i) by {
                if i < j {
                    let w = choose|w: int| 0 <= w < before.len() && before[w] == i;
                    assert(src[w] == i);
                } else {
                    assert(src[src.len() - 1] == i);
                }
            }
        }
        j = j + 1;
    }
    let ghost others = all@;
    all.push(duplicate_segment(&s));
    let ghost last = all@.len() - 1;
    proof {
        assert forall|t: int| 0 <= t < last implies #[trigger] all@[t] == others[t] by {}
    }
    match validate_segments(&all) {
        Ok(()) => {
            proof {
                assert forall|x: int| 0 <= x < segments@.len() && segments@[x].id@ != id@ implies #[trigger] segment_fault(segments@[x]) is None by {
                    let t = choose|t: int| 0 <= t < src.len() && src[t] == x;
                    lemma_same_segment(all@[t], segments@[x], all@[t], segments@[x]);
                }
                assert forall|x: int, y: int| 0 <= x < segments@.len() && 0 <= y < segments@.len() && x != y
                    && segments@[x].id@ != id@ && segments@[y].id@ != id@ implies apart(#[trigger] segments@[x], #[trigger] segments@[y]) by {
                    let t = choose|t: int| 0 <= t < src.len() && src[t] == x;
                    let u = choose|u: int| 0 <= u < src.len() && src[u] == y;
                    lemma_same_segment(all@[t], segments@[x], all@[u], segments@[y]);
                    assert(apart(all@[t], all@[u]));
                }
                assert forall|x: int| 0 <= x < segments@.len() && segments@[x].id@ != id@ implies apart(#[trigger] segments@[x], s) by {
                    let t = choose|t: int| 0 <= t < src.len() && src[t] == x;
                    lemma_same_segment(all@[t], segments@[x], all@[last], s);
                    assert(apart(all@[t], all@[last]));
                }
            }
            Ok(s)
        }
        Err(fault) => {
            proof {
                if fits_among(segments@, id@, s) {
                    assert forall|t: int| 0 <= t < all@.len() implies #[trigger] segment_fault(all@[t]) is None by {
                        if t < last {
                            lemma_same_segment(all@[t], segments@[src[t]], all@[t], segments@[src[t]]);
                        } else {
                            lemma_same_segment(all@[t], s, all@[t], s);
                        }
                    }
                    assert forall|t: int, u: int| 0 <= t < all@.len() && 0 <= u < all@.len() && t != u
                        implies apart(#[trigger] all@[t], #[trigger] all@[u]) by {
                        if t < last && u < last {
                            lemma_same_segment(all@[t], segments@[src[t]], all@[u], segments@[src[u]]);
                            assert(src[t] != src[u]) by {
                                if t < u { assert(src[t] < src[u]); } else { assert(src[u] < src[t]); }
                            }
                        } else if t < last {
                            lemma_same_segment(all@[t], segments@[src[t]], all@[u], s);
                        } else {
                            lemma_same_segment(all@[u], segments@[src[u]], all@[t], s);
                            assert(apart(segments@[src[u]], s));
                        }
                    }
                    assert(false);
                }
            }
            proof {
                assert(others_listed(segments@, id@, src));
                assert forall|t: int| 0 <= t < src.len() implies same_segment(#[trigger] all@[t], segments@[src[t]]) by {}
            }
            Err(SegmentEditError::Conflict { fault, segments: all })
        }
    }
}

}
