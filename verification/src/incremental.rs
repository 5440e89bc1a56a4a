//! Incremental replay: which keys changed between two solve inputs, and
//! which quantiles of a fresh run may be reported as reused from the old one.
//!
//! Invalidation rules:
//! - a structural change (segment depths or presence, draw count, seed, or
//!   the set of node depths: segment boundaries and marker depths)
//!   invalidates everything;
//! - a changed marker (edited, excluded, restored, or in an exchange group
//!   whose state changed) invalidates the nodes and edges that depend on it;
//! - a changed gap lower bound invalidates the nodes and edges that depend on it;
//! - anything reused must be bit-identical to the old run.
//!
//! Items are compared by signature: the serialised text of each marker and
//! segment, in list order.
//!
//! Sets of ids are kept as vectors in strictly increasing lexicographic order
//! (`strictly_sorted`): the keys are strings, and the change keys are handed
//! on as ordered lists, so an ordered vector states both what the set holds
//! and the order in which it is listed.

use vstd::prelude::*;
use crate::binary64::{eq, equal};
use crate::model::{ExchangeState, Marker, Segment, SolveInput};
use crate::text::{insert_sorted, lex_lt, strictly_sorted, views};
use vstd::string::StringExecFns;

verus! {

/// The keys that changed between two inputs.
#[derive(Clone, Debug)]
pub struct ChangeKeys {
    /// Changed marker ids, in increasing order.
    pub markers: Vec<String>,
    /// Ids of missing sections whose minimum duration alone changed, in increasing order.
    pub gaps: Vec<String>,
    pub structural: bool,
    /// One line per detected change.
    pub detail: Vec<String>,
}

/// Position of the first entry equal to `id`, or -1.
pub open spec fn first_index(ids: Seq<Seq<char>>, id: Seq<char>) -> int {
    if exists|k: int| 0 <= k < ids.len() && ids[k] == id && (forall|j: int| 0 <= j < k ==> ids[j] != id) {
        choose|k: int| 0 <= k < ids.len() && ids[k] == id && (forall|j: int| 0 <= j < k ==> ids[j] != id)
    } else {
        -1
    }
}

pub open spec fn marker_ids(inp: SolveInput) -> Seq<Seq<char>> {
    inp.markers@.map_values(|m: Marker| m.id@)
}

pub open spec fn segment_ids(inp: SolveInput) -> Seq<Seq<char>> {
    inp.segments@.map_values(|s: Segment| s.id@)
}

/// The signature of the first item named `id`, if any.
pub open spec fn signature_of(ids: Seq<Seq<char>>, sigs: Seq<String>, id: Seq<char>) -> Option<Seq<char>> {
    let k = first_index(ids, id);
    if k >= 0 { Some(sigs[k]@) } else { None }
}

/// Marker `id` reads differently in the two inputs (or exists in only one).
pub open spec fn marker_changed(base: SolveInput, now: SolveInput, bsig: Seq<String>, nsig: Seq<String>, id: Seq<char>) -> bool {
    signature_of(marker_ids(base), bsig, id) != signature_of(marker_ids(now), nsig, id)
}

pub open spec fn segment_changed(base: SolveInput, now: SolveInput, bsig: Seq<String>, nsig: Seq<String>, id: Seq<char>) -> bool {
    signature_of(segment_ids(base), bsig, id) != signature_of(segment_ids(now), nsig, id)
}

/// Segment `id` exists in both inputs with the same depths, presence and note.
pub open spec fn same_geometry(base: SolveInput, now: SolveInput, id: Seq<char>) -> bool {
    let bi = first_index(segment_ids(base), id);
    let ni = first_index(segment_ids(now), id);
    bi >= 0 && ni >= 0 && {
        let b = base.segments@[bi];
        let n = now.segments@[ni];
        eq(b.top, n.top) && eq(b.bottom, n.bottom) && b.present == n.present && b.note@ == n.note@
    }
}

/// Segment `id` is missing core in either input.
pub open spec fn gap_in_either(base: SolveInput, now: SolveInput, id: Seq<char>) -> bool {
    let bi = first_index(segment_ids(base), id);
    let ni = first_index(segment_ids(now), id);
    (bi >= 0 && !base.segments@[bi].present) || (ni >= 0 && !now.segments@[ni].present)
}

pub open spec fn exchange_differs(a: ExchangeState, b: ExchangeState) -> bool {
    a.group@ != b.group@ || a.swapped != b.swapped
}

/// Position `k` of both exchange lists holds different states.
pub open spec fn exchange_changed_at(base: SolveInput, now: SolveInput, k: int) -> bool {
    0 <= k < base.exchanges@.len() && k < now.exchanges@.len()
        && exchange_differs(base.exchanges@[k], now.exchanges@[k])
}

/// Marker `id` of `now` belongs to an exchange group whose state changed.
pub open spec fn in_changed_exchange(base: SolveInput, now: SolveInput, id: Seq<char>) -> bool {
    exists|k: int, m: int|
        #[trigger] exchange_changed_at(base, now, k) && 0 <= m < now.markers@.len()
            && now.markers@[m].id@ == id
            && in_group(#[trigger] now.markers@[m], now.exchanges@[k].group@)
}

/// Marker `m` belongs to exchange group `group`.
pub open spec fn in_group(m: Marker, group: Seq<char>) -> bool {
    m.exchange_group matches Some(g) && g@ == group
}

pub open spec fn changed_markers(base: SolveInput, now: SolveInput, bsig: Seq<String>, nsig: Seq<String>) -> Set<Seq<char>> {
    Set::new(|id: Seq<char>|
        ((marker_ids(base).contains(id) || marker_ids(now).contains(id)) && marker_changed(base, now, bsig, nsig, id))
            || in_changed_exchange(base, now, id))
}

pub open spec fn changed_gaps(base: SolveInput, now: SolveInput, bsig: Seq<String>, nsig: Seq<String>) -> Set<Seq<char>> {
    Set::new(|id: Seq<char>|
        (segment_ids(base).contains(id) || segment_ids(now).contains(id))
            && segment_changed(base, now, bsig, nsig, id) && same_geometry(base, now, id) && gap_in_either(base, now, id))
}

/// The segment layout, the draw count or the seed changed: a segment count
/// differs, or a segment named in either input changed in depth, presence or note.
pub open spec fn layout_change(base: SolveInput, now: SolveInput, bsig: Seq<String>, nsig: Seq<String>) -> bool {
    base.segments@.len() != now.segments@.len() || base.draws != now.draws || base.seed != now.seed
        || exists|id: Seq<char>|
            (segment_ids(base).contains(id) || segment_ids(now).contains(id))
                && #[trigger] segment_changed(base, now, bsig, nsig, id) && !same_geometry(base, now, id)
}

/// A node of the chronology stands at depth `d` (a bit pattern): the top or
/// bottom of a segment, or the depth of a marker (excluded markers included).
pub open spec fn stands_at(inp: SolveInput, d: u64) -> bool {
    (exists|i: int| 0 <= i < inp.segments@.len() && (#[trigger] inp.segments@[i].top == d || inp.segments@[i].bottom == d))
        || (exists|i: int| 0 <= i < inp.markers@.len() && #[trigger] inp.markers@[i].depth == d)
}

/// The depths at which the nodes of the chronology stand.
pub open spec fn node_depths(inp: SolveInput) -> Set<u64> {
    Set::new(|d: u64| stands_at(inp, d))
}

/// A structural change: the segment layout, draw count or seed changed, or
/// the set of node depths changed (a segment boundary or marker depth added,
/// removed or moved to a depth where no node stood).
pub open spec fn structural_change(base: SolveInput, now: SolveInput, bsig: Seq<String>, nsig: Seq<String>) -> bool {
    layout_change(base, now, bsig, nsig) || node_depths(base) != node_depths(now)
}

fn stands(inp: &SolveInput, d: u64) -> (r: bool)
    ensures r == stands_at(*inp, d),
{
    let mut i: usize = 0;
    while i < inp.segments.len()
        invariant
            i <= inp.segments@.len(),
            forall|k: int| 0 <= k < i ==> (#[trigger] inp.segments@[k]).top != d && inp.segments@[k].bottom != d,
        decreases inp.segments@.len() - i,
    {
        if inp.segments[i].top == d || inp.segments[i].bottom == d {
            assert(inp.segments@[i as int].top == d || inp.segments@[i as int].bottom == d);
            return true;
        }
        assert(inp.segments@[i as int].top != d && inp.segments@[i as int].bottom != d);
        i = i + 1;
    }
    let mut j: usize = 0;
    while j < inp.markers.len()
        invariant
            j <= inp.markers@.len(),
            forall|k: int| 0 <= k < inp.segments@.len() ==> (#[trigger] inp.segments@[k]).top != d && inp.segments@[k].bottom != d,
            forall|k: int| 0 <= k < j ==> (#[trigger] inp.markers@[k]).depth != d,
        decreases inp.markers@.len() - j,
    {
        if inp.markers[j].depth == d {
            assert(inp.markers@[j as int].depth == d);
            return true;
        }
        assert(inp.markers@[j as int].depth != d);
        j = j + 1;
    }
    false
}

/// Every node depth of `a` is a node depth of `b`.
fn nodes_within(a: &SolveInput, b: &SolveInput) -> (r: bool)
    ensures r == node_depths(*a).subset_of(node_depths(*b)),
{
    let mut i: usize = 0;
    while i < a.segments.len()
        invariant
            i <= a.segments@.len(),
            forall|k: int| 0 <= k < i ==> stands_at(*b, (#[trigger] a.segments@[k]).top) && stands_at(*b, a.segments@[k].bottom),
        decreases a.segments@.len() - i,
    {
        if !stands(b, a.segments[i].top) || !stands(b, a.segments[i].bottom) {
            proof {
                let s = a.segments@[i as int];
                assert(stands_at(*a, s.top) && stands_at(*a, s.bottom));
                assert(node_depths(*a).contains(s.top) && node_depths(*a).contains(s.bottom));
            }
            return false;
        }
        assert(stands_at(*b, a.segments@[i as int].top) && stands_at(*b, a.segments@[i as int].bottom));
        i = i + 1;
    }
    let mut j: usize = 0;
    while j < a.markers.len()
        invariant
            j <= a.markers@.len(),
            forall|k: int| 0 <= k < a.segments@.len() ==> stands_at(*b, (#[trigger] a.segments@[k]).top) && stands_at(*b, a.segments@[k].bottom),
            forall|k: int| 0 <= k < j ==> stands_at(*b, (#[trigger] a.markers@[k]).depth),
        decreases a.markers@.len() - j,
    {
        if !stands(b, a.markers[j].depth) {
            proof {
                assert(stands_at(*a, a.markers@[j as int].depth));
                assert(node_depths(*a).contains(a.markers@[j as int].depth));
            }
            return false;
        }
        assert(stands_at(*b, a.markers@[j as int].depth));
        j = j + 1;
    }
    proof {
        assert forall|d: u64| node_depths(*a).contains(d) implies node_depths(*b).contains(d) by {
            assert(stands_at(*a, d));
            if exists|k: int| 0 <= k < a.segments@.len() && (#[trigger] a.segments@[k].top == d || a.segments@[k].bottom == d) {
                let k = choose|k: int| 0 <= k < a.segments@.len() && (#[trigger] a.segments@[k].top == d || a.segments@[k].bottom == d);
                assert(stands_at(*b, a.segments@[k].top) && stands_at(*b, a.segments@[k].bottom));
            } else {
                let k = choose|k: int| 0 <= k < a.markers@.len() && #[trigger] a.markers@[k].depth == d;
                assert(stands_at(*b, a.markers@[k].depth));
            }
        }
    }
    true
}


pub open spec fn marker_line(id: Seq<char>) -> Seq<char> {
    "锦标 "@ + id + " 已变更/排除/恢复"@
}

pub open spec fn gap_line(id: Seq<char>) -> Seq<char> {
    "缺芯 "@ + id + " 边界（最小年数）已调整"@
}

pub open spec fn structure_line(id: Seq<char>) -> Seq<char> {
    "芯段 "@ + id + " 结构变化（深度/存在性）"@
}

pub open spec fn exchange_line(group: Seq<char>) -> Seq<char> {
    "交换组 "@ + group + " 状态变化"@
}

/// Detail lines for the marker ids `ids`, in that order.
pub open spec fn marker_lines(ids: Seq<Seq<char>>, base: SolveInput, now: SolveInput, bsig: Seq<String>, nsig: Seq<String>) -> Seq<Seq<char>>
    decreases ids.len(),
{
    if ids.len() == 0 {
        Seq::empty()
    } else {
        let rest = marker_lines(ids.drop_last(), base, now, bsig, nsig);
        if marker_changed(base, now, bsig, nsig, ids.last()) { rest.push(marker_line(ids.last())) } else { rest }
    }
}

/// Detail lines for the segment ids `ids`, in that order.
pub open spec fn segment_lines(ids: Seq<Seq<char>>, base: SolveInput, now: SolveInput, bsig: Seq<String>, nsig: Seq<String>) -> Seq<Seq<char>>
    decreases ids.len(),
{
    if ids.len() == 0 {
        Seq::empty()
    } else {
        let rest = segment_lines(ids.drop_last(), base, now, bsig, nsig);
        let id = ids.last();
        if !segment_changed(base, now, bsig, nsig, id) {
            rest
        } else if !same_geometry(base, now, id) {
            rest.push(structure_line(id))
        } else if gap_in_either(base, now, id) {
            rest.push(gap_line(id))
        } else {
            rest
        }
    }
}

/// Detail lines for the first `k` positions of the exchange lists.
pub open spec fn exchange_lines(base: SolveInput, now: SolveInput, k: int) -> Seq<Seq<char>>
    decreases k,
{
    if k <= 0 {
        Seq::empty()
    } else {
        let rest = exchange_lines(base, now, k - 1);
        if exchange_changed_at(base, now, k - 1) { rest.push(exchange_line(now.exchanges@[k - 1].group@)) } else { rest }
    }
}

proof fn lemma_first_index_found(ids: Seq<Seq<char>>, id: Seq<char>, k: int)
    requires 0 <= k < ids.len(), ids[k] == id, forall|j: int| 0 <= j < k ==> ids[j] != id,
    ensures first_index(ids, id) == k,
{
    let c = choose|c: int| 0 <= c < ids.len() && ids[c] == id && (forall|j: int| 0 <= j < c ==> ids[j] != id);
    if c < k { assert(ids[c] != id); }
    if k < c { assert(ids[k] != id); }
}

proof fn lemma_first_index_absent(ids: Seq<Seq<char>>, id: Seq<char>)
    requires forall|j: int| 0 <= j < ids.len() ==> ids[j] != id,
    ensures first_index(ids, id) == -1, !ids.contains(id),
{
}

fn find_marker(markers: &Vec<Marker>, id: &String) -> (r: Option<usize>)
    ensures
        match r {
            Some(k) => k < markers@.len() && k as int == first_index(markers@.map_values(|m: Marker| m.id@), id@),
            None => first_index(markers@.map_values(|m: Marker| m.id@), id@) == -1,
        },
{
    let ghost ids = markers@.map_values(|m: Marker| m.id@);
    let mut i: usize = 0;
    while i < markers.len()
        invariant
            i <= markers@.len(),
            ids == markers@.map_values(|m: Marker| m.id@),
            forall|j: int| 0 <= j < i ==> ids[j] != id@,
        decreases markers@.len() - i,
    {
        if markers[i].id == *id {
            proof { lemma_first_index_found(ids, id@, i as int); }
            return Some(i);
        }
        i = i + 1;
    }
    proof { lemma_first_index_absent(ids, id@); }
    None
}

fn find_segment(segments: &Vec<Segment>, id: &String) -> (r: Option<usize>)
    ensures
        match r {
            Some(k) => k < segments@.len() && k as int == first_index(segments@.map_values(|s: Segment| s.id@), id@),
            None => first_index(segments@.map_values(|s: Segment| s.id@), id@) == -1,
        },
{
    let ghost ids = segments@.map_values(|s: Segment| s.id@);
    let mut i: usize = 0;
    while i < segments.len()
        invariant
            i <= segments@.len(),
            ids == segments@.map_values(|s: Segment| s.id@),
            forall|j: int| 0 <= j < i ==> ids[j] != id@,
        decreases segments@.len() - i,
    {
        if segments[i].id == *id {
            proof { lemma_first_index_found(ids, id@, i as int); }
            return Some(i);
        }
        i = i + 1;
    }
    proof { lemma_first_index_absent(ids, id@); }
    None
}

/// The text of `line_start + id + line_end`.
fn line(start: &str, id: &String, end: &str) -> (r: String)
    ensures r@ == start@ + id@ + end@,
{
    let mut r = String::from_str(start);
    r.append(id.as_str());
    r.append(end);
    r
}


proof fn lemma_take_contains(s: Seq<Seq<char>>, i: int)
    requires 0 <= i < s.len(),
    ensures forall|x: Seq<char>| #[trigger] s.take(i + 1).contains(x) <==> (s.take(i).contains(x) || x == s[i]),
{
    broadcast use vstd::seq_lib::group_seq_properties;
    assert(s.take(i + 1) =~= s.take(i).push(s[i]));
}

/// The ids of both marker lists, as an ordered set.
fn all_marker_ids(base: &SolveInput, now: &SolveInput) -> (ids: Vec<String>)
    ensures
        strictly_sorted(views(ids@)),
        views(ids@).to_set() == marker_ids(*base).to_set() + marker_ids(*now).to_set(),
{
    let mut ids: Vec<String> = Vec::new();
    let ghost bids = marker_ids(*base);
    let ghost nids = marker_ids(*now);
    let mut i: usize = 0;
    assert(views(ids@).to_set() =~= bids.take(0).to_set());
    while i < base.markers.len()
        invariant
            i <= base.markers@.len(),
            bids == marker_ids(*base),
            strictly_sorted(views(ids@)),
            views(ids@).to_set() == bids.take(i as int).to_set(),
        decreases base.markers@.len() - i,
    {
        insert_sorted(&mut ids, base.markers[i].id.clone());
        assert(bids.take(i + 1) =~= bids.take(i as int).push(bids[i as int]));
        proof { bids.take(i as int).lemma_push_to_set_commute(bids[i as int]); }
        i = i + 1;
    }
    assert(bids.take(i as int) =~= bids);
    let mut j: usize = 0;
    assert(nids.take(0).to_set() =~= Set::empty());
    while j < now.markers.len()
        invariant
            j <= now.markers@.len(),
            bids == marker_ids(*base),
            nids == marker_ids(*now),
            strictly_sorted(views(ids@)),
            views(ids@).to_set() == bids.to_set() + nids.take(j as int).to_set(),
        decreases now.markers@.len() - j,
    {
        insert_sorted(&mut ids, now.markers[j].id.clone());
        assert(nids.take(j + 1) =~= nids.take(j as int).push(nids[j as int]));
        proof { nids.take(j as int).lemma_push_to_set_commute(nids[j as int]); }
        assert(views(ids@).to_set() =~= bids.to_set() + nids.take(j + 1).to_set());
        j = j + 1;
    }
    assert(nids.take(j as int) =~= nids);
    ids
}

/// The ids of both segment lists, as an ordered set.
fn all_segment_ids(base: &SolveInput, now: &SolveInput) -> (ids: Vec<String>)
    ensures
        strictly_sorted(views(ids@)),
        views(ids@).to_set() == segment_ids(*base).to_set() + segment_ids(*now).to_set(),
{
    let mut ids: Vec<String> = Vec::new();
    let ghost bids = segment_ids(*base);
    let ghost nids = segment_ids(*now);
    let mut i: usize = 0;
    assert(views(ids@).to_set() =~= bids.take(0).to_set());
    while i < base.segments.len()
        invariant
            i <= base.segments@.len(),
            bids == segment_ids(*base),
            strictly_sorted(views(ids@)),
            views(ids@).to_set() == bids.take(i as int).to_set(),
        decreases base.segments@.len() - i,
    {
        insert_sorted(&mut ids, base.segments[i].id.clone());
        assert(bids.take(i + 1) =~= bids.take(i as int).push(bids[i as int]));
        proof { bids.take(i as int).lemma_push_to_set_commute(bids[i as int]); }
        i = i + 1;
    }
    assert(bids.take(i as int) =~= bids);
    let mut j: usize = 0;
    assert(nids.take(0).to_set() =~= Set::empty());
    while j < now.segments.len()
        invariant
            j <= now.segments@.len(),
            bids == segment_ids(*base),
            nids == segment_ids(*now),
            strictly_sorted(views(ids@)),
            views(ids@).to_set() == bids.to_set() + nids.take(j as int).to_set(),
        decreases now.segments@.len() - j,
    {
        insert_sorted(&mut ids, now.segments[j].id.clone());
        assert(nids.take(j + 1) =~= nids.take(j as int).push(nids[j as int]));
        proof { nids.take(j as int).lemma_push_to_set_commute(nids[j as int]); }
        assert(views(ids@).to_set() =~= bids.to_set() + nids.take(j + 1).to_set());
        j = j + 1;
    }
    assert(nids.take(j as int) =~= nids);
    ids
}


/// The marker keys gathered from the marker scan: changed ids among the first `i` of `mids`.
pub open spec fn scanned_markers(mids: Seq<Seq<char>>, i: int, base: SolveInput, now: SolveInput, bsig: Seq<String>, nsig: Seq<String>) -> Set<Seq<char>> {
    Set::new(|id: Seq<char>| mids.take(i).contains(id) && marker_changed(base, now, bsig, nsig, id))
}

/// Markers of `now` in an exchange group whose state changed at a position below `k`,
/// or at position `k` among the first `m` markers.
pub open spec fn exchange_markers(base: SolveInput, now: SolveInput, k: int, m: int) -> Set<Seq<char>> {
    Set::new(|id: Seq<char>|
        exists|k2: int, m2: int|
            #[trigger] exchange_changed_at(base, now, k2) && 0 <= m2 < now.markers@.len()
                && (k2 < k || (k2 == k && m2 < m))
                && now.markers@[m2].id@ == id
                && in_group(#[trigger] now.markers@[m2], now.exchanges@[k2].group@))
}

fn same_signature(a: Option<usize>, b: Option<usize>, asigs: &Vec<String>, bsigs: &Vec<String>) -> (r: bool)
    requires
        a matches Some(x) ==> x < asigs@.len(),
        b matches Some(y) ==> y < bsigs@.len(),
    ensures
        r == ((match a { Some(x) => Some(asigs@[x as int]@), None => None::<Seq<char>> })
            == (match b { Some(y) => Some(bsigs@[y as int]@), None => None::<Seq<char>> })),
{
    match (a, b) {
        (Some(x), Some(y)) => asigs[x] == bsigs[y],
        (None, None) => true,
        _ => false,
    }
}

/// The keys that changed from `base` to `now`. `*_marker_signatures[i]` and
/// `*_segment_signatures[i]` are the serialised texts of the `i`-th marker and
/// segment of each input.
pub fn diff_inputs(
    base: &SolveInput,
    now: &SolveInput,
    base_marker_signatures: &Vec<String>,
    now_marker_signatures: &Vec<String>,
    base_segment_signatures: &Vec<String>,
    now_segment_signatures: &Vec<String>,
) -> (keys: ChangeKeys)
    requires
        base_marker_signatures@.len() == base.markers@.len(),
        now_marker_signatures@.len() == now.markers@.len(),
        base_segment_signatures@.len() == base.segments@.len(),
        now_segment_signatures@.len() == now.segments@.len(),
    ensures
        strictly_sorted(views(keys.markers@)),
        views(keys.markers@).to_set() == changed_markers(*base, *now, base_marker_signatures@, now_marker_signatures@),
        strictly_sorted(views(keys.gaps@)),
        views(keys.gaps@).to_set() == changed_gaps(*base, *now, base_segment_signatures@, now_segment_signatures@),
        keys.structural == structural_change(*base, *now, base_segment_signatures@, now_segment_signatures@),
        exists|mids: Seq<Seq<char>>, sids: Seq<Seq<char>>| {
            &&& strictly_sorted(mids) && mids.to_set() == marker_ids(*base).to_set() + marker_ids(*now).to_set()
            &&& strictly_sorted(sids) && sids.to_set() == segment_ids(*base).to_set() + segment_ids(*now).to_set()
            &&& #[trigger] views(keys.detail@) == marker_lines(mids, *base, *now, base_marker_signatures@, now_marker_signatures@)
                + segment_lines(sids, *base, *now, base_segment_signatures@, now_segment_signatures@)
                + exchange_lines(*base, *now, if base.exchanges@.len() < now.exchanges@.len() { base.exchanges@.len() as int } else { now.exchanges@.len() as int })
        },
{
    let ghost bsig = base_marker_signatures@;
    let ghost nsig = now_marker_signatures@;
    let ghost bseg = base_segment_signatures@;
    let ghost nseg = now_segment_signatures@;
    let mut detail: Vec<String> = Vec::new();
    let mut marker_keys: Vec<String> = Vec::new();

    // Markers, by id.
    let mids = all_marker_ids(base, now);
    let ghost mv = views(mids@);
    let mut i: usize = 0;
    assert(marker_lines(mv.take(0), *base, *now, bsig, nsig) =~= Seq::<Seq<char>>::empty());
    assert(views(marker_keys@).to_set() =~= scanned_markers(mv, 0, *base, *now, bsig, nsig));
    while i < mids.len()
        invariant
            i <= mids@.len(),
            mv == views(mids@),
            base_marker_signatures@.len() == base.markers@.len(),
            now_marker_signatures@.len() == now.markers@.len(),
            bsig == base_marker_signatures@,
            nsig == now_marker_signatures@,
            strictly_sorted(views(marker_keys@)),
            views(marker_keys@).to_set() == scanned_markers(mv, i as int, *base, *now, bsig, nsig),
            views(detail@) == marker_lines(mv.take(i as int), *base, *now, bsig, nsig),
        decreases mids@.len() - i,
    {
        let id = &mids[i];
        let b = find_marker(&base.markers, id);
        let n = find_marker(&now.markers, id);
        let same = same_signature(b, n, base_marker_signatures, now_marker_signatures);
        assert(mv.take(i + 1).drop_last() =~= mv.take(i as int));
        assert(mv.take(i + 1).last() == id@);
        assert(same == !marker_changed(*base, *now, bsig, nsig, id@));
        if !same {
            insert_sorted(&mut marker_keys, id.clone());
            detail.push(line("锦标 ", id, " 已变更/排除/恢复"));
        }
        assert(views(detail@) =~= marker_lines(mv.take(i + 1), *base, *now, bsig, nsig));
        assert(views(marker_keys@).to_set() =~= scanned_markers(mv, i + 1, *base, *now, bsig, nsig)) by {
            lemma_take_contains(mv, i as int);
        }
        i = i + 1;
    }
    assert(mv.take(i as int) =~= mv);

    // Segments, by id.
    let mut gap_keys: Vec<String> = Vec::new();
    let mut structural = base.segments.len() != now.segments.len() || base.draws != now.draws || base.seed != now.seed;
    let ghost initial = structural;
    let sids = all_segment_ids(base, now);
    let ghost sv = views(sids@);
    let ghost detail_markers = views(detail@);
    let mut j: usize = 0;
    assert(segment_lines(sv.take(0), *base, *now, bseg, nseg) =~= Seq::<Seq<char>>::empty());
    assert(views(detail@) =~= detail_markers + segment_lines(sv.take(0), *base, *now, bseg, nseg));
    assert(views(gap_keys@).to_set() =~= Set::new(|id: Seq<char>| sv.take(0).contains(id)
        && segment_changed(*base, *now, bseg, nseg, id) && same_geometry(*base, *now, id) && gap_in_either(*base, *now, id)));
    while j < sids.len()
        invariant
            j <= sids@.len(),
            sv == views(sids@),
            base_segment_signatures@.len() == base.segments@.len(),
            now_segment_signatures@.len() == now.segments@.len(),
            bseg == base_segment_signatures@,
            nseg == now_segment_signatures@,
            strictly_sorted(views(gap_keys@)),
            views(gap_keys@).to_set() == Set::new(|id: Seq<char>| sv.take(j as int).contains(id)
                && segment_changed(*base, *now, bseg, nseg, id) && same_geometry(*base, *now, id) && gap_in_either(*base, *now, id)),
            structural == (initial || exists|id: Seq<char>| sv.take(j as int).contains(id)
                && #[trigger] segment_changed(*base, *now, bseg, nseg, id) && !same_geometry(*base, *now, id)),
            views(detail@) == detail_markers + segment_lines(sv.take(j as int), *base, *now, bseg, nseg),
        decreases sids@.len() - j,
    {
        let id = &sids[j];
        let b = find_segment(&base.segments, id);
        let n = find_segment(&now.segments, id);
        let same = same_signature(b, n, base_segment_signatures, now_segment_signatures);
        assert(sv.take(j + 1).drop_last() =~= sv.take(j as int));
        assert(sv.take(j + 1).last() == id@);
        assert(same == !segment_changed(*base, *now, bseg, nseg, id@));
        let ghost prev_structural = structural;
        let ghost prev_gaps = views(gap_keys@).to_set();
        let ghost prev_detail = views(detail@);
        if !same {
            let geometry = match (b, n) {
                (Some(x), Some(y)) => {
                    let bs = &base.segments[x];
                    let ns = &now.segments[y];
                    equal(bs.top, ns.top) && equal(bs.bottom, ns.bottom) && bs.present == ns.present && bs.note == ns.note
                }
                _ => false,
            };
            assert(geometry == same_geometry(*base, *now, id@));
            if geometry {
                let gap = match (b, n) {
                    (Some(x), Some(y)) => !base.segments[x].present || !now.segments[y].present,
                    _ => false,
                };
                assert(gap == gap_in_either(*base, *now, id@));
                if gap {
                    insert_sorted(&mut gap_keys, id.clone());
                    let l = line("缺芯 ", id, " 边界（最小年数）已调整");
                    detail.push(l);
                    assert(views(detail@) =~= prev_detail.push(gap_line(id@)));
                }
            } else {
                structural = true;
                let l = line("芯段 ", id, " 结构变化（深度/存在性）");
                detail.push(l);
                assert(views(detail@) =~= prev_detail.push(structure_line(id@)));
            }
        }
        proof { lemma_take_contains(sv, j as int); }
        assert(segment_lines(sv.take(j + 1), *base, *now, bseg, nseg) == {
            let rest = segment_lines(sv.take(j as int), *base, *now, bseg, nseg);
            if !segment_changed(*base, *now, bseg, nseg, id@) {
                rest
            } else if !same_geometry(*base, *now, id@) {
                rest.push(structure_line(id@))
            } else if gap_in_either(*base, *now, id@) {
                rest.push(gap_line(id@))
            } else {
                rest
            }
        });
        assert(views(detail@) =~= detail_markers + segment_lines(sv.take(j + 1), *base, *now, bseg, nseg));
        assert(views(gap_keys@).to_set() =~= Set::new(|id2: Seq<char>| sv.take(j + 1).contains(id2)
            && segment_changed(*base, *now, bseg, nseg, id2) && same_geometry(*base, *now, id2) && gap_in_either(*base, *now, id2)));
        assert(structural == (initial || exists|id2: Seq<char>| sv.take(j + 1).contains(id2)
            && #[trigger] segment_changed(*base, *now, bseg, nseg, id2) && !same_geometry(*base, *now, id2))) by {
            if exists|id2: Seq<char>| sv.take(j + 1).contains(id2)
                && #[trigger] segment_changed(*base, *now, bseg, nseg, id2) && !same_geometry(*base, *now, id2) {
                let id2 = choose|id2: Seq<char>| sv.take(j + 1).contains(id2)
                    && #[trigger] segment_changed(*base, *now, bseg, nseg, id2) && !same_geometry(*base, *now, id2);
                if id2 != id@ {
                    assert(sv.take(j as int).contains(id2));
                }
            }
            if prev_structural && !initial {
                let id2 = choose|id2: Seq<char>| sv.take(j as int).contains(id2)
                    && #[trigger] segment_changed(*base, *now, bseg, nseg, id2) && !same_geometry(*base, *now, id2);
                assert(sv.take(j + 1).contains(id2));
            }
        }
        j = j + 1;
    }
    assert(sv.take(j as int) =~= sv);
    let ghost detail_segments = views(detail@);

    // Exchange groups, position by position.
    let ghost scanned = views(marker_keys@).to_set();
    let count = if base.exchanges.len() < now.exchanges.len() { base.exchanges.len() } else { now.exchanges.len() };
    let mut k: usize = 0;
    assert(exchange_lines(*base, *now, 0) =~= Seq::<Seq<char>>::empty());
    assert(views(detail@) =~= detail_segments + exchange_lines(*base, *now, 0));
    assert(views(marker_keys@).to_set() =~= scanned + exchange_markers(*base, *now, 0, 0));
    while k < count
        invariant
            k <= count,
            count <= base.exchanges@.len(),
            count <= now.exchanges@.len(),
            count == base.exchanges@.len() || count == now.exchanges@.len(),
            strictly_sorted(views(marker_keys@)),
            views(marker_keys@).to_set() == scanned + exchange_markers(*base, *now, k as int, 0),
            views(detail@) == detail_segments + exchange_lines(*base, *now, k as int),
        decreases count - k,
    {
        let b = &base.exchanges[k];
        let n = &now.exchanges[k];
        let differs = !(b.group == n.group) || b.swapped != n.swapped;
        assert(differs == exchange_changed_at(*base, *now, k as int));
        if differs {
            let mut m: usize = 0;
            while m < now.markers.len()
                invariant
                    m <= now.markers@.len(),
                    k < count,
                    count <= base.exchanges@.len(),
                    count <= now.exchanges@.len(),
                    n == now.exchanges@[k as int],
                    exchange_changed_at(*base, *now, k as int),
                    views(detail@) == detail_segments + exchange_lines(*base, *now, k as int),
                    strictly_sorted(views(marker_keys@)),
                    views(marker_keys@).to_set() == scanned + exchange_markers(*base, *now, k as int, m as int),
                decreases now.markers@.len() - m,
            {
                let member = match &now.markers[m].exchange_group {
                    Some(g) => *g == n.group,
                    None => false,
                };
                assert(member == in_group(now.markers@[m as int], n.group@));
                if member {
                    insert_sorted(&mut marker_keys, now.markers[m].id.clone());
                }
                assert(views(marker_keys@).to_set() =~= scanned + exchange_markers(*base, *now, k as int, m + 1)) by {
                    assert forall|x: Seq<char>| exchange_markers(*base, *now, k as int, m + 1).contains(x)
                        <==> (exchange_markers(*base, *now, k as int, m as int).contains(x) || (member && x == now.markers@[m as int].id@)) by {
                        if exchange_markers(*base, *now, k as int, m + 1).contains(x) {
                            let (k2, m2) = choose|k2: int, m2: int|
                                #[trigger] exchange_changed_at(*base, *now, k2) && 0 <= m2 < now.markers@.len()
                                    && (k2 < k || (k2 == k && m2 < m + 1))
                                    && now.markers@[m2].id@ == x
                                    && in_group(#[trigger] now.markers@[m2], now.exchanges@[k2].group@);
                            if !(k2 == k && m2 == m) {
                                assert(exchange_markers(*base, *now, k as int, m as int).contains(x));
                            }
                        }
                        if exchange_markers(*base, *now, k as int, m as int).contains(x) {
                            let (k2, m2) = choose|k2: int, m2: int|
                                #[trigger] exchange_changed_at(*base, *now, k2) && 0 <= m2 < now.markers@.len()
                                    && (k2 < k || (k2 == k && m2 < m))
                                    && now.markers@[m2].id@ == x
                                    && in_group(#[trigger] now.markers@[m2], now.exchanges@[k2].group@);
                            assert(exchange_changed_at(*base, *now, k2) && (k2 < k || (k2 == k && m2 < m + 1)));
                        }
                        if member && x == now.markers@[m as int].id@ {
                            assert(exchange_changed_at(*base, *now, k as int) && in_group(now.markers@[m as int], now.exchanges@[k as int].group@));
                        }
                    }
                }
                m = m + 1;
            }
            let ghost before_push = views(detail@);
            let l = line("交换组 ", &n.group, " 状态变化");
            detail.push(l);
            assert(views(detail@) =~= before_push.push(exchange_line(now.exchanges@[k as int].group@)));
        }
        assert(exchange_lines(*base, *now, k + 1) == {
            let rest = exchange_lines(*base, *now, k as int);
            if exchange_changed_at(*base, *now, k as int) { rest.push(exchange_line(now.exchanges@[k as int].group@)) } else { rest }
        });
        assert(views(detail@) =~= detail_segments + exchange_lines(*base, *now, k + 1));
        assert(exchange_markers(*base, *now, k + 1, 0) =~= exchange_markers(*base, *now, k as int, now.markers@.len() as int)) by {
            assert forall|x: Seq<char>| exchange_markers(*base, *now, k + 1, 0).contains(x)
                <==> exchange_markers(*base, *now, k as int, now.markers@.len() as int).contains(x) by {
                if exchange_markers(*base, *now, k + 1, 0).contains(x) {
                    let (k2, m2) = choose|k2: int, m2: int|
                        #[trigger] exchange_changed_at(*base, *now, k2) && 0 <= m2 < now.markers@.len()
                            && (k2 < k + 1 || (k2 == k + 1 && m2 < 0))
                            && now.markers@[m2].id@ == x
                            && in_group(#[trigger] now.markers@[m2], now.exchanges@[k2].group@);
                    assert(k2 < k || (k2 == k && m2 < now.markers@.len()));
                }
                if exchange_markers(*base, *now, k as int, now.markers@.len() as int).contains(x) {
                    let (k2, m2) = choose|k2: int, m2: int|
                        #[trigger] exchange_changed_at(*base, *now, k2) && 0 <= m2 < now.markers@.len()
                            && (k2 < k || (k2 == k && m2 < now.markers@.len()))
                            && now.markers@[m2].id@ == x
                            && in_group(#[trigger] now.markers@[m2], now.exchanges@[k2].group@);
                    assert(k2 < k + 1);
                }
            }
        }
        if !differs {
            assert(exchange_markers(*base, *now, k as int, now.markers@.len() as int) =~= exchange_markers(*base, *now, k as int, 0)) by {
                assert forall|x: Seq<char>| exchange_markers(*base, *now, k as int, now.markers@.len() as int).contains(x)
                    implies exchange_markers(*base, *now, k as int, 0).contains(x) by {
                    {
                        let (k2, m2) = choose|k2: int, m2: int|
                            #[trigger] exchange_changed_at(*base, *now, k2) && 0 <= m2 < now.markers@.len()
                                && (k2 < k || (k2 == k && m2 < now.markers@.len()))
                                && now.markers@[m2].id@ == x
                                && in_group(#[trigger] now.markers@[m2], now.exchanges@[k2].group@);
                        assert(k2 != k);
                    }
                }
            }
        }
        k = k + 1;
    }

    // The final marker set, in order.
    proof {
        assert(exchange_markers(*base, *now, count as int, 0) =~= Set::new(|id: Seq<char>| in_changed_exchange(*base, *now, id))) by {
            assert forall|x: Seq<char>| exchange_markers(*base, *now, count as int, 0).contains(x) <==> in_changed_exchange(*base, *now, x) by {
                if in_changed_exchange(*base, *now, x) {
                    let (k2, m2) = choose|k2: int, m2: int|
                        #[trigger] exchange_changed_at(*base, *now, k2) && 0 <= m2 < now.markers@.len()
                            && now.markers@[m2].id@ == x
                            && in_group(#[trigger] now.markers@[m2], now.exchanges@[k2].group@);
                    assert(k2 < count);
                }
            }
        }
        assert(scanned =~= Set::new(|id: Seq<char>|
            (marker_ids(*base).contains(id) || marker_ids(*now).contains(id)) && marker_changed(*base, *now, bsig, nsig, id))) by {
            assert forall|x: Seq<char>| mv.contains(x) <==> (marker_ids(*base).contains(x) || marker_ids(*now).contains(x)) by {
                assert(mv.to_set().contains(x) == mv.contains(x));
                assert(marker_ids(*base).to_set().contains(x) == marker_ids(*base).contains(x));
                assert(marker_ids(*now).to_set().contains(x) == marker_ids(*now).contains(x));
            }
        }
        assert(views(marker_keys@).to_set() =~= changed_markers(*base, *now, bsig, nsig));
        assert(views(gap_keys@).to_set() =~= changed_gaps(*base, *now, bseg, nseg)) by {
            assert forall|x: Seq<char>| sv.contains(x) <==> (segment_ids(*base).contains(x) || segment_ids(*now).contains(x)) by {
                assert(sv.to_set().contains(x) == sv.contains(x));
                assert(segment_ids(*base).to_set().contains(x) == segment_ids(*base).contains(x));
                assert(segment_ids(*now).to_set().contains(x) == segment_ids(*now).contains(x));
            }
        }
        assert(structural == layout_change(*base, *now, bseg, nseg)) by {
            assert forall|x: Seq<char>| sv.contains(x) <==> (segment_ids(*base).contains(x) || segment_ids(*now).contains(x)) by {
                assert(sv.to_set().contains(x) == sv.contains(x));
                assert(segment_ids(*base).to_set().contains(x) == segment_ids(*base).contains(x));
                assert(segment_ids(*now).to_set().contains(x) == segment_ids(*now).contains(x));
            }
        }
        assert(views(detail@) == marker_lines(mv, *base, *now, bsig, nsig) + segment_lines(sv, *base, *now, bseg, nseg)
            + exchange_lines(*base, *now, count as int));
    }
    let same_depths = nodes_within(base, now) && nodes_within(now, base);
    proof {
        if same_depths {
            assert(node_depths(*base) =~= node_depths(*now));
        }
    }
    let structural = structural || !same_depths;
    ChangeKeys { markers: marker_keys, gaps: gap_keys, structural, detail }
}


/// How one quantile row (a node or an edge) of a fresh run relates to the old run.
#[derive(Clone, Copy, Debug, PartialEq, Eq, Structural)]
pub enum Reuse {
    /// The input changed structurally: everything is recomputed.
    Restructured,
    /// The row depends on a changed marker.
    MarkerChanged,
    /// The row depends on a changed gap lower bound.
    GapChanged,
    /// The old run has no row at the same place.
    NoCounterpart,
    /// Nothing it depends on changed, yet its quantiles differ.
    Drifted,
    /// Nothing it depends on changed and its quantiles are bit-identical: reused.
    Unchanged,
}

/// A quantile row of a fresh run, with the old row at the same place if any.
/// Quantiles are the (5 %, median, 95 %) triple as binary64 bit patterns.
#[derive(Debug)]
pub struct RowQuery {
    pub dep_markers: Vec<String>,
    pub dep_gaps: Vec<String>,
    pub quantiles: (u64, u64, u64),
    pub previous: Option<(u64, u64, u64)>,
}

/// The verdicts on a fresh run's rows.
#[derive(Debug)]
pub struct ReuseSummary {
    pub verdicts: Vec<Reuse>,
    pub reused: usize,
    pub invalidated: usize,
}

/// Some key of `keys` occurs in `deps`.
pub open spec fn hits(keys: Seq<String>, deps: Seq<String>) -> bool {
    exists|a: int, b: int| 0 <= a < keys.len() && 0 <= b < deps.len() && #[trigger] keys[a]@ == #[trigger] deps[b]@
}

/// The three quantiles are bit-identical.
pub open spec fn same_quantiles(a: (u64, u64, u64), b: (u64, u64, u64)) -> bool {
    a.0 == b.0 && a.1 == b.1 && a.2 == b.2
}

/// The verdict on one row.
pub open spec fn reuse_of(changes: ChangeKeys, row: RowQuery) -> Reuse {
    if changes.structural {
        Reuse::Restructured
    } else if hits(changes.markers@, row.dep_markers@) {
        Reuse::MarkerChanged
    } else if hits(changes.gaps@, row.dep_gaps@) {
        Reuse::GapChanged
    } else {
        match row.previous {
            None => Reuse::NoCounterpart,
            Some(old) => if same_quantiles(old, row.quantiles) { Reuse::Unchanged } else { Reuse::Drifted },
        }
    }
}

/// The number of reused rows among the first `n` verdicts.
pub open spec fn reused_count(verdicts: Seq<Reuse>, n: int) -> int
    decreases n,
{
    if n <= 0 { 0 } else { reused_count(verdicts, n - 1) + (if verdicts[n - 1] == Reuse::Unchanged { 1int } else { 0int }) }
}

fn any_hit(keys: &Vec<String>, deps: &Vec<String>) -> (r: bool)
    ensures r == hits(keys@, deps@),
{
    let mut a: usize = 0;
    while a < keys.len()
        invariant
            a <= keys@.len(),
            forall|a2: int, b2: int| 0 <= a2 < a && 0 <= b2 < deps@.len() ==> #[trigger] keys@[a2]@ != #[trigger] deps@[b2]@,
        decreases keys@.len() - a,
    {
        let mut b: usize = 0;
        while b < deps.len()
            invariant
                a < keys@.len(),
                b <= deps@.len(),
                forall|a2: int, b2: int| 0 <= a2 < a && 0 <= b2 < deps@.len() ==> #[trigger] keys@[a2]@ != #[trigger] deps@[b2]@,
                forall|b2: int| 0 <= b2 < b ==> keys@[a as int]@ != #[trigger] deps@[b2]@,
            decreases deps@.len() - b,
        {
            if keys[a] == deps[b] {
                assert(keys@[a as int]@ == deps@[b as int]@);
                return true;
            }
            b = b + 1;
        }
        a = a + 1;
    }
    false
}

/// The verdict on one row.
pub fn reuse(changes: &ChangeKeys, row: &RowQuery) -> (r: Reuse)
    ensures r == reuse_of(*changes, *row),
{
    if changes.structural {
        Reuse::Restructured
    } else if any_hit(&changes.markers, &row.dep_markers) {
        Reuse::MarkerChanged
    } else if any_hit(&changes.gaps, &row.dep_gaps) {
        Reuse::GapChanged
    } else {
        match row.previous {
            None => Reuse::NoCounterpart,
            Some(old) => {
                if old.0 == row.quantiles.0 && old.1 == row.quantiles.1 && old.2 == row.quantiles.2 {
                    Reuse::Unchanged
                } else {
                    Reuse::Drifted
                }
            }
        }
    }
}

/// The verdict on every row, with the numbers of reused and invalidated rows.
pub fn classify(changes: &ChangeKeys, rows: &Vec<RowQuery>) -> (summary: ReuseSummary)
    ensures
        summary.verdicts@.len() == rows@.len(),
        forall|i: int| 0 <= i < rows@.len() ==> #[trigger] summary.verdicts@[i] == reuse_of(*changes, rows@[i]),
        summary.reused == reused_count(summary.verdicts@, rows@.len() as int),
        summary.reused + summary.invalidated == rows@.len(),
{
    let mut verdicts: Vec<Reuse> = Vec::new();
    let mut reused: usize = 0;
    let mut i: usize = 0;
    while i < rows.len()
        invariant
            i <= rows@.len(),
            verdicts@.len() == i,
            reused <= i,
            forall|k: int| 0 <= k < i ==> #[trigger] verdicts@[k] == reuse_of(*changes, rows@[k]),
            reused == reused_count(verdicts@, i as int),
        decreases rows@.len() - i,
    {
        let v = reuse(changes, &rows[i]);
        let ghost before = verdicts@;
        verdicts.push(v);
        proof { lemma_reused_count_prefix(verdicts@, before, i as int); }
        assert(verdicts@[i as int] == v);
        assert(reused_count(verdicts@, i + 1) == reused_count(verdicts@, i as int) + (if v == Reuse::Unchanged { 1int } else { 0int }));
        if v == Reuse::Unchanged {
            reused = reused + 1;
        }
        i = i + 1;
    }
    ReuseSummary { verdicts, reused, invalidated: rows.len() - reused }
}

proof fn lemma_reused_count_prefix(a: Seq<Reuse>, b: Seq<Reuse>, n: int)
    requires 0 <= n <= a.len(), n <= b.len(), forall|k: int| 0 <= k < n ==> a[k] == b[k],
    ensures reused_count(a, n) == reused_count(b, n),
    decreases n,
{
    if n > 0 {
        lemma_reused_count_prefix(a, b, n - 1);
    }
}

impl Reuse {
    /// The reason given for the verdict on a node (`edge == false`) or an edge.
    pub fn reason(&self, edge: bool) -> (text: String)
        ensures
            text@ == match *self {
                Reuse::Restructured => "结构变化：全量失效"@,
                Reuse::MarkerChanged => "依赖的锦标已变更"@,
                Reuse::GapChanged => "依赖的缺芯边界已调整"@,
                Reuse::NoCounterpart => if edge { "旧运行无对应边"@ } else { "旧运行无对应深度节点"@ },
                Reuse::Drifted => "依赖未变但数值漂移，保守失效"@,
                Reuse::Unchanged => if edge { "输入依赖未变化，速率分位数逐位一致"@ } else { "输入依赖未变化，分位数逐位一致"@ },
            },
    {
        match self {
            Reuse::Restructured => String::from_str("结构变化：全量失效"),
            Reuse::MarkerChanged => String::from_str("依赖的锦标已变更"),
            Reuse::GapChanged => String::from_str("依赖的缺芯边界已调整"),
            Reuse::NoCounterpart => if edge { String::from_str("旧运行无对应边") } else { String::from_str("旧运行无对应深度节点") },
            Reuse::Drifted => String::from_str("依赖未变但数值漂移，保守失效"),
            Reuse::Unchanged => if edge { String::from_str("输入依赖未变化，速率分位数逐位一致") } else { String::from_str("输入依赖未变化，分位数逐位一致") },
        }
    }
}

/// Reuse law: a row is reused exactly when the input changed only
/// non-structurally, none of its marker or gap dependencies changed, and an
/// old row exists whose quantiles are bit-identical to the fresh ones.
pub proof fn lemma_reuse_is_exact(changes: ChangeKeys, row: RowQuery)
    ensures
        reuse_of(changes, row) == Reuse::Unchanged <==> {
            &&& !changes.structural
            &&& !hits(changes.markers@, row.dep_markers@)
            &&& !hits(changes.gaps@, row.dep_gaps@)
            &&& row.previous matches Some(old) && same_quantiles(old, row.quantiles)
        },
{
}

/// Comparing an input with itself finds no changed marker, no changed gap
/// and no structural change.
pub proof fn lemma_same_input_has_no_changes(inp: SolveInput, marker_sigs: Seq<String>, segment_sigs: Seq<String>)
    ensures
        changed_markers(inp, inp, marker_sigs, marker_sigs) == Set::<Seq<char>>::empty(),
        changed_gaps(inp, inp, segment_sigs, segment_sigs) == Set::<Seq<char>>::empty(),
        !structural_change(inp, inp, segment_sigs, segment_sigs),
{
    assert(changed_markers(inp, inp, marker_sigs, marker_sigs) =~= Set::<Seq<char>>::empty());
    assert(changed_gaps(inp, inp, segment_sigs, segment_sigs) =~= Set::<Seq<char>>::empty());
}

/// Replaying an unchanged input: with the change keys that `diff_inputs`
/// gives for an input against itself, a row is reused exactly when an old
/// row exists and its quantiles are bit-identical to the fresh ones.
pub proof fn lemma_unchanged_input_reuses_identical_rows(
    inp: SolveInput,
    marker_sigs: Seq<String>,
    segment_sigs: Seq<String>,
    keys: ChangeKeys,
    row: RowQuery,
)
    requires
        views(keys.markers@).to_set() == changed_markers(inp, inp, marker_sigs, marker_sigs),
        views(keys.gaps@).to_set() == changed_gaps(inp, inp, segment_sigs, segment_sigs),
        keys.structural == structural_change(inp, inp, segment_sigs, segment_sigs),
    ensures
        reuse_of(keys, row) == match row.previous {
            None => Reuse::NoCounterpart,
            Some(old) => if same_quantiles(old, row.quantiles) { Reuse::Unchanged } else { Reuse::Drifted },
        },
{
    lemma_same_input_has_no_changes(inp, marker_sigs, segment_sigs);
    if hits(keys.markers@, row.dep_markers@) {
        let (a, b) = choose|a: int, b: int| 0 <= a < keys.markers@.len() && 0 <= b < row.dep_markers@.len()
            && #[trigger] keys.markers@[a]@ == #[trigger] row.dep_markers@[b]@;
        assert(views(keys.markers@)[a] == keys.markers@[a]@);
        assert(views(keys.markers@).to_set().contains(keys.markers@[a]@));
    }
    if hits(keys.gaps@, row.dep_gaps@) {
        let (a, b) = choose|a: int, b: int| 0 <= a < keys.gaps@.len() && 0 <= b < row.dep_gaps@.len()
            && #[trigger] keys.gaps@[a]@ == #[trigger] row.dep_gaps@[b]@;
        assert(views(keys.gaps@)[a] == keys.gaps@[a]@);
        assert(views(keys.gaps@).to_set().contains(keys.gaps@[a]@));
    }
}

/// The verdict on a row, reason by reason, in order of precedence: a
/// structural change invalidates everything; otherwise a changed marker the
/// row depends on is reported, whatever its gap dependencies; otherwise a
/// changed gap it depends on; otherwise the row is reused exactly when an old
/// row exists whose three quantiles have the same bit patterns, drifted when
/// they differ, and has no counterpart when there is no old row.
pub proof fn lemma_verdict_precedence(changes: ChangeKeys, row: RowQuery)
    ensures
        changes.structural ==> reuse_of(changes, row) == Reuse::Restructured,
        !changes.structural && (exists|a: int, b: int| 0 <= a < changes.markers@.len() && 0 <= b < row.dep_markers@.len()
            && changes.markers@[a]@ == row.dep_markers@[b]@)
            ==> reuse_of(changes, row) == Reuse::MarkerChanged,
        !changes.structural
            && !(exists|a: int, b: int| 0 <= a < changes.markers@.len() && 0 <= b < row.dep_markers@.len()
                && changes.markers@[a]@ == row.dep_markers@[b]@)
            && (exists|a: int, b: int| 0 <= a < changes.gaps@.len() && 0 <= b < row.dep_gaps@.len()
                && changes.gaps@[a]@ == row.dep_gaps@[b]@)
            ==> reuse_of(changes, row) == Reuse::GapChanged,
        !changes.structural
            && !(exists|a: int, b: int| 0 <= a < changes.markers@.len() && 0 <= b < row.dep_markers@.len()
                && changes.markers@[a]@ == row.dep_markers@[b]@)
            && !(exists|a: int, b: int| 0 <= a < changes.gaps@.len() && 0 <= b < row.dep_gaps@.len()
                && changes.gaps@[a]@ == row.dep_gaps@[b]@)
            ==> reuse_of(changes, row) == match row.previous {
                None => Reuse::NoCounterpart,
                Some(old) => if old.0 == row.quantiles.0 && old.1 == row.quantiles.1 && old.2 == row.quantiles.2 {
                    Reuse::Unchanged
                } else {
                    Reuse::Drifted
                },
            },
{
    if exists|a: int, b: int| 0 <= a < changes.markers@.len() && 0 <= b < row.dep_markers@.len()
        && changes.markers@[a]@ == row.dep_markers@[b]@ {
        let (a, b) = choose|a: int, b: int| 0 <= a < changes.markers@.len() && 0 <= b < row.dep_markers@.len()
            && changes.markers@[a]@ == row.dep_markers@[b]@;
        assert(hits(changes.markers@, row.dep_markers@));
    }
    if exists|a: int, b: int| 0 <= a < changes.gaps@.len() && 0 <= b < row.dep_gaps@.len()
        && changes.gaps@[a]@ == row.dep_gaps@[b]@ {
        let (a, b) = choose|a: int, b: int| 0 <= a < changes.gaps@.len() && 0 <= b < row.dep_gaps@.len()
            && changes.gaps@[a]@ == row.dep_gaps@[b]@;
        assert(hits(changes.gaps@, row.dep_gaps@));
    }
}

}
