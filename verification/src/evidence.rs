//! Dating evidence of the workspace and the rules of editing it.
//!
//! The default list holds seasonal layer counts, two exchangeable
//! volcanic-ash markers, an isotope tie point, two feasible hard age
//! windows, a missing core section with a positive duration, and a disabled
//! hard window that conflicts with `hard-A` when enabled. The rules cover
//! evidence ids, evidence inside a missing section, moving a missing section,
//! soft-marker distributions, swapping the first two soft markers, and the
//! sampling settings.
//!
//! Depths and ages are binary64 bit patterns; the comment beside each
//! default value gives its decimal value.

use vstd::prelude::*;
use vstd::string::StringExecFns;
use crate::binary64::{le, less, less_eq, lt};
use crate::text::{blank, is_blank};

verus! {

/// The kind of a piece of evidence.
#[derive(Clone, Copy, Debug, PartialEq, Eq, Structural)]
pub enum EvidenceKind {
    /// A seasonal layer count.
    Layer,
    /// A volcanic-ash marker (soft).
    Ash,
    /// An isotope tie point (soft).
    Isotope,
    /// A hard age window.
    Hard,
    /// A missing core section.
    Gap,
}

/// One piece of dating evidence.
#[derive(Clone, Debug)]
pub struct Evidence {
    pub id: String,
    pub segment: String,
    pub kind: EvidenceKind,
    pub depth: u64,
    pub enabled: bool,
    pub mean: Option<u64>,
    pub sigma: Option<u64>,
    pub age_lo: Option<u64>,
    pub age_hi: Option<u64>,
    pub gap_end: Option<u64>,
    pub start_depth: Option<u64>,
    pub gap_mean: Option<u64>,
    pub gap_sigma: Option<u64>,
    pub label: String,
}

/// Evidence with every optional value absent.
fn evidence(id: &str, segment: &str, kind: EvidenceKind, depth: u64, enabled: bool, label: &str) -> (e: Evidence)
    ensures
        e.id@ == id@ && e.segment@ == segment@ && e.kind == kind && e.depth == depth && e.enabled == enabled,
        e.mean is None && e.sigma is None && e.age_lo is None && e.age_hi is None,
        e.gap_end is None && e.start_depth is None && e.gap_mean is None && e.gap_sigma is None,
        e.label@ == label@,
{
    Evidence {
        id: String::from_str(id),
        segment: String::from_str(segment),
        kind,
        depth,
        enabled,
        mean: None,
        sigma: None,
        age_lo: None,
        age_hi: None,
        gap_end: None,
        start_depth: None,
        gap_mean: None,
        gap_sigma: None,
        label: String::from_str(label),
    }
}

/// The default evidence of the acceptance workspace.
pub fn default_evidence() -> (out: Vec<Evidence>)
    ensures
        out@.len() == 9,
        out@[0].id@ == "layer-A"@
            && out@[0].segment@ == "A"@
            && out@[0].kind == EvidenceKind::Layer
            && out@[0].depth == 0x4051800000000000
            && out@[0].enabled == true
            && out@[0].label@ == "A/B段季节层计数"@
            && out@[0].mean == Some(0x407b800000000000u64)
            && out@[0].sigma == Some(0x0000000000000000u64)
            && out@[0].age_lo is None
            && out@[0].age_hi is None
            && out@[0].gap_end is None
            && out@[0].start_depth == Some(0x0000000000000000u64)
            && out@[0].gap_mean is None
            && out@[0].gap_sigma is None,
        out@[1].id@ == "layer-C"@
            && out@[1].segment@ == "C"@
            && out@[1].kind == EvidenceKind::Layer
            && out@[1].depth == 0x405e000000000000
            && out@[1].enabled == true
            && out@[1].label@ == "C段季节层计数"@
            && out@[1].mean == Some(0x4069000000000000u64)
            && out@[1].sigma == Some(0x0000000000000000u64)
            && out@[1].age_lo is None
            && out@[1].age_hi is None
            && out@[1].gap_end is None
            && out@[1].start_depth == Some(0x4054a66666666666u64)
            && out@[1].gap_mean is None
            && out@[1].gap_sigma is None,
        out@[2].id@ == "ash-1"@
            && out@[2].segment@ == "A"@
            && out@[2].kind == EvidenceKind::Ash
            && out@[2].depth == 0x4034000000000000
            && out@[2].enabled == true
            && out@[2].label@ == "火山灰锦标 I"@
            && out@[2].mean == Some(0x4060800000000000u64)
            && out@[2].sigma == Some(0x4032000000000000u64)
            && out@[2].age_lo is None
            && out@[2].age_hi is None
            && out@[2].gap_end is None
            && out@[2].start_depth is None
            && out@[2].gap_mean is None
            && out@[2].gap_sigma is None,
        out@[3].id@ == "ash-2"@
            && out@[3].segment@ == "B"@
            && out@[3].kind == EvidenceKind::Ash
            && out@[3].depth == 0x4041800000000000
            && out@[3].enabled == true
            && out@[3].label@ == "火山灰锦标 II"@
            && out@[3].mean == Some(0x406d000000000000u64)
            && out@[3].sigma == Some(0x4036000000000000u64)
            && out@[3].age_lo is None
            && out@[3].age_hi is None
            && out@[3].gap_end is None
            && out@[3].start_depth is None
            && out@[3].gap_mean is None
            && out@[3].gap_sigma is None,
        out@[4].id@ == "isotope-1"@
            && out@[4].segment@ == "C"@
            && out@[4].kind == EvidenceKind::Isotope
            && out@[4].depth == 0x4056800000000000
            && out@[4].enabled == true
            && out@[4].label@ == "同位素对齐点"@
            && out@[4].mean == Some(0x4081f80000000000u64)
            && out@[4].sigma == Some(0x4038000000000000u64)
            && out@[4].age_lo is None
            && out@[4].age_hi is None
            && out@[4].gap_end is None
            && out@[4].start_depth is None
            && out@[4].gap_mean is None
            && out@[4].gap_sigma is None,
        out@[5].id@ == "hard-A"@
            && out@[5].segment@ == "A"@
            && out@[5].kind == EvidenceKind::Hard
            && out@[5].depth == 0x4049000000000000
            && out@[5].enabled == true
            && out@[5].label@ == "硬年代区间 H_A"@
            && out@[5].mean is None
            && out@[5].sigma is None
            && out@[5].age_lo == Some(0x4072c00000000000u64)
            && out@[5].age_hi == Some(0x4075400000000000u64)
            && out@[5].gap_end is None
            && out@[5].start_depth is None
            && out@[5].gap_mean is None
            && out@[5].gap_sigma is None,
        out@[6].id@ == "hard-C"@
            && out@[6].segment@ == "C"@
            && out@[6].kind == EvidenceKind::Hard
            && out@[6].depth == 0x4059000000000000
            && out@[6].enabled == true
            && out@[6].label@ == "硬年代区间 H_C"@
            && out@[6].mean is None
            && out@[6].sigma is None
            && out@[6].age_lo == Some(0x4083b00000000000u64)
            && out@[6].age_hi == Some(0x4085900000000000u64)
            && out@[6].gap_end is None
            && out@[6].start_depth is None
            && out@[6].gap_mean is None
            && out@[6].gap_sigma is None,
        out@[7].id@ == "gap-BC"@
            && out@[7].segment@ == "B->C"@
            && out@[7].kind == EvidenceKind::Gap
            && out@[7].depth == 0x4051800000000000
            && out@[7].enabled == true
            && out@[7].label@ == "缺芯 BC"@
            && out@[7].mean is None
            && out@[7].sigma is None
            && out@[7].age_lo is None
            && out@[7].age_hi is None
            && out@[7].gap_end == Some(0x4054a66666666666u64)
            && out@[7].start_depth is None
            && out@[7].gap_mean == Some(0x4045000000000000u64)
            && out@[7].gap_sigma == Some(0x4024000000000000u64),
        out@[8].id@ == "hard-X"@
            && out@[8].segment@ == "A"@
            && out@[8].kind == EvidenceKind::Hard
            && out@[8].depth == 0x4049000000000000
            && out@[8].enabled == false
            && out@[8].label@ == "冲突硬区间 H_X(停用)"@
            && out@[8].mean is None
            && out@[8].sigma is None
            && out@[8].age_lo == Some(0x4075a00000000000u64)
            && out@[8].age_hi == Some(0x4077c00000000000u64)
            && out@[8].gap_end is None
            && out@[8].start_depth is None
            && out@[8].gap_mean is None
            && out@[8].gap_sigma is None,
{
    let mut out: Vec<Evidence> = Vec::new();
    let mut e0 = evidence("layer-A", "A", EvidenceKind::Layer, 0x4051800000000000, true, "A/B段季节层计数"); // depth 70.0
    e0.mean = Some(0x407b800000000000); // 440.0
    e0.sigma = Some(0x0000000000000000); // 0.0
    e0.start_depth = Some(0x0000000000000000); // 0.0
    out.push(e0);
    let mut e1 = evidence("layer-C", "C", EvidenceKind::Layer, 0x405e000000000000, true, "C段季节层计数"); // depth 120.0
    e1.mean = Some(0x4069000000000000); // 200.0
    e1.sigma = Some(0x0000000000000000); // 0.0
    e1.start_depth = Some(0x4054a66666666666); // 82.6
    out.push(e1);
    let mut e2 = evidence("ash-1", "A", EvidenceKind::Ash, 0x4034000000000000, true, "火山灰锦标 I"); // depth 20.0
    e2.mean = Some(0x4060800000000000); // 132.0
    e2.sigma = Some(0x4032000000000000); // 18.0
    out.push(e2);
    let mut e3 = evidence("ash-2", "B", EvidenceKind::Ash, 0x4041800000000000, true, "火山灰锦标 II"); // depth 35.0
    e3.mean = Some(0x406d000000000000); // 232.0
    e3.sigma = Some(0x4036000000000000); // 22.0
    out.push(e3);
    let mut e4 = evidence("isotope-1", "C", EvidenceKind::Isotope, 0x4056800000000000, true, "同位素对齐点"); // depth 90.0
    e4.mean = Some(0x4081f80000000000); // 575.0
    e4.sigma = Some(0x4038000000000000); // 24.0
    out.push(e4);
    let mut e5 = evidence("hard-A", "A", EvidenceKind::Hard, 0x4049000000000000, true, "硬年代区间 H_A"); // depth 50.0
    e5.age_lo = Some(0x4072c00000000000); // 300.0
    e5.age_hi = Some(0x4075400000000000); // 340.0
    out.push(e5);
    let mut e6 = evidence("hard-C", "C", EvidenceKind::Hard, 0x4059000000000000, true, "硬年代区间 H_C"); // depth 100.0
    e6.age_lo = Some(0x4083b00000000000); // 630.0
    e6.age_hi = Some(0x4085900000000000); // 690.0
    out.push(e6);
    let mut e7 = evidence("gap-BC", "B->C", EvidenceKind::Gap, 0x4051800000000000, true, "缺芯 BC"); // depth 70.0
    e7.gap_end = Some(0x4054a66666666666); // 82.6
    e7.gap_mean = Some(0x4045000000000000); // 42.0
    e7.gap_sigma = Some(0x4024000000000000); // 10.0
    out.push(e7);
    let mut e8 = evidence("hard-X", "A", EvidenceKind::Hard, 0x4049000000000000, false, "冲突硬区间 H_X(停用)"); // depth 50.0
    e8.age_lo = Some(0x4075a00000000000); // 346.0
    e8.age_hi = Some(0x4077c00000000000); // 380.0
    out.push(e8);
    out
}


/// Evidence ids are not blank.
pub fn check_evidence_id(id: &String) -> (r: Result<(), String>)
    ensures
        r is Ok <==> !is_blank(id@),
        r matches Err(e) ==> e@ == "证据 id 不能为空"@,
{
    if blank(id) { Err(String::from_str("证据 id 不能为空")) } else { Ok(()) }
}

/// Evidence `e` (not itself a missing section) lies strictly inside the
/// missing section `g`, between its start depth and its end depth.
pub open spec fn inside_gap(e: Evidence, g: Evidence) -> bool {
    &&& e.kind != EvidenceKind::Gap
    &&& g.kind == EvidenceKind::Gap
    &&& g.gap_end matches Some(end) && lt(g.depth, e.depth) && lt(e.depth, end)
}

/// `(i, j)` is the first pair, by evidence and then by gap position, of an
/// evidence inside a missing section.
pub open spec fn first_inside(ev: Seq<Evidence>, i: int, j: int) -> bool {
    &&& 0 <= i < ev.len() && 0 <= j < ev.len()
    &&& inside_gap(ev[i], ev[j])
    &&& forall|i2: int, j2: int| 0 <= i2 < i && 0 <= j2 < ev.len() ==> !inside_gap(#[trigger] ev[i2], #[trigger] ev[j2])
    &&& forall|j2: int| 0 <= j2 < j ==> !inside_gap(ev[i], #[trigger] ev[j2])
}

pub open spec fn inside_message(e: Evidence, g: Evidence) -> Seq<char> {
    "证据 "@ + e.id@ + " 落在缺芯内部："@ + g.id@
}

/// Evidence may not lie inside a missing section; refused at the first
/// evidence that does, naming the section.
pub fn check_outside_gaps(evidence: &Vec<Evidence>) -> (r: Result<(), String>)
    ensures
        r is Ok <==> !exists|i: int, j: int| 0 <= i < evidence@.len() && 0 <= j < evidence@.len()
            && inside_gap(#[trigger] evidence@[i], #[trigger] evidence@[j]),
        r matches Err(msg) ==> exists|i: int, j: int| #[trigger] first_inside(evidence@, i, j)
            && msg@ == inside_message(evidence@[i], evidence@[j]),
{
    let n = evidence.len();
    let mut i: usize = 0;
    while i < n
        invariant
            n == evidence@.len(),
            i <= n,
            forall|i2: int, j2: int| 0 <= i2 < i && 0 <= j2 < n ==> !inside_gap(#[trigger] evidence@[i2], #[trigger] evidence@[j2]),
        decreases n - i,
    {
        let mut j: usize = 0;
        while j < n
            invariant
                n == evidence@.len(),
                i < n,
                j <= n,
                forall|i2: int, j2: int| 0 <= i2 < i && 0 <= j2 < n ==> !inside_gap(#[trigger] evidence@[i2], #[trigger] evidence@[j2]),
                forall|j2: int| 0 <= j2 < j ==> !inside_gap(evidence@[i as int], #[trigger] evidence@[j2]),
            decreases n - j,
        {
            let e = &evidence[i];
            let g = &evidence[j];
            let hit = match g.gap_end {
                Some(end) => e.kind != EvidenceKind::Gap && g.kind == EvidenceKind::Gap && less(g.depth, e.depth)
                    && less(e.depth, end),
                None => false,
            };
            if hit {
                let mut msg = String::from_str("证据 ");
                msg.append(e.id.as_str());
                msg.append(" 落在缺芯内部：");
                msg.append(g.id.as_str());
                proof {
                    assert(first_inside(evidence@, i as int, j as int));
                    reveal_strlit("证据 ");
                    reveal_strlit(" 落在缺芯内部：");
                    assert(msg@ =~= inside_message(evidence@[i as int], evidence@[j as int]));
                }
                return Err(msg);
            }
            assert(!inside_gap(evidence@[i as int], evidence@[j as int]));
            j = j + 1;
        }
        i = i + 1;
    }
    Ok(())
}

/// A moved gap is refused when its end depth is at most its start depth.
pub fn check_gap_move(start: u64, end: u64) -> (r: Result<(), String>)
    ensures
        r is Ok <==> !le(end, start),
        r matches Err(e) ==> e@ == "缺芯结束深度必须严格大于开始深度"@,
{
    if less_eq(end, start) { Err(String::from_str("缺芯结束深度必须严格大于开始深度")) } else { Ok(()) }
}

/// `a` and `b` hold the same values.
pub open spec fn same_evidence(a: Evidence, b: Evidence) -> bool {
    &&& a.id@ == b.id@ && a.segment@ == b.segment@ && a.kind == b.kind && a.depth == b.depth && a.enabled == b.enabled
    &&& a.mean == b.mean && a.sigma == b.sigma && a.age_lo == b.age_lo && a.age_hi == b.age_hi
    &&& a.gap_end == b.gap_end && a.start_depth == b.start_depth && a.gap_mean == b.gap_mean && a.gap_sigma == b.gap_sigma
    &&& a.label@ == b.label@
}

/// A copy of `e`.
pub fn duplicate_evidence(e: &Evidence) -> (r: Evidence)
    ensures same_evidence(r, *e),
{
    Evidence {
        id: e.id.clone(),
        segment: e.segment.clone(),
        kind: e.kind,
        depth: e.depth,
        enabled: e.enabled,
        mean: e.mean,
        sigma: e.sigma,
        age_lo: e.age_lo,
        age_hi: e.age_hi,
        gap_end: e.gap_end,
        start_depth: e.start_depth,
        gap_mean: e.gap_mean,
        gap_sigma: e.gap_sigma,
        label: e.label.clone(),
    }
}

/// The gap `target` moved to span `start .. end`, with its duration
/// distribution updated where given.
pub fn move_gap(target: &Evidence, start: u64, end: u64, gap_mean: Option<u64>, gap_sigma: Option<u64>) -> (r: Evidence)
    ensures
        r.depth == start,
        r.gap_end == Some(end),
        r.gap_mean == (match gap_mean { Some(v) => Some(v), None => target.gap_mean }),
        r.gap_sigma == (match gap_sigma { Some(v) => Some(v), None => target.gap_sigma }),
        same_evidence(Evidence { depth: target.depth, gap_end: target.gap_end, gap_mean: target.gap_mean, gap_sigma: target.gap_sigma, ..r }, *target),
        r.id@ == target.id@ && r.segment@ == target.segment@ && r.kind == target.kind && r.enabled == target.enabled,
        r.mean == target.mean && r.sigma == target.sigma && r.age_lo == target.age_lo && r.age_hi == target.age_hi,
        r.start_depth == target.start_depth && r.label@ == target.label@,
{
    let mut r = duplicate_evidence(target);
    r.depth = start;
    r.gap_end = Some(end);
    if let Some(m) = gap_mean { r.gap_mean = Some(m); }
    if let Some(s) = gap_sigma { r.gap_sigma = Some(s); }
    r
}

/// A soft marker's standard deviation is refused when it is at most zero.
pub fn check_sigma(sigma: u64) -> (r: Result<(), String>)
    ensures
        r is Ok <==> !le(sigma, 0),
        r matches Err(e) ==> e@ == "软锦标 σ 必须为正数"@,
{
    if less_eq(sigma, 0) { Err(String::from_str("软锦标 σ 必须为正数")) } else { Ok(()) }
}

/// Soft markers: volcanic ash and isotope tie points.
pub open spec fn is_soft(kind: EvidenceKind) -> bool {
    kind == EvidenceKind::Ash || kind == EvidenceKind::Isotope
}

/// `target` with the distribution `(mean, sigma)`; only soft markers have one.
pub fn redistribute(target: &Evidence, mean: u64, sigma: u64) -> (r: Result<Evidence, String>)
    ensures
        r is Ok <==> is_soft(target.kind),
        r matches Ok(e) ==> e.mean == Some(mean) && e.sigma == Some(sigma)
            && same_evidence(Evidence { mean: target.mean, sigma: target.sigma, ..e }, *target)
            && e.id@ == target.id@ && e.depth == target.depth && e.kind == target.kind,
        r matches Err(msg) ==> msg@ == "仅火山灰/同位素软锦标可调整分布"@,
{
    if !(target.kind == EvidenceKind::Ash || target.kind == EvidenceKind::Isotope) {
        return Err(String::from_str("仅火山灰/同位素软锦标可调整分布"));
    }
    let mut e = duplicate_evidence(target);
    e.mean = Some(mean);
    e.sigma = Some(sigma);
    Ok(e)
}

/// Evidence `e` is a soft marker with a distribution mean.
pub open spec fn swappable(e: Evidence) -> bool {
    is_soft(e.kind) && e.mean is Some
}

/// Position of the first evidence named `id`, or -1.
#[verifier::opaque]
pub open spec fn position_of(ev: Seq<Evidence>, id: Seq<char>) -> int {
    if exists|k: int| 0 <= k < ev.len() && ev[k].id@ == id && (forall|j: int| 0 <= j < k ==> ev[j].id@ != id) {
        choose|k: int| 0 <= k < ev.len() && ev[k].id@ == id && (forall|j: int| 0 <= j < k ==> ev[j].id@ != id)
    } else {
        -1
    }
}

/// `e` carrying the distribution of `d`.
pub open spec fn with_distribution(e: Evidence, d: Evidence) -> Evidence {
    Evidence { mean: d.mean, sigma: d.sigma, ..e }
}

fn position(evidence: &Vec<Evidence>, id: &String) -> (r: usize)
    requires exists|k: int| 0 <= k < evidence@.len() && evidence@[k].id@ == id@,
    ensures r < evidence@.len(), r as int == position_of(evidence@, id@),
{
    let mut k: usize = 0;
    while k < evidence.len()
        invariant
            k <= evidence@.len(),
            exists|q: int| 0 <= q < evidence@.len() && evidence@[q].id@ == id@,
            forall|j: int| 0 <= j < k ==> #[trigger] evidence@[j].id@ != id@,
        decreases evidence@.len() - k,
    {
        if evidence[k].id == *id {
            proof {
                reveal(position_of);
                let ki = k as int;
                assert(0 <= ki < evidence@.len() && evidence@[ki].id@ == id@ && (forall|j: int| 0 <= j < ki ==> evidence@[j].id@ != id@));
                let c = choose|c: int| 0 <= c < evidence@.len() && evidence@[c].id@ == id@ && (forall|j: int| 0 <= j < c ==> evidence@[j].id@ != id@);
                if c < ki { assert(evidence@[c].id@ != id@); }
                if ki < c { assert(evidence@[ki].id@ != id@); }
            }
            return k;
        }
        k = k + 1;
    }
    assert(false);
    0
}

/// `i` and `j` are the positions of the first two soft markers that carry a mean.
pub open spec fn first_soft_pair(ev: Seq<Evidence>, i: int, j: int) -> bool {
    &&& 0 <= i < j < ev.len()
    &&& swappable(ev[i]) && swappable(ev[j])
    &&& forall|k: int| 0 <= k < j && k != i ==> !swappable(#[trigger] ev[k])
}

/// `after` is `before` with the distributions at `pa` and `pb` exchanged.
#[verifier::opaque]
pub open spec fn distributions_swapped(before: Seq<Evidence>, after: Seq<Evidence>, pa: int, pb: int) -> bool {
    &&& after.len() == before.len()
    &&& 0 <= pa < before.len() && 0 <= pb < before.len()
    &&& same_evidence(after[pb], with_distribution(before[pb], before[pa]))
    &&& pa != pb ==> same_evidence(after[pa], with_distribution(before[pa], before[pb]))
    &&& forall|k: int| 0 <= k < before.len() && k != pa && k != pb ==> #[trigger] after[k] == before[k]
}

/// `after` is `before` with the distributions of the evidence named `a` and
/// `b` exchanged, `a` and `b` being the names of the first two soft markers
/// that carry a mean (each exchange at the first evidence of that name).
pub open spec fn soft_swap(before: Seq<Evidence>, after: Seq<Evidence>, a: Seq<char>, b: Seq<char>) -> bool {
    exists|i: int, j: int| {
        &&& #[trigger] first_soft_pair(before, i, j)
        &&& a == before[i].id@ && b == before[j].id@
        &&& distributions_swapped(before, after, position_of(before, a), position_of(before, b))
    }
}

/// Swaps the distributions `(mean, sigma)` between the evidence named like the
/// first two soft markers that carry a mean (each the first evidence of its
/// name), returning those two names; refused when there are fewer than two.
pub fn swap_soft(evidence: &mut Vec<Evidence>) -> (r: Result<(String, String), String>)
    ensures
        final(evidence)@.len() == old(evidence)@.len(),
        match r {
            Ok((a, b)) => soft_swap(old(evidence)@, final(evidence)@, a@, b@),
            Err(msg) => {
                &&& msg@ == "至少需要两个软锦标才能交换"@
                &&& final(evidence)@ == old(evidence)@
                &&& !exists|i: int, j: int| 0 <= i < j < old(evidence)@.len() && #[trigger] swappable(old(evidence)@[i]) && #[trigger] swappable(old(evidence)@[j])
            },
        },
{
    match first_two_swappable(evidence) {
        None => Err(String::from_str("至少需要两个软锦标才能交换")),
        Some((i, j)) => {
            let ghost before = evidence@;
            let id_a = evidence[i].id.clone();
            let id_b = evidence[j].id.clone();
            let pos_a = position(evidence, &id_a);
            let pos_b = position(evidence, &id_b);
            swap_at(evidence, pos_a, pos_b);
            assert(first_soft_pair(before, i as int, j as int));
            Ok((id_a, id_b))
        }
    }
}

/// Exchanges the distributions at positions `pa` and `pb`.
fn swap_at(evidence: &mut Vec<Evidence>, pa: usize, pb: usize)
    requires pa < old(evidence)@.len(), pb < old(evidence)@.len(),
    ensures
        final(evidence)@.len() == old(evidence)@.len(),
        distributions_swapped(old(evidence)@, final(evidence)@, pa as int, pb as int),
{
    proof { reveal(distributions_swapped); }
    let (ma, sa) = (evidence[pa].mean, evidence[pa].sigma);
    let (mb, sb) = (evidence[pb].mean, evidence[pb].sigma);
    let mut a = duplicate_evidence(&evidence[pa]);
    a.mean = mb;
    a.sigma = sb;
    evidence.set(pa, a);
    let mut b = duplicate_evidence(&evidence[pb]);
    b.mean = ma;
    b.sigma = sa;
    evidence.set(pb, b);
}

/// The first two soft markers that carry a mean, by position.
fn first_two_swappable(evidence: &Vec<Evidence>) -> (r: Option<(usize, usize)>)
    ensures
        match r {
            Some((i, j)) => first_soft_pair(evidence@, i as int, j as int),
            None => !exists|i: int, j: int| 0 <= i < j < evidence@.len() && #[trigger] swappable(evidence@[i]) && #[trigger] swappable(evidence@[j]),
        },
{
    let n = evidence.len();
    let mut first: Option<usize> = None;
    let mut k: usize = 0;
    while k < n
        invariant
            n == evidence@.len(),
            k <= n,
            match first {
                None => forall|q: int| 0 <= q < k ==> !swappable(#[trigger] evidence@[q]),
                Some(i) => i < k && swappable(evidence@[i as int]) && forall|q: int| 0 <= q < k && q != i ==> !swappable(#[trigger] evidence@[q]),
            },
        decreases n - k,
    {
        let e = &evidence[k];
        let soft = (e.kind == EvidenceKind::Ash || e.kind == EvidenceKind::Isotope) && e.mean.is_some();
        if soft {
            match first {
                None => { first = Some(k); }
                Some(i) => { return Some((i, k)); }
            }
        }
        k = k + 1;
    }
    proof {
        assert forall|i: int, j: int| 0 <= i < j < evidence@.len() && #[trigger] swappable(evidence@[i]) implies !#[trigger] swappable(evidence@[j]) by {
            match first {
                None => {}
                Some(f) => { if i != f { assert(!swappable(evidence@[i])); } else { assert(j != f); } }
            }
        }
    }
    None
}

/// No two evidence share a name.
pub open spec fn distinct_ids(ev: Seq<Evidence>) -> bool {
    forall|p: int, q: int| 0 <= p < q < ev.len() ==> #[trigger] ev[p].id@ != #[trigger] ev[q].id@
}

proof fn lemma_first_soft_pair_unique(ev: Seq<Evidence>, i: int, j: int, i2: int, j2: int)
    requires first_soft_pair(ev, i, j), first_soft_pair(ev, i2, j2),
    ensures i == i2 && j == j2,
{
    if i2 < i {
        assert(!swappable(ev[i2]));
    } else if i < i2 {
        assert(!swappable(ev[i]));
    }
    if j2 < j {
        assert(!swappable(ev[j2]));
    } else if j < j2 {
        assert(!swappable(ev[j]));
    }
}

proof fn lemma_position_of_distinct(ev: Seq<Evidence>, k: int)
    requires distinct_ids(ev), 0 <= k < ev.len(),
    ensures position_of(ev, ev[k].id@) == k,
{
    reveal(position_of);
    let id = ev[k].id@;
    assert forall|j: int| 0 <= j < k implies ev[j].id@ != id by {
        assert(ev[j].id@ != ev[k].id@);
    }
    let c = choose|c: int| 0 <= c < ev.len() && ev[c].id@ == id && (forall|j: int| 0 <= j < c ==> ev[j].id@ != id);
    if c < k {
        assert(ev[c].id@ != ev[k].id@);
    } else if k < c {
        assert(ev[k].id@ != ev[c].id@);
    }
}

/// Swapping twice restores: when no two evidence share a name, a second swap
/// exchanges the same two soft markers again and gives back every evidence as
/// it was.
pub proof fn lemma_swap_soft_twice_restores(
    e0: Seq<Evidence>,
    e1: Seq<Evidence>,
    e2: Seq<Evidence>,
    a1: Seq<char>,
    b1: Seq<char>,
    a2: Seq<char>,
    b2: Seq<char>,
)
    requires
        distinct_ids(e0),
        soft_swap(e0, e1, a1, b1),
        soft_swap(e1, e2, a2, b2),
    ensures
        a2 == a1 && b2 == b1,
        e2.len() == e0.len(),
        forall|k: int| 0 <= k < e0.len() ==> same_evidence(#[trigger] e2[k], e0[k]),
{
    reveal(distributions_swapped);
    let (i, j) = choose|i: int, j: int| {
        &&& #[trigger] first_soft_pair(e0, i, j)
        &&& a1 == e0[i].id@ && b1 == e0[j].id@
        &&& distributions_swapped(e0, e1, position_of(e0, a1), position_of(e0, b1))
    };
    lemma_position_of_distinct(e0, i);
    lemma_position_of_distinct(e0, j);
    assert(distributions_swapped(e0, e1, i, j));
    assert forall|k: int| 0 <= k < e1.len() implies #[trigger] e1[k].id@ == e0[k].id@ && e1[k].kind == e0[k].kind by {
        if k != i && k != j { assert(e1[k] == e0[k]); }
    }
    assert(distinct_ids(e1)) by {
        assert forall|p: int, q: int| 0 <= p < q < e1.len() implies #[trigger] e1[p].id@ != #[trigger] e1[q].id@ by {
            assert(e1[p].id@ == e0[p].id@ && e1[q].id@ == e0[q].id@);
        }
    }
    assert(first_soft_pair(e1, i, j)) by {
        assert(swappable(e1[i]) && swappable(e1[j]));
        assert forall|k: int| 0 <= k < j && k != i implies !swappable(#[trigger] e1[k]) by {
            assert(e1[k] == e0[k]);
        }
    }
    let (i2, j2) = choose|i2: int, j2: int| {
        &&& #[trigger] first_soft_pair(e1, i2, j2)
        &&& a2 == e1[i2].id@ && b2 == e1[j2].id@
        &&& distributions_swapped(e1, e2, position_of(e1, a2), position_of(e1, b2))
    };
    lemma_first_soft_pair_unique(e1, i, j, i2, j2);
    lemma_position_of_distinct(e1, i);
    lemma_position_of_distinct(e1, j);
    assert(distributions_swapped(e1, e2, i, j));
    assert forall|k: int| 0 <= k < e0.len() implies same_evidence(#[trigger] e2[k], e0[k]) by {
        if k != i && k != j {
            assert(e2[k] == e1[k] && e1[k] == e0[k]);
        }
    }
}

/// Settings need at least one draw and at least one quantile, every quantile in `[0, 1]`.
pub fn check_settings(draws: usize, quantiles: &Vec<u64>) -> (r: Result<(), String>)
    ensures
        r is Ok <==> draws > 0 && quantiles@.len() > 0 && forall|i: int| 0 <= i < quantiles@.len() ==> le(0, #[trigger] quantiles@[i]) && le(quantiles@[i], 0x3ff0_0000_0000_0000),
        r matches Err(e) ==> (if draws == 0 || quantiles@.len() == 0 { e@ == "抽样数与分位数不能为空"@ } else { e@ == "分位数必须位于 [0,1]"@ }),
{
    if draws == 0 || quantiles.len() == 0 {
        return Err(String::from_str("抽样数与分位数不能为空"));
    }
    let mut i: usize = 0;
    while i < quantiles.len()
        invariant
            draws > 0 && quantiles@.len() > 0,
            i <= quantiles@.len(),
            forall|j: int| 0 <= j < i ==> le(0, #[trigger] quantiles@[j]) && le(quantiles@[j], 0x3ff0_0000_0000_0000),
        decreases quantiles@.len() - i,
    {
        if !(less_eq(0, quantiles[i]) && less_eq(quantiles[i], 0x3ff0_0000_0000_0000)) {
            return Err(String::from_str("分位数必须位于 [0,1]"));
        }
        i = i + 1;
    }
    Ok(())
}

}
