//! The fixed demonstration workspace (acceptance scenario):
//! - two exchangeable soft markers V15 / V20 (volcanic ash; their ages may be swapped);
//! - a pair of conflicting hard age windows I28 / C25B (C25B excluded by default,
//!   enabled to demonstrate a rejected, conflicting version);
//! - a missing section S3 (21.8–22.4 m, at least 30 years, never zero).
//!
//! Depths, ages and weights are binary64 bit patterns; the comment beside each
//! gives its decimal value.

use vstd::prelude::*;
use crate::model::{ExchangeState, Marker, Segment, SolveInput, SOLVER_VERSION, all_valid, apart, pairwise_apart, marker_fault, segment_fault};
use crate::binary64::{le, lt};
use crate::text::white_space;
use vstd::string::StringExecFns;

verus! {

pub const DEFAULT_SEED: u64 = 20260921;
pub const DEFAULT_DRAWS: usize = 400;

fn text(s: &str) -> (r: String)
    ensures r@ == s@,
{
    String::from_str(s)
}

/// The four core segments of the fixture, field by field.
pub open spec fn seeded_segments(segs: Seq<Segment>) -> bool {
    &&& segs.len() == 4
    &&& segs[0].id@ == "S1"@ && segs[0].top == 0x0000000000000000 && segs[0].bottom == 0x4028000000000000
        && segs[0].present == true && segs[0].gap_min_years == None::<u64>
        && segs[0].note@ == "顶层完整芯段（含季节层计数）"@ && segs[0].version == 1
    &&& segs[1].id@ == "S2"@ && segs[1].top == 0x4028000000000000 && segs[1].bottom == 0x4035cccccccccccd
        && segs[1].present == true && segs[1].gap_min_years == None::<u64>
        && segs[1].note@ == "中部完整芯段（火山灰 + 同位素）"@ && segs[1].version == 1
    &&& segs[2].id@ == "S3"@ && segs[2].top == 0x4035cccccccccccd && segs[2].bottom == 0x4036666666666666
        && segs[2].present == false && segs[2].gap_min_years == Some(0x403e000000000000u64)
        && segs[2].note@ == "缺失芯段：边界最小年数 30"@ && segs[2].version == 1
    &&& segs[3].id@ == "S4"@ && segs[3].top == 0x4036666666666666 && segs[3].bottom == 0x403e000000000000
        && segs[3].present == true && segs[3].gap_min_years == None::<u64>
        && segs[3].note@ == "深层完整芯段"@ && segs[3].version == 1
}

/// The seven markers of the fixture, field by field.
pub open spec fn seeded_markers(ms: Seq<Marker>) -> bool {
    &&& ms.len() == 7
    &&& ms[0].id@ == "A0"@ && ms[0].depth == 0x0000000000000000 && ms[0].kind@ == "anchor"@ && ms[0].hard == true
        && ms[0].lo == 0x0000000000000000 && ms[0].hi == 0x0000000000000000 && ms[0].mean == Some(0x0000000000000000u64) && ms[0].sd == None::<u64>
        && ms[0].alt_means@ == Seq::<u64>::empty() && (ms[0].exchange_group is None)
        && ms[0].weight == 0x408f400000000000 && ms[0].excluded == false && ms[0].note@ == "表层锚点：年龄 0"@ && ms[0].version == 1
    &&& ms[1].id@ == "L9"@ && ms[1].depth == 0x4022000000000000 && ms[1].kind@ == "layer"@ && ms[1].hard == true
        && ms[1].lo == 0x4043000000000000 && ms[1].hi == 0x404a000000000000 && ms[1].mean == Some(0x4046800000000000u64) && ms[1].sd == Some(0x4000000000000000u64)
        && ms[1].alt_means@ == seq![0x4045800000000000u64, 0x4046800000000000u64, 0x4047800000000000u64] && (ms[1].exchange_group is None)
        && ms[1].weight == 0x4010000000000000 && ms[1].excluded == false && ms[1].note@ == "季节层计数：9m 处累计层数，保留 43/45/47 三个局部方案"@ && ms[1].version == 1
    &&& ms[2].id@ == "V15"@ && ms[2].depth == 0x402e000000000000 && ms[2].kind@ == "volcano"@ && ms[2].hard == false
        && ms[2].lo == 0x404e000000000000 && ms[2].hi == 0x4056800000000000 && ms[2].mean == Some(0x4052000000000000u64) && ms[2].sd == Some(0x4014000000000000u64)
        && ms[2].alt_means@ == Seq::<u64>::empty() && (ms[2].exchange_group matches Some(g) && g@ == "EX-V"@)
        && ms[2].weight == 0x4008000000000000 && ms[2].excluded == false && ms[2].note@ == "火山灰锦标（可交换，默认与 V20 按深度正序）"@ && ms[2].version == 1
    &&& ms[3].id@ == "V20"@ && ms[3].depth == 0x4034000000000000 && ms[3].kind@ == "volcano"@ && ms[3].hard == false
        && ms[3].lo == 0x4056000000000000 && ms[3].hi == 0x405e000000000000 && ms[3].mean == Some(0x405a000000000000u64) && ms[3].sd == Some(0x4014000000000000u64)
        && ms[3].alt_means@ == Seq::<u64>::empty() && (ms[3].exchange_group matches Some(g) && g@ == "EX-V"@)
        && ms[3].weight == 0x4008000000000000 && ms[3].excluded == false && ms[3].note@ == "火山灰锦标（可交换，与 V15 的年龄归属可对调）"@ && ms[3].version == 1
    &&& ms[4].id@ == "I24"@ && ms[4].depth == 0x4038000000000000 && ms[4].kind@ == "isotope"@ && ms[4].hard == true
        && ms[4].lo == 0x4062c00000000000 && ms[4].hi == 0x4064000000000000 && ms[4].mean == Some(0x4063600000000000u64) && ms[4].sd == Some(0x4000000000000000u64)
        && ms[4].alt_means@ == Seq::<u64>::empty() && (ms[4].exchange_group is None)
        && ms[4].weight == 0x4010000000000000 && ms[4].excluded == false && ms[4].note@ == "同位素对齐点（缺芯之下）"@ && ms[4].version == 1
    &&& ms[5].id@ == "I28"@ && ms[5].depth == 0x403c000000000000 && ms[5].kind@ == "isotope"@ && ms[5].hard == true
        && ms[5].lo == 0x4066800000000000 && ms[5].hi == 0x4067c00000000000 && ms[5].mean == Some(0x4067200000000000u64) && ms[5].sd == Some(0x4000000000000000u64)
        && ms[5].alt_means@ == Seq::<u64>::empty() && (ms[5].exchange_group is None)
        && ms[5].weight == 0x4010000000000000 && ms[5].excluded == false && ms[5].note@ == "同位素对齐点（深部）"@ && ms[5].version == 1
    &&& ms[6].id@ == "C25B"@ && ms[6].depth == 0x403c000000000000 && ms[6].kind@ == "isotope"@ && ms[6].hard == true
        && ms[6].lo == 0x4062c00000000000 && ms[6].hi == 0x4064a00000000000 && ms[6].mean == None::<u64> && ms[6].sd == None::<u64>
        && ms[6].alt_means@ == Seq::<u64>::empty() && (ms[6].exchange_group is None)
        && ms[6].weight == 0x0000000000000000 && ms[6].excluded == true && ms[6].note@ == "冲突版本：与 I28[180,190] 在 28m 无交集（验收用，默认排除）"@ && ms[6].version == 1
}

/// The fixture's single exchange group, unswapped.
pub open spec fn seeded_exchanges(ex: Seq<ExchangeState>) -> bool {
    &&& ex.len() == 1
    &&& ex[0].group@ == "EX-V"@
    &&& !ex[0].swapped
}

/// The four core segments of the fixture.
pub fn seed_segments() -> (segs: Vec<Segment>)
    ensures
        seeded_segments(segs@),
        all_valid(segs@),
        pairwise_apart(segs@),
{
    let mut v: Vec<Segment> = Vec::new();
    v.push(Segment {
        id: text("S1"),
        top: 0x0000000000000000, // 0.0
        bottom: 0x4028000000000000, // 12.0
        present: true,
        gap_min_years: None,
        note: text("顶层完整芯段（含季节层计数）"),
        version: 1,
    });
    v.push(Segment {
        id: text("S2"),
        top: 0x4028000000000000, // 12.0
        bottom: 0x4035cccccccccccd, // 21.8
        present: true,
        gap_min_years: None,
        note: text("中部完整芯段（火山灰 + 同位素）"),
        version: 1,
    });
    v.push(Segment {
        id: text("S3"),
        top: 0x4035cccccccccccd, // 21.8
        bottom: 0x4036666666666666, // 22.4
        present: false,
        gap_min_years: Some(0x403e000000000000),
        note: text("缺失芯段：边界最小年数 30"),
        version: 1,
    });
    v.push(Segment {
        id: text("S4"),
        top: 0x4036666666666666, // 22.4
        bottom: 0x403e000000000000, // 30.0
        present: true,
        gap_min_years: None,
        note: text("深层完整芯段"),
        version: 1,
    });
    proof {
        reveal_strlit("S1");
        reveal_strlit("S2");
        reveal_strlit("S3");
        reveal_strlit("S4");
        assert(!white_space(v@[0].id@[0]) && !white_space(v@[1].id@[0]) && !white_space(v@[2].id@[0]) && !white_space(v@[3].id@[0]));
        assert(segment_fault(v@[0]) is None);
        assert(segment_fault(v@[1]) is None);
        assert(segment_fault(v@[2]) is None);
        assert(segment_fault(v@[3]) is None);
        assert forall|i: int, j: int| 0 <= i < v@.len() && 0 <= j < v@.len() && i != j implies apart(#[trigger] v@[i], #[trigger] v@[j]) by {
            assert(le(v@[0].bottom, v@[1].top) && le(v@[1].bottom, v@[2].top) && le(v@[2].bottom, v@[3].top));
            assert(le(v@[0].bottom, v@[2].top) && le(v@[0].bottom, v@[3].top) && le(v@[1].bottom, v@[3].top));
        }
    }
    v
}

/// The seven markers of the fixture.
pub fn seed_markers() -> (ms: Vec<Marker>)
    ensures
        seeded_markers(ms@),
        forall|i: int| 0 <= i < 7 ==> #[trigger] marker_fault(ms@[i]) is None,
{
    let mut v: Vec<Marker> = Vec::new();
    v.push(Marker {
        id: text("A0"),
        depth: 0x0000000000000000, // 0.0
        kind: text("anchor"),
        hard: true,
        lo: 0x0000000000000000, // 0.0
        hi: 0x0000000000000000, // 0.0
        mean: Some(0x0000000000000000), // 0.0
        sd: None,
        alt_means: Vec::new(),
        exchange_group: None,
        weight: 0x408f400000000000, // 1000.0
        excluded: false,
        note: text("表层锚点：年龄 0"),
        version: 1,
    });
    v.push(Marker {
        id: text("L9"),
        depth: 0x4022000000000000, // 9.0
        kind: text("layer"),
        hard: true,
        lo: 0x4043000000000000, // 38.0
        hi: 0x404a000000000000, // 52.0
        mean: Some(0x4046800000000000), // 45.0
        sd: Some(0x4000000000000000), // 2.0
        alt_means: vec![0x4045800000000000, 0x4046800000000000, 0x4047800000000000],
        exchange_group: None,
        weight: 0x4010000000000000, // 4.0
        excluded: false,
        note: text("季节层计数：9m 处累计层数，保留 43/45/47 三个局部方案"),
        version: 1,
    });
    v.push(Marker {
        id: text("V15"),
        depth: 0x402e000000000000, // 15.0
        kind: text("volcano"),
        hard: false,
        lo: 0x404e000000000000, // 60.0
        hi: 0x4056800000000000, // 90.0
        mean: Some(0x4052000000000000), // 72.0
        sd: Some(0x4014000000000000), // 5.0
        alt_means: Vec::new(),
        exchange_group: Some(text("EX-V")),
        weight: 0x4008000000000000, // 3.0
        excluded: false,
        note: text("火山灰锦标（可交换，默认与 V20 按深度正序）"),
        version: 1,
    });
    v.push(Marker {
        id: text("V20"),
        depth: 0x4034000000000000, // 20.0
        kind: text("volcano"),
        hard: false,
        lo: 0x4056000000000000, // 88.0
        hi: 0x405e000000000000, // 120.0
        mean: Some(0x405a000000000000), // 104.0
        sd: Some(0x4014000000000000), // 5.0
        alt_means: Vec::new(),
        exchange_group: Some(text("EX-V")),
        weight: 0x4008000000000000, // 3.0
        excluded: false,
        note: text("火山灰锦标（可交换，与 V15 的年龄归属可对调）"),
        version: 1,
    });
    v.push(Marker {
        id: text("I24"),
        depth: 0x4038000000000000, // 24.0
        kind: text("isotope"),
        hard: true,
        lo: 0x4062c00000000000, // 150.0
        hi: 0x4064000000000000, // 160.0
        mean: Some(0x4063600000000000), // 155.0
        sd: Some(0x4000000000000000), // 2.0
        alt_means: Vec::new(),
        exchange_group: None,
        weight: 0x4010000000000000, // 4.0
        excluded: false,
        note: text("同位素对齐点（缺芯之下）"),
        version: 1,
    });
    v.push(Marker {
        id: text("I28"),
        depth: 0x403c000000000000, // 28.0
        kind: text("isotope"),
        hard: true,
        lo: 0x4066800000000000, // 180.0
        hi: 0x4067c00000000000, // 190.0
        mean: Some(0x4067200000000000), // 185.0
        sd: Some(0x4000000000000000), // 2.0
        alt_means: Vec::new(),
        exchange_group: None,
        weight: 0x4010000000000000, // 4.0
        excluded: false,
        note: text("同位素对齐点（深部）"),
        version: 1,
    });
    v.push(Marker {
        id: text("C25B"),
        depth: 0x403c000000000000, // 28.0
        kind: text("isotope"),
        hard: true,
        lo: 0x4062c00000000000, // 150.0
        hi: 0x4064a00000000000, // 165.0
        mean: None,
        sd: None,
        alt_means: Vec::new(),
        exchange_group: None,
        weight: 0x0000000000000000, // 0.0
        excluded: true,
        note: text("冲突版本：与 I28[180,190] 在 28m 无交集（验收用，默认排除）"),
        version: 1,
    });
    proof {
        reveal_strlit("A0");
        reveal_strlit("L9");
        reveal_strlit("V15");
        reveal_strlit("V20");
        reveal_strlit("I24");
        reveal_strlit("I28");
        reveal_strlit("C25B");
        assert forall|i: int| 0 <= i < 7 implies #[trigger] marker_fault(v@[i]) is None by {
            assert(!white_space(v@[i].id@[0]));
            assert(!lt(v@[i].hi, v@[i].lo));
            assert(!lt(v@[i].weight, 0));
        }
    }
    v
}

/// The fixture's single exchange group, unswapped.
pub fn seed_exchanges() -> (ex: Vec<ExchangeState>)
    ensures
        seeded_exchanges(ex@),
{
    let mut v: Vec<ExchangeState> = Vec::new();
    v.push(ExchangeState { group: text("EX-V"), swapped: false });
    v
}

/// The fixture as a complete solve input with the default seed and draw count.
pub fn seed_input() -> (inp: SolveInput)
    ensures
        inp.seed == DEFAULT_SEED,
        inp.draws == DEFAULT_DRAWS,
        inp.solver_version == SOLVER_VERSION,
        seeded_segments(inp.segments@) && all_valid(inp.segments@) && pairwise_apart(inp.segments@),
        seeded_markers(inp.markers@),
        forall|i: int| 0 <= i < inp.markers@.len() ==> #[trigger] marker_fault(inp.markers@[i]) is None,
        seeded_exchanges(inp.exchanges@),
{
    SolveInput {
        seed: DEFAULT_SEED,
        draws: DEFAULT_DRAWS,
        solver_version: SOLVER_VERSION,
        segments: seed_segments(),
        markers: seed_markers(),
        exchanges: seed_exchanges(),
    }
}

}
