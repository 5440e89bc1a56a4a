use hanleng_nianchi::edits::{check_draws, edit_marker, edit_segment, MarkerEditError, MarkerPatch, SegmentEditError, SegmentPatch};
use hanleng_nianchi::fixtures::{seed_markers, seed_segments};
use hanleng_nianchi::model::{SegmentFault, SegmentsFault};

fn empty_marker_patch() -> MarkerPatch {
    MarkerPatch {
        depth: None,
        kind: None,
        hard: None,
        lo: None,
        hi: None,
        mean: None,
        sd: None,
        alt_means: None,
        exchange_group: None,
        weight: None,
        excluded: None,
        note: None,
        bump_version: None,
    }
}

fn empty_segment_patch() -> SegmentPatch {
    SegmentPatch { top: None, bottom: None, present: None, gap_min_years: None, note: None, bump_version: None }
}

#[test]
fn draw_counts() {
    assert!(check_draws(1).is_ok());
    assert!(check_draws(100_000).is_ok());
    assert_eq!(check_draws(0).unwrap_err(), "draws 必须在 1..=100000");
    assert!(check_draws(100_001).is_err());
}

#[test]
fn marker_patch_applies_and_bumps_version() {
    let mut p = empty_marker_patch();
    p.excluded = Some(false);
    p.sd = Some((-1.0f64).to_bits());
    p.exchange_group = Some("  ".to_string());
    let m = edit_marker(&seed_markers(), &"C25B".to_string(), p).unwrap();
    assert!(!m.excluded);
    assert_eq!(m.sd, None);
    assert_eq!(m.exchange_group, None);
    assert_eq!(m.version, 2);
    let mut q = empty_marker_patch();
    q.bump_version = Some(false);
    q.sd = Some(3.0f64.to_bits());
    q.exchange_group = Some("EX-W".to_string());
    let n = edit_marker(&seed_markers(), &"V15".to_string(), q).unwrap();
    assert_eq!(n.version, 1);
    assert_eq!(n.sd, Some(3.0f64.to_bits()));
    assert_eq!(n.exchange_group.as_deref(), Some("EX-W"));
}

#[test]
fn marker_patch_refusals() {
    assert!(matches!(edit_marker(&seed_markers(), &"nope".to_string(), empty_marker_patch()), Err(MarkerEditError::NotFound)));
    let mut p = empty_marker_patch();
    p.depth = Some((-1.0f64).to_bits());
    match edit_marker(&seed_markers(), &"I24".to_string(), p) {
        Err(MarkerEditError::Rejected(msg)) => assert_eq!(msg, "深度不能为负"),
        other => panic!("unexpected {:?}", other),
    }
    let mut q = empty_marker_patch();
    q.lo = Some(500.0f64.to_bits());
    match edit_marker(&seed_markers(), &"I24".to_string(), q) {
        Err(MarkerEditError::Rejected(msg)) => assert_eq!(msg, "锦标 I24 区间反向 hi<lo"),
        other => panic!("unexpected {:?}", other),
    }
    let mut r = empty_marker_patch();
    r.kind = Some("ice".to_string());
    match edit_marker(&seed_markers(), &"I24".to_string(), r) {
        Err(MarkerEditError::Rejected(msg)) => assert_eq!(msg, "锦标 I24 类型非法: ice"),
        other => panic!("unexpected {:?}", other),
    }
}

#[test]
fn segment_patch_rules() {
    let mut p = empty_segment_patch();
    p.gap_min_years = Some(40.0f64.to_bits());
    let s = edit_segment(&seed_segments(), &"S3".to_string(), p).unwrap();
    assert_eq!(s.gap_min_years, Some(40.0f64.to_bits()));
    assert_eq!(s.version, 2);
    let mut zero = empty_segment_patch();
    zero.gap_min_years = Some(0.0f64.to_bits());
    match edit_segment(&seed_segments(), &"S3".to_string(), zero) {
        Err(SegmentEditError::Invalid { fault: SegmentFault::NoGapDuration, segment }) => {
            assert_eq!(segment.id, "S3");
            assert_eq!(segment.gap_min_years, Some(0.0f64.to_bits()));
        }
        other => panic!("unexpected {:?}", other),
    }
    let mut deep = empty_segment_patch();
    deep.bottom = Some(13.0f64.to_bits());
    match edit_segment(&seed_segments(), &"S1".to_string(), deep) {
        Err(SegmentEditError::Conflict { fault: SegmentsFault::Overlap { upper, lower }, segments }) => {
            assert_eq!(segments[upper].id, "S1");
            assert_eq!(segments[lower].id, "S2");
        }
        other => panic!("unexpected {:?}", other),
    }
    assert!(matches!(
        edit_segment(&seed_segments(), &"S9".to_string(), empty_segment_patch()),
        Err(SegmentEditError::NotFound)
    ));
}
