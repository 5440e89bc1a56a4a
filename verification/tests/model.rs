use hanleng_nianchi::fixtures::{seed_markers, seed_segments};
use hanleng_nianchi::model::{validate_segments, Marker, Segment, SegmentFault, SegmentsFault};

fn segment(id: &str, top: f64, bottom: f64, present: bool, gap: Option<f64>) -> Segment {
    Segment {
        id: id.to_string(),
        top: top.to_bits(),
        bottom: bottom.to_bits(),
        present,
        gap_min_years: gap.map(|g| g.to_bits()),
        note: String::new(),
        version: 1,
    }
}

fn marker(id: &str, kind: &str, lo: f64, hi: f64, weight: f64) -> Marker {
    Marker {
        id: id.to_string(),
        depth: 5.0f64.to_bits(),
        kind: kind.to_string(),
        hard: true,
        lo: lo.to_bits(),
        hi: hi.to_bits(),
        mean: None,
        sd: None,
        alt_means: vec![],
        exchange_group: None,
        weight: weight.to_bits(),
        excluded: false,
        note: String::new(),
        version: 1,
    }
}

#[test]
fn segment_rules() {
    assert_eq!(segment("S", 0.0, 1.0, true, None).validate(), Ok(()));
    assert_eq!(segment(" \t", 0.0, 1.0, true, None).validate(), Err(SegmentFault::BlankId));
    assert_eq!(segment("S", 1.0, 1.0, true, None).validate(), Err(SegmentFault::DepthsNotIncreasing));
    assert_eq!(segment("S", 2.0, 1.0, true, None).validate(), Err(SegmentFault::DepthsNotIncreasing));
    assert_eq!(segment("S", f64::NAN, 1.0, true, None).validate(), Err(SegmentFault::DepthsNotIncreasing));
    assert_eq!(segment("G", 0.0, 1.0, false, None).validate(), Err(SegmentFault::NoGapDuration));
    assert_eq!(segment("G", 0.0, 1.0, false, Some(0.0)).validate(), Err(SegmentFault::NoGapDuration));
    assert_eq!(segment("G", 0.0, 1.0, false, Some(-3.0)).validate(), Err(SegmentFault::NoGapDuration));
    assert_eq!(segment("G", 0.0, 1.0, false, Some(30.0)).validate(), Ok(()));
}

#[test]
fn marker_rules_and_messages() {
    assert!(marker("m", "layer", 1.0, 2.0, 1.0).validate().is_ok());
    assert!(marker("m", "anchor", 2.0, 2.0, 0.0).validate().is_ok());
    assert_eq!(marker("  ", "layer", 1.0, 2.0, 1.0).validate().unwrap_err().0, "锦标 id 不能为空");
    assert_eq!(marker("m1", "tephra", 1.0, 2.0, 1.0).validate().unwrap_err().0, "锦标 m1 类型非法: tephra");
    assert_eq!(marker("m2", "isotope", 3.0, 2.0, 1.0).validate().unwrap_err().0, "锦标 m2 区间反向 hi<lo");
    assert_eq!(marker("m3", "volcano", 1.0, 2.0, -0.5).validate().unwrap_err().0, "锦标 m3 权重为负");
}

#[test]
fn segments_must_not_overlap() {
    let ok = vec![
        segment("B", 12.0, 21.8, true, None),
        segment("A", 0.0, 12.0, true, None),
        segment("C", 21.8, 22.4, false, Some(30.0)),
    ];
    assert_eq!(validate_segments(&ok), Ok(()));
    let overlap = vec![
        segment("A", 0.0, 12.0, true, None),
        segment("B", 11.0, 20.0, true, None),
    ];
    assert_eq!(validate_segments(&overlap), Err(SegmentsFault::Overlap { upper: 0, lower: 1 }));
    let same_top = vec![
        segment("B", 5.0, 8.0, true, None),
        segment("A", 5.0, 6.0, true, None),
    ];
    assert_eq!(validate_segments(&same_top), Err(SegmentsFault::Overlap { upper: 0, lower: 1 }));
    let invalid = vec![
        segment("A", 0.0, 12.0, true, None),
        segment("G", 12.0, 13.0, false, None),
    ];
    assert_eq!(
        validate_segments(&invalid),
        Err(SegmentsFault::Invalid { index: 1, fault: SegmentFault::NoGapDuration })
    );
    assert_eq!(validate_segments(&vec![]), Ok(()));
}

#[test]
fn fixture_is_valid() {
    assert_eq!(validate_segments(&seed_segments()), Ok(()));
    for m in seed_markers().iter() {
        assert!(m.validate().is_ok());
    }
}

#[test]
fn segment_verdict_ignores_order() {
    let mut s = seed_segments();
    s.reverse();
    assert!(validate_segments(&s).is_ok());
    s[0].top = 22.0f64.to_bits();
    assert!(validate_segments(&s).is_err());
    let mut t = seed_segments();
    t.rotate_left(1);
    t[3].bottom = 12.5f64.to_bits();
    assert!(validate_segments(&t).is_err());
}
