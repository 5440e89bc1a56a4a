use hanleng_nianchi::fixtures::seed_input;
use hanleng_nianchi::incremental::{classify, diff_inputs, ChangeKeys, Reuse, RowQuery};
use hanleng_nianchi::model::{ExchangeState, SolveInput};

fn sigs_markers(inp: &SolveInput) -> Vec<String> {
    inp.markers.iter().map(|m| format!("{:?}", m)).collect()
}

fn sigs_segments(inp: &SolveInput) -> Vec<String> {
    inp.segments.iter().map(|s| format!("{:?}", s)).collect()
}

fn diff(base: &SolveInput, now: &SolveInput) -> ChangeKeys {
    diff_inputs(base, now, &sigs_markers(base), &sigs_markers(now), &sigs_segments(base), &sigs_segments(now))
}

#[test]
fn identical_inputs_change_nothing() {
    let a = seed_input();
    let k = diff(&a, &seed_input());
    assert!(k.markers.is_empty() && k.gaps.is_empty() && !k.structural && k.detail.is_empty());
}

#[test]
fn gap_duration_change_is_a_gap_key() {
    let base = seed_input();
    let mut now = seed_input();
    now.segments[2].gap_min_years = Some(40.0f64.to_bits());
    let k = diff(&base, &now);
    assert_eq!(k.gaps, vec!["S3".to_string()]);
    assert!(k.markers.is_empty());
    assert!(!k.structural);
    assert_eq!(k.detail, vec!["缺芯 S3 边界（最小年数）已调整".to_string()]);
}

#[test]
fn depth_change_is_structural() {
    let base = seed_input();
    let mut now = seed_input();
    now.segments[0].bottom = 11.0f64.to_bits();
    let k = diff(&base, &now);
    assert!(k.structural);
    assert!(k.gaps.is_empty());
    assert_eq!(k.detail, vec!["芯段 S1 结构变化（深度/存在性）".to_string()]);
    let mut more = seed_input();
    more.draws = 250;
    assert!(diff(&base, &more).structural);
}

#[test]
fn marker_and_exchange_changes_are_marker_keys() {
    let base = seed_input();
    let mut now = seed_input();
    now.markers[6].excluded = false;
    now.exchanges[0] = ExchangeState { group: "EX-V".to_string(), swapped: true };
    let k = diff(&base, &now);
    assert_eq!(k.markers, vec!["C25B".to_string(), "V15".to_string(), "V20".to_string()]);
    assert!(!k.structural);
    assert_eq!(
        k.detail,
        vec!["锦标 C25B 已变更/排除/恢复".to_string(), "交换组 EX-V 状态变化".to_string()]
    );
}

#[test]
fn removed_and_added_markers_are_keys() {
    let base = seed_input();
    let mut now = seed_input();
    let removed = now.markers.remove(1);
    let mut added = removed.clone();
    added.id = "L10".to_string();
    now.markers.push(added);
    let k = diff(&base, &now);
    assert_eq!(k.markers, vec!["L10".to_string(), "L9".to_string()]);
    assert!(!k.structural);
}

#[test]
fn moved_or_added_node_depth_is_structural() {
    let base = seed_input();
    let mut moved = seed_input();
    moved.markers[2].depth = 16.0f64.to_bits();
    let k = diff(&base, &moved);
    assert!(k.structural);
    assert_eq!(k.markers, vec!["V15".to_string()]);
    let mut added = seed_input();
    let mut extra = added.markers[1].clone();
    extra.id = "L11".to_string();
    extra.depth = 11.0f64.to_bits();
    added.markers.push(extra);
    assert!(diff(&base, &added).structural);
    let mut shared = seed_input();
    shared.markers[6].depth = shared.markers[4].depth;
    shared.markers[5].depth = 24.0f64.to_bits();
    assert!(diff(&base, &shared).structural);
}

#[test]
fn marker_moved_onto_an_existing_node_is_not_structural() {
    let base = seed_input();
    let mut now = seed_input();
    now.markers[0].depth = 12.0f64.to_bits();
    let k = diff(&base, &now);
    assert!(!k.structural);
    assert_eq!(k.markers, vec!["A0".to_string()]);
}

fn row(markers: &[&str], gaps: &[&str], q: (f64, f64, f64), prev: Option<(f64, f64, f64)>) -> RowQuery {
    RowQuery {
        dep_markers: markers.iter().map(|s| s.to_string()).collect(),
        dep_gaps: gaps.iter().map(|s| s.to_string()).collect(),
        quantiles: (q.0.to_bits(), q.1.to_bits(), q.2.to_bits()),
        previous: prev.map(|p| (p.0.to_bits(), p.1.to_bits(), p.2.to_bits())),
    }
}

#[test]
fn reuse_verdicts() {
    let changes = ChangeKeys {
        markers: vec!["V15".to_string()],
        gaps: vec!["S3".to_string()],
        structural: false,
        detail: vec![],
    };
    let rows = vec![
        row(&["A0"], &[], (0.0, 0.0, 0.0), Some((0.0, 0.0, 0.0))),
        row(&["V15", "V20"], &[], (70.0, 72.0, 75.0), Some((70.0, 72.0, 75.0))),
        row(&["I24"], &["S3"], (150.0, 155.0, 160.0), Some((150.0, 155.0, 160.0))),
        row(&["L9"], &[], (40.0, 45.0, 50.0), Some((40.0, 45.5, 50.0))),
        row(&["L9"], &[], (40.0, 45.0, 50.0), None),
    ];
    let s = classify(&changes, &rows);
    assert_eq!(
        s.verdicts,
        vec![Reuse::Unchanged, Reuse::MarkerChanged, Reuse::GapChanged, Reuse::Drifted, Reuse::NoCounterpart]
    );
    assert_eq!(s.reused, 1);
    assert_eq!(s.invalidated, 4);
    let structural = ChangeKeys { markers: vec![], gaps: vec![], structural: true, detail: vec![] };
    let t = classify(&structural, &rows);
    assert_eq!(t.reused, 0);
    assert!(t.verdicts.iter().all(|v| *v == Reuse::Restructured));
}

#[test]
fn reuse_reasons() {
    assert_eq!(Reuse::Restructured.reason(false), "结构变化：全量失效");
    assert_eq!(Reuse::MarkerChanged.reason(true), "依赖的锦标已变更");
    assert_eq!(Reuse::GapChanged.reason(false), "依赖的缺芯边界已调整");
    assert_eq!(Reuse::NoCounterpart.reason(false), "旧运行无对应深度节点");
    assert_eq!(Reuse::NoCounterpart.reason(true), "旧运行无对应边");
    assert_eq!(Reuse::Drifted.reason(true), "依赖未变但数值漂移，保守失效");
    assert_eq!(Reuse::Unchanged.reason(false), "输入依赖未变化，分位数逐位一致");
    assert_eq!(Reuse::Unchanged.reason(true), "输入依赖未变化，速率分位数逐位一致");
}

#[test]
fn unchanged_input_reuses_identical_rows() {
    let a = seed_input();
    let changes = diff(&a, &seed_input());
    let rows = vec![
        row(&["V15", "V20"], &["S3"], (70.0, 72.0, 75.0), Some((70.0, 72.0, 75.0))),
        row(&["I24"], &["S3"], (150.0, 155.0, 160.0), Some((150.0, 155.0, 160.5))),
        row(&[], &[], (1.0, 2.0, 3.0), None),
        row(&["A0"], &[], (-0.0, 0.0, 0.0), Some((0.0, -0.0, 0.0))),
    ];
    let s = classify(&changes, &rows);
    assert_eq!(s.verdicts, vec![Reuse::Unchanged, Reuse::Drifted, Reuse::NoCounterpart, Reuse::Drifted]);
    assert_eq!((s.reused, s.invalidated), (1, 3));
}
