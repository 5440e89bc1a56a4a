use hanleng_nianchi::exchange::{check_bundle_header, conclude, conflict_check, feasibility_mismatch, recorded_as_feasible, replay_agrees, replay_check};

#[test]
fn bundle_header() {
    assert_eq!(check_bundle_header(&"han-ceng-nian-chi/bundle.v1".to_string(), 3), Ok(()));
    assert_eq!(
        check_bundle_header(&"other/v2".to_string(), 3),
        Err("不支持的导出格式: other/v2".to_string())
    );
    assert_eq!(
        check_bundle_header(&"han-ceng-nian-chi/bundle.v1".to_string(), 12),
        Err("求解器版本不匹配：导出 v12，当前 v3".to_string())
    );
}

#[test]
fn replay_items() {
    assert!(recorded_as_feasible(&"feasible".to_string()));
    assert!(!recorded_as_feasible(&"rejected".to_string()));
    let m = feasibility_mismatch(4, &"rejected".to_string());
    assert!(!m.ok);
    assert_eq!(m.detail, "可行性与记录不一致（记录 rejected）");
    assert_eq!(conflict_check(5, true).detail, "最小冲突集与记录一致");
    assert!(!conflict_check(5, false).ok);
    assert_eq!(conflict_check(5, false).detail, "最小冲突集与记录不一致");
    assert_eq!(replay_check(1, true, None).detail, "分位数逐位一致");
    assert_eq!(
        replay_check(2, true, Some((1, 7, 3))).detail,
        "分位数逐位一致；相对 #1 复用 7 节点 / 失效 3 节点"
    );
    let bad = replay_check(3, false, Some((2, 1, 1)));
    assert!(!bad.ok);
    assert_eq!(bad.detail, "分位数与记录不一致（重放不可复现）");
}

#[test]
fn import_proceeds_only_when_all_agree() {
    let report = conclude(2, vec![replay_check(1, true, None), conflict_check(2, true)]).unwrap();
    assert!(report.all_ok);
    assert_eq!(report.imported_runs, 2);
    assert_eq!(report.items.len(), 2);
    let refused = conclude(2, vec![replay_check(1, true, None), conflict_check(2, false)]);
    assert_eq!(refused.unwrap_err(), "重放复核失败，已拒绝导入（数据库未改动）");
}

#[test]
fn replay_must_reproduce_every_stored_row() {
    let b = |x: f64| x.to_bits();
    let nodes = vec![(b(0.0), b(0.0), b(0.0), b(0.0)), (b(12.0), b(40.0), b(45.0), b(50.0))];
    let edges = vec![(b(0.0), b(12.0), b(3.75))];
    assert!(replay_agrees(&nodes, &nodes.clone(), &edges, &edges.clone()));
    let mut drifted = nodes.clone();
    drifted[1].2 = b(45.000001);
    assert!(!replay_agrees(&drifted, &nodes, &edges, &edges));
    assert!(!replay_agrees(&nodes[..1].to_vec(), &nodes, &edges, &edges));
    assert!(!replay_agrees(&nodes, &nodes, &vec![], &edges));
    let signed = vec![(b(-0.0), b(0.0), b(0.0), b(0.0)), nodes[1]];
    assert!(!replay_agrees(&signed, &nodes, &edges, &edges));
}
