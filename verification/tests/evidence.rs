use hanleng_nianchi::evidence::{
    check_evidence_id, check_outside_gaps, check_gap_move, check_settings, check_sigma, default_evidence, move_gap, redistribute,
    swap_soft, EvidenceKind,
};

fn b(x: f64) -> u64 {
    x.to_bits()
}

fn f(bits: u64) -> f64 {
    f64::from_bits(bits)
}

#[test]
fn evidence_id_must_not_be_blank() {
    assert!(check_evidence_id(&"ash-1".to_string()).is_ok());
    assert_eq!(check_evidence_id(&"  \t".to_string()), Err("证据 id 不能为空".to_string()));
    assert!(check_evidence_id(&String::new()).is_err());
}

#[test]
fn gap_move_needs_increasing_depths() {
    assert!(check_gap_move(b(70.0), b(82.6)).is_ok());
    assert_eq!(check_gap_move(b(70.0), b(70.0)), Err("缺芯结束深度必须严格大于开始深度".to_string()));
    assert!(check_gap_move(b(80.0), b(70.0)).is_err());
    assert!(check_gap_move(b(-1.0), b(0.0)).is_ok());
    assert!(check_gap_move(b(0.0), f64::NAN.to_bits()).is_ok());
}

#[test]
fn moving_a_gap_keeps_everything_else() {
    let e = default_evidence();
    let moved = move_gap(&e[7], b(71.0), b(84.0), Some(b(50.0)), None);
    assert_eq!(f(moved.depth), 71.0);
    assert_eq!(moved.gap_end.map(f), Some(84.0));
    assert_eq!(moved.gap_mean.map(f), Some(50.0));
    assert_eq!(moved.gap_sigma.map(f), Some(10.0));
    assert_eq!(moved.id, "gap-BC");
    assert_eq!(moved.kind, EvidenceKind::Gap);
    assert_eq!(moved.label, e[7].label);
}

#[test]
fn sigma_must_be_positive() {
    assert!(check_sigma(b(18.0)).is_ok());
    assert_eq!(check_sigma(b(0.0)), Err("软锦标 σ 必须为正数".to_string()));
    assert!(check_sigma(b(-2.0)).is_err());
    assert!(check_sigma((-0.0f64).to_bits()).is_err());
    assert!(check_sigma(f64::NAN.to_bits()).is_ok());
}

#[test]
fn only_soft_markers_are_redistributed() {
    let e = default_evidence();
    let ash = redistribute(&e[2], b(140.0), b(12.0)).unwrap();
    assert_eq!((ash.mean.map(f), ash.sigma.map(f)), (Some(140.0), Some(12.0)));
    assert_eq!(ash.id, "ash-1");
    assert_eq!(f(ash.depth), 20.0);
    assert!(redistribute(&e[4], b(560.0), b(20.0)).is_ok());
    let refused = redistribute(&e[5], b(1.0), b(1.0));
    assert_eq!(refused.unwrap_err(), "仅火山灰/同位素软锦标可调整分布");
}

#[test]
fn swapping_soft_markers_twice_restores_them() {
    let mut e = default_evidence();
    let names = swap_soft(&mut e).unwrap();
    assert_eq!(names, ("ash-1".to_string(), "ash-2".to_string()));
    assert_eq!((e[2].mean.map(f), e[2].sigma.map(f)), (Some(232.0), Some(22.0)));
    assert_eq!((e[3].mean.map(f), e[3].sigma.map(f)), (Some(132.0), Some(18.0)));
    assert_eq!(e[4].mean.map(f), Some(575.0));
    assert_eq!(f(e[2].depth), 20.0);
    swap_soft(&mut e).unwrap();
    assert_eq!((e[2].mean.map(f), e[2].sigma.map(f)), (Some(132.0), Some(18.0)));
    assert_eq!((e[3].mean.map(f), e[3].sigma.map(f)), (Some(232.0), Some(22.0)));
}

#[test]
fn swapping_needs_two_soft_markers() {
    let mut e = default_evidence();
    e[3].mean = None;
    let names = swap_soft(&mut e).unwrap();
    assert_eq!(names, ("ash-1".to_string(), "isotope-1".to_string()));
    let mut few: Vec<_> = default_evidence().into_iter().filter(|x| x.kind != EvidenceKind::Ash).collect();
    let before: Vec<Option<u64>> = few.iter().map(|x| x.mean).collect();
    assert_eq!(swap_soft(&mut few), Err("至少需要两个软锦标才能交换".to_string()));
    assert_eq!(few.iter().map(|x| x.mean).collect::<Vec<_>>(), before);
}

#[test]
fn settings_are_checked() {
    assert!(check_settings(400, &vec![b(0.025), b(0.5), b(0.975)]).is_ok());
    assert_eq!(check_settings(0, &vec![b(0.5)]), Err("抽样数与分位数不能为空".to_string()));
    assert_eq!(check_settings(10, &vec![]), Err("抽样数与分位数不能为空".to_string()));
    assert_eq!(check_settings(10, &vec![b(0.5), b(1.5)]), Err("分位数必须位于 [0,1]".to_string()));
    assert!(check_settings(10, &vec![b(-0.1)]).is_err());
    assert!(check_settings(10, &vec![b(0.0), b(1.0)]).is_ok());
    assert!(check_settings(10, &vec![f64::NAN.to_bits()]).is_err());
}

#[test]
fn evidence_inside_gap_is_rejected() {
    let mut e = default_evidence();
    assert!(check_outside_gaps(&e).is_ok());
    e[4].depth = b(75.0);
    let err = check_outside_gaps(&e).unwrap_err();
    assert!(err.contains("缺芯内部"));
    assert_eq!(err, "证据 isotope-1 落在缺芯内部：gap-BC");
    let mut edge = default_evidence();
    edge[4].depth = b(82.6);
    assert!(check_outside_gaps(&edge).is_ok());
}
