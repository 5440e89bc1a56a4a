use hanleng_nianchi::fixtures::seed_markers;
use hanleng_nianchi::groups::exchange_assignments;
use hanleng_nianchi::model::ExchangeState;

fn pairs(v: &[hanleng_nianchi::groups::Assignment]) -> Vec<(usize, usize)> {
    v.iter().map(|a| (a.member, a.source)).collect()
}

#[test]
fn unswapped_group_keeps_its_own_distributions() {
    let m = seed_markers();
    let a = exchange_assignments(&m, &ExchangeState { group: "EX-V".to_string(), swapped: false });
    assert_eq!(pairs(&a), vec![(2, 2), (3, 3)]);
}

#[test]
fn swapped_pair_exchanges_distributions() {
    let m = seed_markers();
    let a = exchange_assignments(&m, &ExchangeState { group: "EX-V".to_string(), swapped: true });
    assert_eq!(pairs(&a), vec![(2, 3), (3, 2)]);
}

#[test]
fn swapped_group_rotates_by_depth() {
    let mut m = seed_markers();
    m[4].exchange_group = Some("EX-V".to_string());
    m[0].exchange_group = Some("EX-V".to_string());
    m[0].excluded = true;
    // Members by depth: V15 (15 m), V20 (20 m), I24 (24 m).
    let a = exchange_assignments(&m, &ExchangeState { group: "EX-V".to_string(), swapped: true });
    assert_eq!(pairs(&a), vec![(2, 4), (3, 2), (4, 3)]);
}

#[test]
fn lone_or_unknown_group_gets_nothing() {
    let mut m = seed_markers();
    m[3].exchange_group = None;
    assert!(exchange_assignments(&m, &ExchangeState { group: "EX-V".to_string(), swapped: true }).is_empty());
    assert!(exchange_assignments(&seed_markers(), &ExchangeState { group: "none".to_string(), swapped: true }).is_empty());
}
