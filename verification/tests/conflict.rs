use hanleng_nianchi::conflict::{conflict_keys, ConstraintTag};

fn s(x: &str) -> String {
    x.to_string()
}

#[test]
fn node_bounds_name_their_hard_markers() {
    let node_hard = vec![vec![s("A0")], vec![], vec![s("I28"), s("C25B")], vec![s("L9")]];
    let edge_gaps = vec![None, Some(s("S3")), None];
    let tags = vec![ConstraintTag::Hi(2), ConstraintTag::Edge(1), ConstraintTag::Lo(0), ConstraintTag::Lo(2), ConstraintTag::Edge(0)];
    let keys = conflict_keys(&node_hard, &edge_gaps, &tags);
    assert_eq!(keys.markers, vec![s("A0"), s("C25B"), s("I28")]);
    assert_eq!(keys.gaps, vec![s("S3")]);
}

#[test]
fn no_tags_no_members() {
    let keys = conflict_keys(&vec![vec![s("A0")]], &vec![], &vec![]);
    assert!(keys.markers.is_empty() && keys.gaps.is_empty());
}

#[test]
fn unnamed_nodes_are_left_out() {
    let node_hard = vec![vec![s("A0")], vec![s("B1")]];
    let edge_gaps = vec![None];
    let keys = conflict_keys(&node_hard, &edge_gaps, &vec![ConstraintTag::Hi(1), ConstraintTag::Edge(0)]);
    assert_eq!(keys.markers, vec![s("B1")]);
    assert!(keys.gaps.is_empty());
}
