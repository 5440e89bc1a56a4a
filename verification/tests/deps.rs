use hanleng_nianchi::deps::{dependencies, NodeKeys};

fn node(hard: Vec<usize>, soft: Vec<usize>) -> NodeKeys {
    NodeKeys { hard, soft }
}

#[test]
fn pooled_widened_and_propagated_dependencies() {
    let nodes = vec![node(vec![0], vec![]), node(vec![], vec![]), node(vec![], vec![1]), node(vec![], vec![]), node(vec![2], vec![])];
    let gaps = vec![None, Some(0), None, None];
    let groups = vec![vec![0, 0, 1, 1, 2], vec![0, 1, 1, 2, 3]];
    let d = dependencies(&nodes, &gaps, &groups, 3, 1);
    assert_eq!(d.node_markers, vec![vec![0], vec![0, 1], vec![1], vec![1, 2], vec![2]]);
    assert_eq!(d.node_gaps, vec![vec![], vec![0], vec![0], vec![0], vec![]]);
    assert_eq!(d.edge_markers, vec![vec![0, 1], vec![0, 1], vec![1, 2], vec![1, 2]]);
    assert_eq!(d.edge_gaps, vec![vec![0], vec![0], vec![0], vec![0]]);
}

#[test]
fn without_draws_only_own_markers_and_crossed_gaps() {
    let nodes = vec![node(vec![0], vec![]), node(vec![], vec![]), node(vec![], vec![1]), node(vec![], vec![]), node(vec![2], vec![])];
    let gaps = vec![None, Some(0), None, None];
    let d = dependencies(&nodes, &gaps, &vec![], 3, 1);
    assert_eq!(d.node_markers, vec![vec![0], vec![], vec![1], vec![], vec![2]]);
    assert_eq!(d.node_gaps, vec![Vec::<usize>::new(); 5]);
    assert_eq!(d.edge_markers, vec![vec![0], vec![1], vec![1], vec![2]]);
    assert_eq!(d.edge_gaps, vec![vec![], vec![0], vec![], vec![]]);
}

#[test]
fn gap_dependency_flows_down_to_nodes_without_hard_markers() {
    let nodes = vec![node(vec![0], vec![]), node(vec![], vec![]), node(vec![1], vec![]), node(vec![], vec![])];
    let gaps = vec![Some(0), None, Some(1)];
    let d = dependencies(&nodes, &gaps, &vec![vec![0, 1, 2, 3]], 2, 2);
    assert_eq!(d.node_markers, vec![vec![0], vec![0, 1], vec![1], vec![1]]);
    assert_eq!(d.node_gaps, vec![vec![], vec![0], vec![], vec![0, 1]]);
    assert_eq!(d.edge_gaps, vec![vec![0], vec![0], vec![0, 1]]);
    let pooled = dependencies(&nodes, &gaps, &vec![vec![0, 1, 1, 2]], 2, 2);
    assert_eq!(pooled.node_gaps, vec![vec![], vec![0], vec![0], vec![0, 1]]);
}
