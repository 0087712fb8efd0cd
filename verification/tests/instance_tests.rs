use bnb_rust::instance::{Instance, InstanceError, LiveMembers};

fn triangle_with_tail() -> Instance {
    Instance::new(5, vec![vec![0, 1], vec![1, 2], vec![2, 0], vec![2, 3], vec![3, 4, 4]]).unwrap()
}

#[test]
fn new_instance_is_pristine() {
    let instance = triangle_with_tail();
    assert_eq!(instance.num_nodes_total(), 5);
    assert_eq!(instance.num_edges_total(), 5);
    assert_eq!(instance.num_edges(), 5);
    assert_eq!(instance.nodes(), vec![0, 1, 2, 3, 4]);
    assert_eq!(instance.edges(), vec![0, 1, 2, 3, 4]);
}

#[test]
fn new_rejects_an_empty_edge() {
    let made = Instance::new(3, vec![vec![0, 1], vec![], vec![7]]);
    assert_eq!(made.err(), Some(InstanceError::InvalidEdge { edge: 1 }));
}

#[test]
fn new_rejects_an_unknown_node() {
    let made = Instance::new(3, vec![vec![0, 1], vec![1, 2], vec![2, 3], vec![]]);
    assert_eq!(made.err(), Some(InstanceError::InvalidEdge { edge: 2 }));
}

#[test]
fn new_rejects_any_edge_without_nodes_to_name() {
    let made = Instance::new(0, vec![vec![0]]);
    assert_eq!(made.err(), Some(InstanceError::InvalidEdge { edge: 0 }));
}

#[test]
fn edge_lists_members_as_given() {
    let instance = triangle_with_tail();
    assert_eq!(instance.edge(0), &[0, 1]);
    assert_eq!(instance.edge(4), &[3, 4, 4]);
    assert!(instance.edge_contains(3, 2));
    assert!(instance.edge_contains(3, 3));
    assert!(!instance.edge_contains(3, 4));
}

#[test]
fn degrees_count_live_edges() {
    let mut instance = triangle_with_tail();
    assert_eq!(instance.node_degree(0), 2);
    assert_eq!(instance.node_degree(2), 3);
    assert_eq!(instance.node_degree(3), 2);
    assert_eq!(instance.node_degree(4), 1);
    assert_eq!(instance.node_degree(9), 0);
    instance.delete_node(2);
    assert_eq!(instance.node_degree(0), 2);
    instance.delete_incident_edges(2);
    assert_eq!(instance.node_degree(0), 1);
    assert_eq!(instance.node_degree(1), 1);
    assert_eq!(instance.node_degree(2), 0);
    assert_eq!(instance.node_degree(3), 1);
}

#[test]
fn deleting_a_node_leaves_the_edges() {
    let mut instance = triangle_with_tail();
    instance.delete_node(1);
    assert!(!instance.is_node_live(1));
    assert!(instance.is_node_live(0));
    assert_eq!(instance.nodes(), vec![0, 2, 3, 4]);
    assert_eq!(instance.edges(), vec![0, 1, 2, 3, 4]);
    assert_eq!(instance.num_nodes_total(), 5);
    instance.restore_node(1);
    assert!(instance.is_node_live(1));
    assert_eq!(instance.nodes(), vec![0, 1, 2, 3, 4]);
}

#[test]
fn deleting_incident_edges_is_undone_exactly() {
    let mut instance = triangle_with_tail();
    instance.delete_node(2);
    instance.delete_incident_edges(2);
    assert_eq!(instance.edges(), vec![0, 4]);
    assert_eq!(instance.num_edges(), 2);
    assert!(!instance.is_edge_live(1));
    assert!(instance.is_edge_live(0));
    instance.delete_node(0);
    instance.delete_incident_edges(0);
    assert_eq!(instance.edges(), vec![4]);
    instance.restore_incident_edges(0);
    instance.restore_node(0);
    assert_eq!(instance.edges(), vec![0, 4]);
    instance.restore_incident_edges(2);
    instance.restore_node(2);
    assert_eq!(instance.edges(), vec![0, 1, 2, 3, 4]);
    assert_eq!(instance.nodes(), vec![0, 1, 2, 3, 4]);
    assert_eq!(instance.num_edges_total(), 5);
}

#[test]
fn an_edge_stays_deleted_while_another_member_accounts_for_it() {
    let mut instance = triangle_with_tail();
    instance.delete_node(0);
    instance.delete_incident_edges(0);
    instance.delete_node(2);
    instance.delete_incident_edges(2);
    assert_eq!(instance.edges(), vec![4]);
    instance.restore_incident_edges(0);
    assert_eq!(instance.edges(), vec![0, 4]);
    assert!(!instance.is_edge_live(2));
    instance.restore_incident_edges(2);
    assert_eq!(instance.edges(), vec![0, 1, 2, 3, 4]);
}

#[test]
fn unknown_indices_are_not_live() {
    let instance = triangle_with_tail();
    assert!(!instance.is_node_live(5));
    assert!(!instance.is_edge_live(5));
    assert!(instance.is_node_live(4));
    assert!(instance.is_edge_live(4));
}

#[test]
fn live_members_are_told_apart() {
    let mut instance = triangle_with_tail();
    assert_eq!(instance.live_members_of(0), LiveMembers::Many);
    assert_eq!(instance.live_members_of(4), LiveMembers::Many);
    instance.delete_node(3);
    assert_eq!(instance.live_members_of(4), LiveMembers::One { node: 4 });
    assert_eq!(instance.live_members_of(3), LiveMembers::One { node: 2 });
    instance.delete_node(4);
    assert_eq!(instance.live_members_of(4), LiveMembers::Zero);
    assert_eq!(instance.live_members_of(0), LiveMembers::Many);
}

#[test]
fn clone_is_independent() {
    let mut instance = triangle_with_tail();
    instance.delete_node(2);
    instance.delete_incident_edges(2);
    let mut copy = instance.clone();
    assert_eq!(copy.nodes(), vec![0, 1, 3, 4]);
    assert_eq!(copy.edges(), vec![0, 4]);
    copy.restore_incident_edges(2);
    copy.restore_node(2);
    assert_eq!(copy.edges(), vec![0, 1, 2, 3, 4]);
    assert_eq!(instance.edges(), vec![0, 4]);
    assert_eq!(instance.nodes(), vec![0, 1, 3, 4]);
}
