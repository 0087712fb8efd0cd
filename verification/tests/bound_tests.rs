use bnb_rust::instance::Instance;
use bnb_rust::lower_bound::{
    best_threshold_bound, calc_efficiency_bound, calc_max_degree_bound, calc_sum_degree_bound, div_ceil,
    greatest_degree, greatest_member_degree, node_degrees, PackingBound,
};
use bnb_rust::report::Settings;

fn settings() -> Settings {
    Settings { initial_hitting_set: None, time_limit: 0, stop_at: 0, packing_from_scratch_limit: 11 }
}

fn path() -> Instance {
    Instance::new(5, vec![vec![1, 2], vec![2, 3], vec![3, 4]]).unwrap()
}

fn star_and_matching() -> Instance {
    Instance::new(
        10,
        vec![vec![0, 1], vec![0, 2], vec![0, 3], vec![0, 4], vec![0, 5], vec![6, 7], vec![8, 9]],
    )
    .unwrap()
}

#[test]
fn div_ceil_rounds_up() {
    assert_eq!(div_ceil(0, 3), 0);
    assert_eq!(div_ceil(1, 3), 1);
    assert_eq!(div_ceil(3, 3), 1);
    assert_eq!(div_ceil(4, 3), 2);
    assert_eq!(div_ceil(7, 1), 7);
    assert_eq!(div_ceil(usize::MAX, 2), usize::MAX / 2 + 1);
    assert_eq!(div_ceil(usize::MAX, usize::MAX), 1);
}

#[test]
fn degrees_of_the_path() {
    let instance = path();
    let degrees = node_degrees(&instance);
    assert_eq!(degrees, vec![0, 1, 2, 2, 1]);
    assert_eq!(greatest_degree(&instance, &degrees), 2);
    assert_eq!(greatest_member_degree(&instance, &degrees, 0), 2);
    assert_eq!(greatest_member_degree(&instance, &degrees, 2), 2);
}

#[test]
fn greatest_degree_looks_at_live_nodes_only() {
    let mut instance = star_and_matching();
    instance.delete_node(0);
    let degrees = node_degrees(&instance);
    assert_eq!(degrees[0], 5);
    assert_eq!(greatest_degree(&instance, &degrees), 1);
    assert_eq!(greatest_member_degree(&instance, &degrees, 0), 1);
}

#[test]
fn max_degree_bound_divides_edges_by_degree() {
    assert_eq!(calc_max_degree_bound(&path()), Some(2));
    assert_eq!(calc_max_degree_bound(&star_and_matching()), Some(2));
}

#[test]
fn max_degree_bound_without_edges_is_zero() {
    let instance = Instance::new(4, vec![]).unwrap();
    assert_eq!(calc_max_degree_bound(&instance), Some(0));
}

#[test]
fn max_degree_bound_is_undefined_without_a_node_to_take() {
    let mut instance = Instance::new(2, vec![vec![0, 1]]).unwrap();
    instance.delete_node(0);
    instance.delete_node(1);
    assert_eq!(calc_max_degree_bound(&instance), None);
}

#[test]
fn sum_degree_bound_counts_the_largest_degrees() {
    assert_eq!(calc_sum_degree_bound(&path()), 2);
    assert_eq!(calc_sum_degree_bound(&star_and_matching()), 3);
}

#[test]
fn sum_degree_bound_without_edges_is_zero() {
    let instance = Instance::new(4, vec![]).unwrap();
    assert_eq!(calc_sum_degree_bound(&instance), 0);
}

#[test]
fn threshold_bound_for_a_given_demand() {
    let instance = star_and_matching();
    let degrees = node_degrees(&instance);
    assert_eq!(best_threshold_bound(&instance, &degrees, 7), 3);
    assert_eq!(best_threshold_bound(&instance, &degrees, 5), 1);
    assert_eq!(best_threshold_bound(&instance, &degrees, 6), 2);
    assert_eq!(best_threshold_bound(&instance, &degrees, 0), 0);
}

#[test]
fn efficiency_bound_sums_the_shares() {
    assert_eq!(calc_efficiency_bound(&path()), Some(2));
    assert_eq!(calc_efficiency_bound(&star_and_matching()), Some(3));
}

#[test]
fn efficiency_bound_rounds_halves_up() {
    let instance = Instance::new(3, vec![vec![0, 1], vec![1, 2], vec![0, 2]]).unwrap();
    assert_eq!(calc_efficiency_bound(&instance), Some(2));
    let single = Instance::new(3, vec![vec![0, 1], vec![0, 2]]).unwrap();
    assert_eq!(calc_efficiency_bound(&single), Some(1));
}

#[test]
fn efficiency_bound_rounds_down_below_a_half() {
    let instance = Instance::new(4, vec![vec![0, 1], vec![0, 2], vec![0, 3]]).unwrap();
    assert_eq!(calc_efficiency_bound(&instance), Some(1));
    let twin = Instance::new(6, vec![vec![0, 1, 2], vec![0, 1, 3], vec![0, 4], vec![1, 5]]).unwrap();
    assert_eq!(calc_efficiency_bound(&twin), Some(1));
}

#[test]
fn efficiency_bound_is_undefined_at_a_dead_end() {
    let mut instance = Instance::new(3, vec![vec![0, 1], vec![2]]).unwrap();
    instance.delete_node(2);
    assert_eq!(calc_efficiency_bound(&instance), None);
}

#[test]
fn efficiency_bound_without_edges_is_zero() {
    let instance = Instance::new(3, vec![]).unwrap();
    assert_eq!(calc_efficiency_bound(&instance), Some(0));
}

#[test]
fn packing_takes_disjoint_edges_in_order() {
    let instance = path();
    let packing = PackingBound::new(&instance, &settings());
    assert_eq!(packing.bound(), 2);
    assert_eq!(packing.calc_sum_over_packing_bound(&instance), 2);
}

#[test]
fn packing_of_a_star_is_one_edge() {
    let instance = Instance::new(5, vec![vec![0, 1], vec![0, 2], vec![0, 3], vec![0, 4]]).unwrap();
    let packing = PackingBound::new(&instance, &settings());
    assert_eq!(packing.bound(), 1);
    assert_eq!(packing.calc_sum_over_packing_bound(&instance), 1);
}

#[test]
fn packing_of_a_matching_is_every_edge() {
    let instance = Instance::new(6, vec![vec![0, 1], vec![2, 3], vec![4, 5]]).unwrap();
    let packing = PackingBound::new(&instance, &settings());
    assert_eq!(packing.bound(), 3);
    assert_eq!(packing.calc_sum_over_packing_bound(&instance), 3);
}

#[test]
fn packing_skips_deleted_edges_and_nodes() {
    let mut instance = Instance::new(4, vec![vec![0, 1], vec![1, 2], vec![2, 3], vec![3, 0]]).unwrap();
    let packing = PackingBound::new(&instance, &settings());
    assert_eq!(packing.bound(), 2);
    instance.delete_node(1);
    instance.delete_node(3);
    let packing = PackingBound::new(&instance, &settings());
    assert_eq!(packing.bound(), 2);
    instance.restore_node(3);
    instance.delete_node(0);
    let packing = PackingBound::new(&instance, &settings());
    assert_eq!(packing.bound(), 3);
    instance.restore_node(0);
    instance.delete_incident_edges(1);
    let packing = PackingBound::new(&instance, &settings());
    assert_eq!(packing.bound(), 1);
}

#[test]
fn sum_over_packing_adds_what_the_packing_leaves() {
    let mut edges = vec![vec![0, 1]];
    for a in 2..6usize {
        for b in (a + 1)..6usize {
            edges.push(vec![a, b]);
        }
    }
    edges.push(vec![6, 7]);
    edges.push(vec![6, 8]);
    edges.push(vec![7, 8]);
    let instance = Instance::new(9, edges).unwrap();
    let packing = PackingBound::new(&instance, &settings());
    assert_eq!(packing.bound(), 4);
    assert_eq!(packing.calc_sum_over_packing_bound(&instance), 5);
    assert_eq!(calc_max_degree_bound(&instance), Some(4));
}
