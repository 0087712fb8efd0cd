use bnb_rust::instance::{Instance, NodeIdx};
use bnb_rust::report::{ReductionStats, Report, RootBounds, RuntimeStats, Settings};
use bnb_rust::solve::{
    branch_on, calculate_root_bounds, get_initial_hitting_set, is_hitting_set, progress_note_due, search_at,
    select_branching_node, solve, solve_recursive, SolveError, State, Status,
};
use std::time::{Duration, Instant};

fn settings(initial: Option<Vec<NodeIdx>>, time_limit: u64, stop_at: usize) -> Settings {
    Settings { initial_hitting_set: initial, time_limit, stop_at, packing_from_scratch_limit: 3 }
}

fn path_instance() -> Instance {
    Instance::new(5, vec![vec![1, 2], vec![2, 3], vec![3, 4]]).unwrap()
}

fn hits_all(edges: &[Vec<NodeIdx>], hs: &[NodeIdx]) -> bool {
    edges.iter().all(|edge| edge.iter().any(|node| hs.contains(node)))
}

fn brute_force_minimum(num_nodes: usize, edges: &[Vec<NodeIdx>]) -> usize {
    let mut best = num_nodes;
    for mask in 0u32..(1u32 << num_nodes) {
        let chosen: Vec<NodeIdx> = (0..num_nodes).filter(|v| mask & (1 << v) != 0).collect();
        if chosen.len() < best && hits_all(edges, &chosen) {
            best = chosen.len();
        }
    }
    best
}

fn empty_report(settings: Settings) -> Report {
    Report {
        file_name: String::from("test"),
        opt: 0,
        branching_steps: 0,
        settings,
        root_bounds: RootBounds {
            max_degree: 0,
            sum_degree: 0,
            efficiency: 0,
            packing: 0,
            sum_over_packing: 0,
            greedy_upper: 0,
        },
        runtimes: RuntimeStats::default(),
        reductions: ReductionStats::new(3),
        upper_bound_improvements: Vec::new(),
    }
}

fn long_ago() -> Instant {
    let now = Instant::now();
    now.checked_sub(Duration::from_secs(3600)).unwrap_or(now)
}

#[test]
fn path_has_minimum_hitting_set_of_two() {
    let edges = vec![vec![1, 2], vec![2, 3], vec![3, 4]];
    let (hs, report) = solve(path_instance(), String::from("path"), settings(None, 0, 0)).unwrap();
    assert_eq!(hs.len(), 2);
    assert!(hits_all(&edges, &hs));
    assert_eq!(report.opt, 2);
    assert_eq!(report.file_name, "path");
    assert_eq!(report.settings.stop_at, 0);
    assert!(report.runtimes.total.is_some());
    assert_eq!(report.reductions.packing_from_scratch_limit, 3);
}

#[test]
fn path_search_is_deterministic() {
    let (hs, report) = solve(path_instance(), String::from("path"), settings(None, 0, 0)).unwrap();
    assert_eq!(hs, vec![2, 3]);
    assert_eq!(report.branching_steps, 2);
    assert_eq!(report.upper_bound_improvements.len(), 1);
    assert_eq!(report.upper_bound_improvements[0].new_bound, 2);
    assert_eq!(report.upper_bound_improvements[0].branching_steps, 2);
}

#[test]
fn stop_at_three_ends_at_first_solution() {
    let edges = vec![vec![1, 2], vec![2, 3], vec![3, 4]];
    let (hs, report) = solve(path_instance(), String::from("path"), settings(None, 0, 3)).unwrap();
    assert!(hs.len() <= 3);
    assert!(hits_all(&edges, &hs));
    assert_eq!(report.upper_bound_improvements.len(), 1);
    let found = &report.upper_bound_improvements[0];
    assert_eq!(found.new_bound, hs.len());
    assert_eq!(found.branching_steps, report.branching_steps);
    let (_, exhaustive) = solve(path_instance(), String::from("path"), settings(None, 0, 0)).unwrap();
    assert!(report.branching_steps <= exhaustive.branching_steps);
}

#[test]
fn early_stop_saves_branching_steps() {
    let edges = vec![vec![0, 1], vec![0, 2], vec![0, 3], vec![1, 4], vec![2, 5], vec![3, 6]];
    let early = solve(Instance::new(7, edges.clone()).unwrap(), String::from("spider"), settings(None, 0, 4));
    let full = solve(Instance::new(7, edges.clone()).unwrap(), String::from("spider"), settings(None, 0, 0));
    let (early_hs, early_report) = early.unwrap();
    let (full_hs, full_report) = full.unwrap();
    assert_eq!(early_hs, vec![0, 1, 2, 3]);
    assert_eq!(early_report.branching_steps, 4);
    assert_eq!(early_report.upper_bound_improvements.len(), 1);
    assert_eq!(full_hs.len(), 3);
    assert!(hits_all(&edges, &full_hs));
    assert!(early_report.branching_steps < full_report.branching_steps);
    assert_eq!(full_report.upper_bound_improvements.len(), 2);
    assert_eq!(full_report.upper_bound_improvements[0].new_bound, 4);
    assert_eq!(full_report.upper_bound_improvements[1].new_bound, 3);
}

#[test]
fn initial_set_within_target_ends_without_branching() {
    let initial = vec![1, 2, 3];
    let (hs, report) =
        solve(path_instance(), String::from("path"), settings(Some(initial.clone()), 0, 3)).unwrap();
    assert_eq!(hs, initial);
    assert_eq!(report.branching_steps, 0);
    assert!(report.upper_bound_improvements.is_empty());
    assert_eq!(report.opt, 3);
}

#[test]
fn initial_set_that_misses_an_edge_is_rejected() {
    let outcome = solve(path_instance(), String::from("path"), settings(Some(vec![2]), 0, 0));
    assert_eq!(outcome.err(), Some(SolveError::InvalidInitialHittingSet));
}

#[test]
fn initial_set_with_unknown_node_is_rejected() {
    let outcome = solve(path_instance(), String::from("path"), settings(Some(vec![2, 7, 9, 3]), 0, 0));
    assert_eq!(outcome.err(), Some(SolveError::NodeOutOfBounds { node: 7 }));
}

#[test]
fn unknown_node_is_reported_before_a_missed_edge() {
    let outcome = solve(path_instance(), String::from("path"), settings(Some(vec![5]), 0, 0));
    assert_eq!(outcome.err(), Some(SolveError::NodeOutOfBounds { node: 5 }));
}

#[test]
fn valid_initial_set_is_improved() {
    let (hs, report) =
        solve(path_instance(), String::from("path"), settings(Some(vec![1, 2, 3, 4]), 0, 0)).unwrap();
    assert_eq!(hs.len(), 2);
    assert!(report.upper_bound_improvements[0].new_bound < 4);
}

#[test]
fn optimal_initial_set_is_kept() {
    let (hs, report) = solve(path_instance(), String::from("path"), settings(Some(vec![2, 4]), 0, 0)).unwrap();
    assert_eq!(hs, vec![2, 4]);
    assert!(report.upper_bound_improvements.is_empty());
}

#[test]
fn instance_without_edges_needs_no_node() {
    let instance = Instance::new(3, vec![]).unwrap();
    let (hs, report) = solve(instance, String::from("empty"), settings(None, 0, 0)).unwrap();
    assert!(hs.is_empty());
    assert_eq!(report.opt, 0);
    assert_eq!(report.branching_steps, 0);
}

#[test]
fn instance_without_nodes_is_solved() {
    let instance = Instance::new(0, vec![]).unwrap();
    let (hs, _) = solve(instance, String::from("nothing"), settings(None, 0, 0)).unwrap();
    assert!(hs.is_empty());
}

#[test]
fn solve_matches_brute_force() {
    let cases: Vec<(usize, Vec<Vec<NodeIdx>>)> = vec![
        (4, vec![vec![0, 1], vec![1, 2], vec![2, 3], vec![3, 0]]),
        (5, vec![vec![0, 1], vec![0, 2], vec![0, 3], vec![0, 4]]),
        (6, vec![vec![0, 1, 2], vec![2, 3, 4], vec![4, 5, 0], vec![1, 3, 5]]),
        (6, vec![vec![0, 1], vec![2, 3], vec![4, 5]]),
        (7, vec![vec![0, 1], vec![1, 2], vec![2, 0], vec![3, 4], vec![4, 5], vec![5, 3], vec![6, 0]]),
        (
            7,
            vec![
                vec![0, 1, 2],
                vec![0, 3, 4],
                vec![0, 5, 6],
                vec![1, 3, 5],
                vec![1, 4, 6],
                vec![2, 3, 6],
                vec![2, 4, 5],
            ],
        ),
        (
            8,
            vec![
                vec![0, 1],
                vec![0, 2],
                vec![1, 2],
                vec![2, 3],
                vec![3, 4],
                vec![4, 5],
                vec![5, 6],
                vec![6, 7],
                vec![7, 3],
                vec![1, 5],
            ],
        ),
        (5, vec![vec![0], vec![0, 1], vec![1, 2, 3], vec![3, 3, 4], vec![4]]),
    ];
    for (num_nodes, edges) in cases {
        let instance = Instance::new(num_nodes, edges.clone()).unwrap();
        let (hs, report) = solve(instance, String::from("case"), settings(None, 0, 0)).unwrap();
        assert!(hits_all(&edges, &hs));
        assert_eq!(hs.len(), brute_force_minimum(num_nodes, &edges));
        assert_eq!(report.opt, hs.len());
        assert!(hs.iter().all(|&node| node < num_nodes));
    }
}

#[test]
fn fano_plane_needs_three_nodes() {
    let edges = vec![
        vec![0, 1, 2],
        vec![0, 3, 4],
        vec![0, 5, 6],
        vec![1, 3, 5],
        vec![1, 4, 6],
        vec![2, 3, 6],
        vec![2, 4, 5],
    ];
    let instance = Instance::new(7, edges.clone()).unwrap();
    let (hs, _) = solve(instance, String::from("fano"), settings(None, 0, 0)).unwrap();
    assert_eq!(hs.len(), 3);
    assert!(hits_all(&edges, &hs));
}

#[test]
fn improvements_are_recorded_in_order() {
    let mut edges: Vec<Vec<NodeIdx>> = Vec::new();
    for a in 0..8usize {
        for b in (a + 1)..8usize {
            if (a + 2 * b) % 3 != 0 {
                edges.push(vec![a, b]);
            }
        }
    }
    let instance = Instance::new(8, edges.clone()).unwrap();
    let (hs, report) = solve(instance, String::from("dense"), settings(None, 0, 0)).unwrap();
    assert!(hits_all(&edges, &hs));
    assert_eq!(hs.len(), brute_force_minimum(8, &edges));
    let history = &report.upper_bound_improvements;
    assert!(!history.is_empty());
    assert!(history[0].new_bound < 8);
    assert_eq!(history[history.len() - 1].new_bound, hs.len());
    for pair in history.windows(2) {
        assert!(pair[1].new_bound < pair[0].new_bound);
        assert!(pair[0].branching_steps <= pair[1].branching_steps);
        assert!(pair[0].runtime <= pair[1].runtime);
    }
    for found in history.iter() {
        assert!(found.branching_steps <= report.branching_steps);
    }
}

#[test]
fn early_stop_leaves_larger_entries_before_the_last() {
    let mut edges: Vec<Vec<NodeIdx>> = Vec::new();
    for a in 0..8usize {
        for b in (a + 1)..8usize {
            edges.push(vec![a, b]);
        }
    }
    let instance = Instance::new(8, edges.clone()).unwrap();
    let (hs, report) = solve(instance, String::from("clique"), settings(None, 0, 7)).unwrap();
    assert_eq!(hs.len(), 7);
    assert!(hits_all(&edges, &hs));
    let history = &report.upper_bound_improvements;
    assert_eq!(history.len(), 1);
    assert_eq!(history[0].branching_steps, report.branching_steps);
}

#[test]
fn search_restores_the_instance() {
    let mut instance = path_instance();
    let mut state = State {
        partial_hs: Vec::new(),
        minimum_hs: vec![0, 1, 2, 3, 4],
        solve_start_time: Instant::now(),
        last_log_time: Instant::now(),
    };
    let mut report = empty_report(settings(None, 0, 0));
    let status = solve_recursive(&mut instance, &mut state, &mut report);
    assert_eq!(status, Status::Continue);
    assert_eq!(state.minimum_hs.len(), 2);
    assert!(state.partial_hs.is_empty());
    assert_eq!(instance.nodes().len(), instance.num_nodes_total());
    assert_eq!(instance.edges().len(), instance.num_edges_total());
    assert_eq!(instance.nodes(), vec![0, 1, 2, 3, 4]);
    assert_eq!(instance.edges(), vec![0, 1, 2]);
}

#[test]
fn search_restores_the_instance_on_early_stop() {
    let mut instance = path_instance();
    let mut state = State {
        partial_hs: Vec::new(),
        minimum_hs: vec![0, 1, 2, 3, 4],
        solve_start_time: Instant::now(),
        last_log_time: Instant::now(),
    };
    let mut report = empty_report(settings(None, 0, 3));
    let status = solve_recursive(&mut instance, &mut state, &mut report);
    assert_eq!(status, Status::Stop);
    assert!(state.partial_hs.is_empty());
    assert_eq!(instance.nodes().len(), instance.num_nodes_total());
    assert_eq!(instance.edges().len(), instance.num_edges_total());
}

#[test]
fn exceeded_time_limit_stops_at_once() {
    let mut instance = path_instance();
    let start = long_ago();
    let mut state = State {
        partial_hs: Vec::new(),
        minimum_hs: vec![0, 1, 2, 3, 4],
        solve_start_time: start,
        last_log_time: start,
    };
    let mut report = empty_report(settings(None, 1, 0));
    if start.elapsed().as_secs() > 1 {
        let status = solve_recursive(&mut instance, &mut state, &mut report);
        assert_eq!(status, Status::Stop);
        assert_eq!(state.minimum_hs, vec![0, 1, 2, 3, 4]);
        assert_eq!(report.branching_steps, 0);
        assert!(report.upper_bound_improvements.is_empty());
        assert!(is_hitting_set(&state.minimum_hs, &instance));
        assert_eq!(instance.nodes().len(), 5);
        assert_eq!(instance.edges().len(), 3);
    }
}

#[test]
fn search_over_the_time_limit_changes_nothing() {
    let mut instance = path_instance();
    let mut state = State {
        partial_hs: Vec::new(),
        minimum_hs: vec![0, 1, 2, 3, 4],
        solve_start_time: Instant::now(),
        last_log_time: Instant::now(),
    };
    let mut report = empty_report(settings(None, 5, 0));
    let status = search_at(6, &mut instance, &mut state, &mut report);
    assert_eq!(status, Status::Stop);
    assert_eq!(state.minimum_hs, vec![0, 1, 2, 3, 4]);
    assert!(state.partial_hs.is_empty());
    assert_eq!(report.branching_steps, 0);
    assert!(report.upper_bound_improvements.is_empty());
    assert_eq!(instance.nodes(), vec![0, 1, 2, 3, 4]);
    assert_eq!(instance.edges(), vec![0, 1, 2]);
}

#[test]
fn search_at_the_time_limit_goes_on() {
    let mut instance = path_instance();
    let mut state = State {
        partial_hs: Vec::new(),
        minimum_hs: vec![0, 1, 2, 3, 4],
        solve_start_time: Instant::now(),
        last_log_time: Instant::now(),
    };
    let mut report = empty_report(settings(None, 5, 0));
    let status = search_at(5, &mut instance, &mut state, &mut report);
    assert_eq!(status, Status::Continue);
    assert_eq!(state.minimum_hs, vec![2, 3]);
    assert_eq!(report.branching_steps, 2);
    assert_eq!(instance.nodes(), vec![0, 1, 2, 3, 4]);
    assert_eq!(instance.edges(), vec![0, 1, 2]);
}

#[test]
fn search_without_time_limit_ignores_the_time() {
    let mut instance = path_instance();
    let mut state = State {
        partial_hs: Vec::new(),
        minimum_hs: vec![0, 1, 2, 3, 4],
        solve_start_time: Instant::now(),
        last_log_time: Instant::now(),
    };
    let mut report = empty_report(settings(None, 0, 0));
    let status = search_at(u64::MAX, &mut instance, &mut state, &mut report);
    assert_eq!(status, Status::Continue);
    assert_eq!(state.minimum_hs.len(), 2);
}

#[test]
fn unlimited_time_never_stops_for_time() {
    let mut instance = path_instance();
    let start = long_ago();
    let mut state = State {
        partial_hs: Vec::new(),
        minimum_hs: vec![0, 1, 2, 3, 4],
        solve_start_time: start,
        last_log_time: start,
    };
    let mut report = empty_report(settings(None, 0, 0));
    let status = solve_recursive(&mut instance, &mut state, &mut report);
    assert_eq!(status, Status::Continue);
    assert_eq!(state.minimum_hs.len(), 2);
}

#[test]
fn generous_time_limit_still_finds_the_minimum() {
    let (hs, _) = solve(path_instance(), String::from("path"), settings(None, 3600, 0)).unwrap();
    assert_eq!(hs.len(), 2);
}

#[test]
fn state_clone_keeps_the_clock_readings() {
    let state = State {
        partial_hs: vec![1],
        minimum_hs: vec![2, 3],
        solve_start_time: long_ago(),
        last_log_time: Instant::now(),
    };
    let copy = state.clone();
    assert_eq!(copy.solve_start_time, state.solve_start_time);
    assert_eq!(copy.last_log_time, state.last_log_time);
    assert_eq!(copy.partial_hs, vec![1]);
    assert_eq!(copy.minimum_hs, vec![2, 3]);
}

#[test]
fn branch_on_explores_both_ways() {
    let mut instance = path_instance();
    let mut state = State {
        partial_hs: Vec::new(),
        minimum_hs: vec![0, 1, 2, 3, 4],
        solve_start_time: Instant::now(),
        last_log_time: Instant::now(),
    };
    let mut report = empty_report(settings(None, 0, 0));
    let status = branch_on(2, &mut instance, &mut state, &mut report);
    assert_eq!(status, Status::Continue);
    assert_eq!(state.minimum_hs.len(), 2);
    assert!(state.partial_hs.is_empty());
    assert!(report.branching_steps >= 1);
    assert_eq!(instance.nodes(), vec![0, 1, 2, 3, 4]);
    assert_eq!(instance.edges(), vec![0, 1, 2]);
}

#[test]
fn branch_on_stops_after_the_first_way() {
    let mut instance = Instance::new(2, vec![vec![0, 1]]).unwrap();
    let mut state = State {
        partial_hs: Vec::new(),
        minimum_hs: vec![0, 1],
        solve_start_time: Instant::now(),
        last_log_time: Instant::now(),
    };
    let mut report = empty_report(settings(None, 0, 1));
    let status = branch_on(1, &mut instance, &mut state, &mut report);
    assert_eq!(status, Status::Stop);
    assert_eq!(state.minimum_hs, vec![1]);
    assert_eq!(report.branching_steps, 1);
    assert_eq!(instance.nodes(), vec![0, 1]);
}

#[test]
fn branching_steps_stay_at_the_maximum() {
    let mut instance = Instance::new(2, vec![vec![0, 1]]).unwrap();
    let mut state = State {
        partial_hs: Vec::new(),
        minimum_hs: vec![0, 1],
        solve_start_time: Instant::now(),
        last_log_time: Instant::now(),
    };
    let mut report = empty_report(settings(None, 0, 0));
    report.branching_steps = usize::MAX;
    branch_on(0, &mut instance, &mut state, &mut report);
    assert_eq!(report.branching_steps, usize::MAX);
}

#[test]
fn branching_node_has_the_greatest_degree() {
    let instance = Instance::new(5, vec![vec![0, 3], vec![1, 3], vec![2, 3], vec![2, 4]]).unwrap();
    assert_eq!(select_branching_node(&instance), 3);
}

#[test]
fn branching_node_ties_go_to_the_lowest_index() {
    assert_eq!(select_branching_node(&path_instance()), 2);
    let instance = Instance::new(3, vec![]).unwrap();
    assert_eq!(select_branching_node(&instance), 0);
}

#[test]
fn branching_node_is_live() {
    let mut instance = path_instance();
    instance.delete_node(2);
    assert_eq!(select_branching_node(&instance), 3);
}

#[test]
fn is_hitting_set_checks_every_live_edge() {
    let instance = path_instance();
    assert!(is_hitting_set(&[2, 3], &instance));
    assert!(is_hitting_set(&[2, 4], &instance));
    assert!(is_hitting_set(&[1, 3], &instance));
    assert!(!is_hitting_set(&[2], &instance));
    assert!(!is_hitting_set(&[1, 4], &instance));
    assert!(!is_hitting_set(&[], &instance));
    assert!(is_hitting_set(&[2, 3, 3, 9], &instance));
}

#[test]
fn is_hitting_set_ignores_deleted_edges() {
    let mut instance = path_instance();
    instance.delete_node(3);
    instance.delete_incident_edges(3);
    assert!(is_hitting_set(&[1], &instance));
    assert!(!is_hitting_set(&[4], &instance));
}

#[test]
fn is_hitting_set_of_no_edges() {
    let instance = Instance::new(2, vec![]).unwrap();
    assert!(is_hitting_set(&[], &instance));
}

#[test]
fn initial_hitting_set_defaults_to_all_nodes() {
    let instance = path_instance();
    let initial = get_initial_hitting_set(&instance, &settings(None, 0, 0));
    assert_eq!(initial, Ok(vec![0, 1, 2, 3, 4]));
}

#[test]
fn initial_hitting_set_is_taken_from_settings() {
    let instance = path_instance();
    let initial = get_initial_hitting_set(&instance, &settings(Some(vec![3, 2, 2]), 0, 0));
    assert_eq!(initial, Ok(vec![3, 2, 2]));
}

#[test]
fn initial_hitting_set_is_validated() {
    let instance = path_instance();
    assert_eq!(
        get_initial_hitting_set(&instance, &settings(Some(vec![1, 4]), 0, 0)),
        Err(SolveError::InvalidInitialHittingSet)
    );
    assert_eq!(
        get_initial_hitting_set(&instance, &settings(Some(vec![2, 3, 5]), 0, 0)),
        Err(SolveError::NodeOutOfBounds { node: 5 })
    );
    assert_eq!(
        get_initial_hitting_set(&instance, &settings(Some(vec![8, 6]), 0, 0)),
        Err(SolveError::NodeOutOfBounds { node: 8 })
    );
}

#[test]
fn progress_is_noted_every_minute() {
    assert!(!progress_note_due(0));
    assert!(!progress_note_due(59));
    assert!(progress_note_due(60));
    assert!(progress_note_due(61));
}

#[test]
fn root_bounds_of_the_path() {
    let instance = path_instance();
    let bounds = calculate_root_bounds(&instance, &settings(None, 0, 0));
    assert_eq!(
        bounds,
        RootBounds {
            max_degree: 2,
            sum_degree: 2,
            efficiency: 2,
            packing: 2,
            sum_over_packing: 2,
            greedy_upper: 2,
        }
    );
}

#[test]
fn root_bounds_frame_the_minimum() {
    let edges = vec![
        vec![0, 1, 2],
        vec![0, 3, 4],
        vec![0, 5, 6],
        vec![1, 3, 5],
        vec![1, 4, 6],
        vec![2, 3, 6],
        vec![2, 4, 5],
    ];
    let instance = Instance::new(7, edges.clone()).unwrap();
    let (hs, report) = solve(instance, String::from("fano"), settings(None, 0, 0)).unwrap();
    let bounds = report.root_bounds;
    assert!(bounds.max_degree <= hs.len());
    assert!(bounds.sum_degree <= hs.len());
    assert!(bounds.efficiency <= hs.len());
    assert!(bounds.packing <= hs.len());
    assert!(bounds.sum_over_packing <= hs.len());
    assert!(bounds.greedy_upper >= hs.len());
    assert_eq!(bounds.max_degree, 3);
    assert_eq!(bounds.packing, 1);
}
