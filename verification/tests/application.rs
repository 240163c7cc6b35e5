use membership_emulator::log::LogEvent;
use membership_emulator::node::Node;
use membership_emulator::params::{ConfigError, Params, ParamsBuilder};
use membership_emulator::schedule::RunError;
use membership_emulator::Application;

fn params(nodes: u32, single: bool, multiple: bool, runtime: u32) -> Params {
    let mut builder = ParamsBuilder::new();
    builder
        .with_number_of_nodes(nodes)
        .with_insert_single_failure(single)
        .with_insert_multiple_failures(multiple)
        .with_total_runtime(runtime);
    builder.build()
}

fn ids(nodes: &Vec<Node>) -> Vec<u8> {
    nodes.iter().map(|node| node.id).collect()
}

fn joins_at_zero(count: u8) -> Vec<(u32, LogEvent)> {
    (0..count)
        .map(|id| (0, LogEvent::Join { joined_id: id }))
        .collect()
}

fn own_failure(id: u8) -> (u32, LogEvent) {
    (100, LogEvent::Failure { failed_id: id, reporting_id: id })
}

#[test]
fn new_application_has_every_node_running() {
    let app = Application::new(params(10, false, false, 700)).unwrap();
    assert_eq!(ids(app.nodes()), vec![0, 1, 2, 3, 4, 5, 6, 7, 8, 9]);
    assert!(app.nodes().iter().all(|node| !node.joined));
    assert!(app.failed_nodes().is_empty());
    assert!(app.logger().entries().is_empty());
    assert_eq!(app.net().endpoint_count(), 10);
    for id in 0..10 {
        assert_eq!(app.net().pending(id), 0);
    }
}

#[test]
fn new_application_keeps_its_parameters() {
    let given = params(7, true, false, 3);
    let app = Application::new(given).unwrap();
    assert_eq!(app.params().number_of_nodes, 7);
    assert!(app.params().insert_single_failure);
    assert!(!app.params().insert_multiple_failures);
    assert_eq!(app.params().total_runtime, 3);
    assert_eq!(app.net().params().number_of_nodes, 7);
}

#[test]
fn application_without_nodes_is_refused() {
    assert_eq!(
        Application::new(params(0, false, false, 700)).err(),
        Some(ConfigError::NoNodes)
    );
}

#[test]
fn application_with_too_many_nodes_is_refused() {
    assert_eq!(
        Application::new(params(257, false, false, 700)).err(),
        Some(ConfigError::TooManyNodes)
    );
}

#[test]
fn application_with_probability_above_one_is_refused() {
    let mut builder = ParamsBuilder::new();
    builder
        .with_drop_messages(true)
        .with_dropped_message_probability(1_000_001);
    assert_eq!(
        Application::new(builder.build()).err(),
        Some(ConfigError::ProbabilityOutOfRange)
    );
}

#[test]
fn application_can_fill_the_id_space() {
    let mut app = Application::new(params(256, false, true, 101)).unwrap();
    assert_eq!(app.nodes().len(), 256);
    assert_eq!(app.nodes()[255].id, 255);
    assert_eq!(app.run_with_choice(127), Ok(()));
    assert_eq!(app.nodes().len(), 128);
    assert_eq!(ids(app.failed_nodes()), (127..=254).collect::<Vec<u8>>());
    assert_eq!(app.nodes()[127].id, 255);
}

#[test]
fn run_without_timesteps_does_nothing() {
    let mut app = Application::new(params(10, true, false, 0)).unwrap();
    app.run();
    assert_eq!(app.nodes().len(), 10);
    assert!(app.nodes().iter().all(|node| !node.joined));
    assert_eq!(app.logger().count_join_events(), 0);
    assert_eq!(app.logger().count_failure_events(), 0);
}

#[test]
fn every_node_joins_once_at_the_first_timestep() {
    let mut app = Application::new(params(10, false, false, 700)).unwrap();
    app.run();
    assert_eq!(app.logger().entries(), &joins_at_zero(10));
    assert!(app.nodes().iter().all(|node| node.joined));
    assert_eq!(ids(app.nodes()), vec![0, 1, 2, 3, 4, 5, 6, 7, 8, 9]);
}

#[test]
fn one_timestep_is_enough_for_the_joins() {
    let mut app = Application::new(params(4, false, false, 1)).unwrap();
    app.run();
    assert_eq!(app.logger().count_join_events(), 4);
    assert_eq!(
        app.take_unwritten(),
        b"0: Node 0 joined\r\n0: Node 1 joined\r\n0: Node 2 joined\r\n0: Node 3 joined\r\n".to_vec()
    );
}

#[test]
fn single_failure_moves_the_chosen_node() {
    let mut app = Application::new(params(10, true, false, 700)).unwrap();
    assert_eq!(app.run_with_choice(3), Ok(()));
    assert_eq!(ids(app.nodes()), vec![0, 1, 2, 4, 5, 6, 7, 8, 9]);
    assert_eq!(app.failed_nodes(), &vec![Node { id: 3, joined: true }]);
    let mut expected = joins_at_zero(10);
    expected.push(own_failure(3));
    assert_eq!(app.logger().entries(), &expected);
    assert_eq!(app.logger().count_join_events(), 10);
    assert_eq!(app.logger().count_failure_events(), 1);
}

#[test]
fn single_failure_can_hit_the_first_and_the_last_node() {
    let mut first = Application::new(params(10, true, false, 700)).unwrap();
    assert_eq!(first.run_with_choice(0), Ok(()));
    assert_eq!(ids(first.failed_nodes()), vec![0]);
    assert_eq!(ids(first.nodes()), vec![1, 2, 3, 4, 5, 6, 7, 8, 9]);
    let mut last = Application::new(params(10, true, false, 700)).unwrap();
    assert_eq!(last.run_with_choice(9), Ok(()));
    assert_eq!(ids(last.failed_nodes()), vec![9]);
    assert_eq!(ids(last.nodes()), vec![0, 1, 2, 3, 4, 5, 6, 7, 8]);
}

#[test]
fn single_failure_is_written_to_the_trace() {
    let mut app = Application::new(params(2, true, false, 101)).unwrap();
    assert_eq!(app.run_with_choice(1), Ok(()));
    assert_eq!(
        app.take_unwritten(),
        b"0: Node 0 joined\r\n0: Node 1 joined\r\n100: Node 1 marked node 1 as failed\r\n".to_vec()
    );
}

#[test]
fn single_failure_of_the_only_node() {
    let mut app = Application::new(params(1, true, false, 700)).unwrap();
    app.run();
    assert!(app.nodes().is_empty());
    assert_eq!(app.failed_nodes(), &vec![Node { id: 0, joined: true }]);
    assert_eq!(app.logger().entries(), &vec![(0, LogEvent::Join { joined_id: 0 }), own_failure(0)]);
}

#[test]
fn random_single_failure_hits_one_node_of_the_run() {
    for _ in 0..50 {
        let mut app = Application::new(params(10, true, false, 700)).unwrap();
        app.run();
        assert_eq!(app.failed_nodes().len(), 1);
        let failed = app.failed_nodes()[0].id;
        assert!(failed < 10);
        let expected: Vec<u8> = (0..10).filter(|id| *id != failed).collect();
        assert_eq!(ids(app.nodes()), expected);
        assert_eq!(app.logger().entries()[10], own_failure(failed));
        assert_eq!(app.logger().entries().len(), 11);
    }
}

#[test]
fn multiple_failures_move_a_block_of_half_the_nodes() {
    let mut app = Application::new(params(10, false, true, 700)).unwrap();
    assert_eq!(app.run_with_choice(2), Ok(()));
    assert_eq!(ids(app.nodes()), vec![0, 1, 7, 8, 9]);
    assert_eq!(ids(app.failed_nodes()), vec![2, 3, 4, 5, 6]);
    let mut expected = joins_at_zero(10);
    for id in 2..7 {
        expected.push(own_failure(id));
    }
    assert_eq!(app.logger().entries(), &expected);
    assert_eq!(app.logger().count_failure_events(), 5);
}

#[test]
fn multiple_failures_block_can_start_at_either_end_of_its_range() {
    let mut low = Application::new(params(10, false, true, 700)).unwrap();
    assert_eq!(low.run_with_choice(0), Ok(()));
    assert_eq!(ids(low.failed_nodes()), vec![0, 1, 2, 3, 4]);
    assert_eq!(ids(low.nodes()), vec![5, 6, 7, 8, 9]);
    let mut high = Application::new(params(10, false, true, 700)).unwrap();
    assert_eq!(high.run_with_choice(4), Ok(()));
    assert_eq!(ids(high.failed_nodes()), vec![4, 5, 6, 7, 8]);
    assert_eq!(ids(high.nodes()), vec![0, 1, 2, 3, 9]);
}

#[test]
fn multiple_failures_round_the_half_down() {
    let mut app = Application::new(params(7, false, true, 700)).unwrap();
    assert_eq!(app.run_with_choice(2), Ok(()));
    assert_eq!(ids(app.failed_nodes()), vec![2, 3, 4]);
    assert_eq!(ids(app.nodes()), vec![0, 1, 5, 6]);
}

#[test]
fn multiple_failures_of_a_single_node_run_fail_nothing() {
    let mut app = Application::new(params(1, false, true, 700)).unwrap();
    app.run();
    assert_eq!(ids(app.nodes()), vec![0]);
    assert!(app.failed_nodes().is_empty());
    assert_eq!(app.logger().count_failure_events(), 0);
    let mut chosen = Application::new(params(1, false, true, 700)).unwrap();
    assert_eq!(chosen.run_with_choice(1000), Ok(()));
    assert_eq!(ids(chosen.nodes()), vec![0]);
}

#[test]
fn random_multiple_failures_hit_a_block_within_the_run() {
    for _ in 0..50 {
        let mut app = Application::new(params(10, false, true, 700)).unwrap();
        app.run();
        let failed = ids(app.failed_nodes());
        assert_eq!(failed.len(), 5);
        let first = failed[0];
        assert!(first < 5);
        assert_eq!(failed, (first..first + 5).collect::<Vec<u8>>());
        let running: Vec<u8> = (0..10).filter(|id| !failed.contains(id)).collect();
        assert_eq!(ids(app.nodes()), running);
        assert_eq!(app.logger().count_failure_events(), 5);
    }
}

#[test]
fn single_failure_wins_over_multiple_failures() {
    let mut app = Application::new(params(10, true, true, 700)).unwrap();
    assert_eq!(app.run_with_choice(8), Ok(()));
    assert_eq!(ids(app.failed_nodes()), vec![8]);
    assert_eq!(app.logger().count_failure_events(), 1);
}

#[test]
fn failure_needs_a_run_beyond_its_timestep() {
    let mut short = Application::new(params(10, true, false, 100)).unwrap();
    short.run();
    assert_eq!(short.nodes().len(), 10);
    assert_eq!(short.logger().count_failure_events(), 0);
    let mut long = Application::new(params(10, true, false, 101)).unwrap();
    long.run();
    assert_eq!(long.nodes().len(), 9);
    assert_eq!(long.logger().count_failure_events(), 1);
}

#[test]
fn choice_is_ignored_without_failure() {
    let mut app = Application::new(params(10, false, false, 700)).unwrap();
    assert_eq!(app.run_with_choice(4_000_000_000), Ok(()));
    assert_eq!(app.nodes().len(), 10);
    let mut short = Application::new(params(10, true, false, 100)).unwrap();
    assert_eq!(short.run_with_choice(10), Ok(()));
    assert_eq!(short.nodes().len(), 10);
}

#[test]
fn choice_out_of_range_refuses_the_run() {
    let mut single = Application::new(params(10, true, false, 700)).unwrap();
    assert_eq!(single.run_with_choice(10), Err(RunError::ChoiceOutOfRange));
    assert_eq!(single.nodes().len(), 10);
    assert!(single.nodes().iter().all(|node| !node.joined));
    assert!(single.logger().entries().is_empty());
    let mut multiple = Application::new(params(10, false, true, 700)).unwrap();
    assert_eq!(multiple.run_with_choice(5), Err(RunError::ChoiceOutOfRange));
    assert!(multiple.logger().entries().is_empty());
    assert_eq!(multiple.run_with_choice(4), Ok(()));
    assert_eq!(multiple.failed_nodes().len(), 5);
}

#[test]
fn choice_out_of_range_refuses_the_timestep() {
    let mut app = Application::new(params(10, true, false, 700)).unwrap();
    assert_eq!(app.step_with_choice(0, 10), Ok(()));
    assert_eq!(app.logger().count_join_events(), 10);
    assert_eq!(app.step_with_choice(100, 10), Err(RunError::ChoiceOutOfRange));
    assert_eq!(app.nodes().len(), 10);
    assert_eq!(app.logger().entries().len(), 10);
    assert_eq!(app.step_with_choice(100, 9), Ok(()));
    assert_eq!(ids(app.failed_nodes()), vec![9]);
}

#[test]
fn timesteps_one_by_one_make_the_run() {
    let mut whole = Application::new(params(10, false, true, 150)).unwrap();
    assert_eq!(whole.run_with_choice(1), Ok(()));
    let mut stepped = Application::new(params(10, false, true, 150)).unwrap();
    let mut text = vec![];
    for timestep in 0..150 {
        assert_eq!(stepped.step_with_choice(timestep, 1), Ok(()));
        text.extend(stepped.take_unwritten());
    }
    assert_eq!(stepped.nodes(), whole.nodes());
    assert_eq!(stepped.failed_nodes(), whole.failed_nodes());
    assert_eq!(stepped.logger().entries(), whole.logger().entries());
    assert_eq!(text, whole.take_unwritten());
}

#[test]
fn random_timestep_reports_its_choice() {
    let mut app = Application::new(params(10, true, false, 700)).unwrap();
    assert_eq!(app.step(0), None);
    assert_eq!(app.step(99), None);
    let drawn = app.step(100).unwrap();
    assert!(drawn < 10);
    assert_eq!(ids(app.failed_nodes()), vec![drawn as u8]);
    assert_eq!(app.step(101), None);
    assert_eq!(app.step(100), None);
    assert_eq!(app.failed_nodes().len(), 1);
}

#[test]
fn failure_is_inserted_at_most_once() {
    let mut app = Application::new(params(10, true, false, 700)).unwrap();
    assert_eq!(app.run_with_choice(3), Ok(()));
    assert_eq!(app.step_with_choice(100, 4), Ok(()));
    assert_eq!(app.run_with_choice(5), Ok(()));
    app.run();
    assert_eq!(ids(app.failed_nodes()), vec![3]);
    assert_eq!(ids(app.nodes()), vec![0, 1, 2, 4, 5, 6, 7, 8, 9]);
    assert_eq!(app.logger().count_failure_events(), 1);
    assert_eq!(app.logger().count_join_events(), 10);
}

#[test]
fn failed_node_never_runs_again() {
    let mut app = Application::new(params(10, false, true, 101)).unwrap();
    assert_eq!(app.run_with_choice(2), Ok(()));
    let failed = app.failed_nodes().clone();
    for timestep in 101..400 {
        assert_eq!(app.step_with_choice(timestep, 0), Ok(()));
        assert_eq!(app.failed_nodes(), &failed);
        assert_eq!(ids(app.nodes()), vec![0, 1, 7, 8, 9]);
    }
    assert_eq!(app.logger().entries().len(), 15);
}

#[test]
fn runs_without_failure_and_drop_are_identical() {
    let mut one = Application::new(params(10, false, false, 700)).unwrap();
    let mut other = Application::new(params(10, false, false, 700)).unwrap();
    one.run();
    other.run();
    assert_eq!(one.nodes(), other.nodes());
    assert_eq!(one.failed_nodes(), other.failed_nodes());
    assert_eq!(one.logger().entries(), other.logger().entries());
    assert_eq!(one.take_unwritten(), other.take_unwritten());
    for id in 0..=255u8 {
        assert_eq!(one.net().pending(id), other.net().pending(id));
    }
}

#[test]
fn run_leaves_the_network_alone() {
    let mut app = Application::new(params(10, false, true, 700)).unwrap();
    app.run();
    assert_eq!(app.net().endpoint_count(), 10);
    for id in 0..10 {
        assert_eq!(app.net().pending(id), 0);
    }
}

#[test]
fn taking_the_trace_keeps_the_run() {
    let mut app = Application::new(params(3, true, false, 700)).unwrap();
    assert_eq!(app.run_with_choice(1), Ok(()));
    let text = app.take_unwritten();
    assert!(text.ends_with(b"100: Node 1 marked node 1 as failed\r\n"));
    assert!(app.take_unwritten().is_empty());
    assert_eq!(ids(app.nodes()), vec![0, 2]);
    assert_eq!(app.logger().entries().len(), 4);
}
