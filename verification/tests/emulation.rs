use membership_emulator::params::ParamsBuilder;
use membership_emulator::Application;

#[test]
fn test_no_failures() {
    let mut builder = ParamsBuilder::new();
    builder.with_number_of_nodes(10);
    let mut app = Application::new(builder.build()).unwrap();
    app.run();

    assert_eq!(app.nodes().len(), 10);
    assert_eq!(app.failed_nodes().len(), 0);
    // Each node logs an event for its own join
    assert_eq!(app.logger().count_join_events(), 10);
    assert_eq!(app.logger().count_failure_events(), 0);
}

#[test]
fn test_single_failure() {
    let mut builder = ParamsBuilder::new();
    builder
        .with_number_of_nodes(10)
        .with_insert_single_failure(true);
    let mut app = Application::new(builder.build()).unwrap();
    app.run();

    assert_eq!(app.nodes().len(), 9);
    assert_eq!(app.failed_nodes().len(), 1);
    assert_eq!(app.logger().count_join_events(), 10);
    // The emulation logs the failure for the failed node itself
    assert_eq!(app.logger().count_failure_events(), 1);
}

#[test]
fn test_single_failure_with_message_drop() {
    let mut builder = ParamsBuilder::new();
    builder
        .with_number_of_nodes(10)
        .with_insert_single_failure(true)
        .with_drop_messages(true)
        .with_dropped_message_probability(100_000);
    let mut app = Application::new(builder.build()).unwrap();
    app.run();

    assert_eq!(app.nodes().len(), 9);
    assert_eq!(app.failed_nodes().len(), 1);
    assert_eq!(app.logger().count_join_events(), 10);
    assert_eq!(app.logger().count_failure_events(), 1);
}

#[test]
fn test_multiple_failures() {
    let mut builder = ParamsBuilder::new();
    builder
        .with_number_of_nodes(10)
        .with_insert_multiple_failures(true);
    let mut app = Application::new(builder.build()).unwrap();
    app.run();

    assert_eq!(app.nodes().len(), 5);
    assert_eq!(app.failed_nodes().len(), 5);
    assert_eq!(app.logger().count_join_events(), 10);
    // Each failed node has its failure logged once, by the emulation
    assert_eq!(app.logger().count_failure_events(), 5);
}
