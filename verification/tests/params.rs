use membership_emulator::params::{
    ConfigError, FaultMode, Params, ParamsBuilder, DEFAULT_NUMBER_OF_NODES,
    DEFAULT_TOTAL_RUNTIME, FAILURE_TIMESTEP, MAX_NODES, PROBABILITY_ONE,
};

fn params(number_of_nodes: u32, probability: u32) -> Params {
    let mut builder = ParamsBuilder::new();
    builder
        .with_number_of_nodes(number_of_nodes)
        .with_dropped_message_probability(probability);
    builder.build()
}

#[test]
fn constants_have_their_values() {
    assert_eq!(MAX_NODES, 256);
    assert_eq!(PROBABILITY_ONE, 1_000_000);
    assert_eq!(FAILURE_TIMESTEP, 100);
    assert_eq!(DEFAULT_NUMBER_OF_NODES, 10);
    assert_eq!(DEFAULT_TOTAL_RUNTIME, 700);
}

#[test]
fn new_builder_holds_nothing() {
    let builder = ParamsBuilder::new();
    assert_eq!(builder.number_of_nodes, None);
    assert_eq!(builder.insert_single_failure, None);
    assert_eq!(builder.total_runtime, None);
    assert_eq!(builder.insert_multiple_failures, None);
    assert_eq!(builder.drop_messages, None);
    assert_eq!(builder.dropped_message_probability, None);
}

#[test]
fn empty_builder_builds_the_defaults() {
    let params = ParamsBuilder::new().build();
    assert_eq!(params.number_of_nodes, 10);
    assert!(!params.insert_single_failure);
    assert_eq!(params.total_runtime, 700);
    assert!(!params.insert_multiple_failures);
    assert!(!params.drop_messages);
    assert_eq!(params.dropped_message_probability, 0);
}

#[test]
fn builder_keeps_what_it_was_given() {
    let mut builder = ParamsBuilder::new();
    builder
        .with_number_of_nodes(3)
        .with_insert_single_failure(true)
        .with_total_runtime(5)
        .with_insert_multiple_failures(true)
        .with_drop_messages(true)
        .with_dropped_message_probability(123);
    let params = builder.build();
    assert_eq!(params.number_of_nodes, 3);
    assert!(params.insert_single_failure);
    assert_eq!(params.total_runtime, 5);
    assert!(params.insert_multiple_failures);
    assert!(params.drop_messages);
    assert_eq!(params.dropped_message_probability, 123);
}

#[test]
fn later_value_replaces_the_earlier_one() {
    let mut builder = ParamsBuilder::new();
    builder.with_number_of_nodes(3).with_number_of_nodes(4);
    builder.with_insert_single_failure(true);
    builder.with_insert_single_failure(false);
    let params = builder.build();
    assert_eq!(params.number_of_nodes, 4);
    assert!(!params.insert_single_failure);
    assert_eq!(params.total_runtime, 700);
}

#[test]
fn build_can_be_repeated() {
    let mut builder = ParamsBuilder::new();
    builder.with_total_runtime(1);
    assert_eq!(builder.build().total_runtime, 1);
    builder.with_total_runtime(2);
    assert_eq!(builder.build().total_runtime, 2);
    assert_eq!(builder.build().total_runtime, 2);
}

#[test]
fn defaults_are_valid() {
    assert_eq!(ParamsBuilder::new().build().validate(), Ok(()));
}

#[test]
fn zero_nodes_are_refused() {
    assert_eq!(params(0, 0).validate(), Err(ConfigError::NoNodes));
}

#[test]
fn node_count_is_bounded_by_the_id_space() {
    assert_eq!(params(1, 0).validate(), Ok(()));
    assert_eq!(params(256, 0).validate(), Ok(()));
    assert_eq!(params(257, 0).validate(), Err(ConfigError::TooManyNodes));
    assert_eq!(params(u32::MAX, 0).validate(), Err(ConfigError::TooManyNodes));
}

#[test]
fn probability_above_one_is_refused() {
    assert_eq!(params(10, 1_000_000).validate(), Ok(()));
    assert_eq!(params(10, 1_000_001).validate(), Err(ConfigError::ProbabilityOutOfRange));
    assert_eq!(params(10, u32::MAX).validate(), Err(ConfigError::ProbabilityOutOfRange));
}

#[test]
fn probability_is_checked_even_without_drop_policy() {
    let mut builder = ParamsBuilder::new();
    builder
        .with_drop_messages(false)
        .with_dropped_message_probability(2_000_000);
    assert_eq!(builder.build().validate(), Err(ConfigError::ProbabilityOutOfRange));
}

#[test]
fn node_count_is_reported_before_probability() {
    assert_eq!(params(0, 2_000_000).validate(), Err(ConfigError::NoNodes));
    assert_eq!(params(300, 2_000_000).validate(), Err(ConfigError::TooManyNodes));
}

#[test]
fn any_runtime_is_valid() {
    let mut builder = ParamsBuilder::new();
    builder.with_total_runtime(0);
    assert_eq!(builder.build().validate(), Ok(()));
    builder.with_total_runtime(u32::MAX);
    assert_eq!(builder.build().validate(), Ok(()));
}

#[test]
fn fault_mode_follows_the_switches() {
    let mut builder = ParamsBuilder::new();
    assert_eq!(builder.build().fault_mode(), FaultMode::Off);
    builder.with_insert_multiple_failures(true);
    assert_eq!(builder.build().fault_mode(), FaultMode::Multiple);
    builder.with_insert_single_failure(true);
    assert_eq!(builder.build().fault_mode(), FaultMode::Single);
    builder.with_insert_multiple_failures(false);
    assert_eq!(builder.build().fault_mode(), FaultMode::Single);
}

#[test]
fn choice_bound_follows_the_fault_mode() {
    let mut builder = ParamsBuilder::new();
    builder.with_number_of_nodes(11);
    assert_eq!(builder.build().choice_bound(), 0);
    builder.with_insert_multiple_failures(true);
    assert_eq!(builder.build().choice_bound(), 5);
    builder.with_insert_single_failure(true);
    assert_eq!(builder.build().choice_bound(), 11);
    builder.with_insert_single_failure(false).with_number_of_nodes(1);
    assert_eq!(builder.build().choice_bound(), 0);
}
