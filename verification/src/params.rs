//! Run parameters: how many nodes, how many timesteps, which failures to
//! insert, and whether the network may lose messages.

use vstd::prelude::*;

verus! {

/// Endpoint ids are single bytes, so a run can address at most this many nodes.
pub const MAX_NODES: u32 = 256;

/// The value of `dropped_message_probability` that stands for probability one.
/// The field counts in millionths.
pub const PROBABILITY_ONE: u32 = 1_000_000;

/// The timestep at which the configured failure is inserted, once the nodes
/// of that timestep have run. A run of no more timesteps than this inserts
/// none.
pub const FAILURE_TIMESTEP: u32 = 100;

/// Number of nodes of a builder that was given none.
pub const DEFAULT_NUMBER_OF_NODES: u32 = 10;

/// Number of timesteps of a builder that was given none.
pub const DEFAULT_TOTAL_RUNTIME: u32 = 700;

/// Which failure the emulation inserts at `FAILURE_TIMESTEP`.
#[derive(Debug, Clone, Copy, PartialEq, Eq, Structural)]
pub enum FaultMode {
    /// No node fails.
    Off,
    /// One node, chosen at random, fails.
    Single,
    /// A contiguous block of half of the nodes fails.
    Multiple,
}

/// Why a set of parameters cannot be run.
#[derive(Debug, Clone, Copy, PartialEq, Eq, Structural)]
pub enum ConfigError {
    /// `number_of_nodes` is zero.
    NoNodes,
    /// `number_of_nodes` is more than `MAX_NODES`.
    TooManyNodes,
    /// `dropped_message_probability` is more than `PROBABILITY_ONE`.
    ProbabilityOutOfRange,
}

/// The parameters of a run. They do not change while the run goes on.
#[derive(Debug, Clone, Copy)]
pub struct Params {
    pub number_of_nodes: u32,
    pub insert_single_failure: bool,
    /// Number of timesteps of a run.
    pub total_runtime: u32,
    pub insert_multiple_failures: bool,
    pub drop_messages: bool,
    /// Probability that a sent message is lost, in millionths: 100 000 for
    /// one message in ten. It is only looked at when `drop_messages` is set.
    pub dropped_message_probability: u32,
}

impl Params {
    /// The parameters that a run accepts.
    pub open spec fn valid(&self) -> bool {
        &&& 1 <= self.number_of_nodes <= MAX_NODES
        &&& self.dropped_message_probability <= PROBABILITY_ONE
    }

    /// The outcome of `validate`: the first complaint, in the order node
    /// count, then probability.
    pub open spec fn validated(&self) -> Result<(), ConfigError> {
        if self.number_of_nodes == 0 {
            Err(ConfigError::NoNodes)
        } else if self.number_of_nodes > MAX_NODES {
            Err(ConfigError::TooManyNodes)
        } else if self.dropped_message_probability > PROBABILITY_ONE {
            Err(ConfigError::ProbabilityOutOfRange)
        } else {
            Ok(())
        }
    }

    /// Checks the parameters before a run is built from them.
    pub fn validate(&self) -> (res: Result<(), ConfigError>)
        ensures
            res == self.validated(),
            res is Ok <==> self.valid(),
    {
        if self.number_of_nodes == 0 {
            Err(ConfigError::NoNodes)
        } else if self.number_of_nodes > MAX_NODES {
            Err(ConfigError::TooManyNodes)
        } else if self.dropped_message_probability > PROBABILITY_ONE {
            Err(ConfigError::ProbabilityOutOfRange)
        } else {
            Ok(())
        }
    }

    /// The failure mode that the two switches select. Where both are set, a
    /// single failure is inserted.
    pub open spec fn spec_fault_mode(&self) -> FaultMode {
        if self.insert_single_failure {
            FaultMode::Single
        } else if self.insert_multiple_failures {
            FaultMode::Multiple
        } else {
            FaultMode::Off
        }
    }

    #[verifier::when_used_as_spec(spec_fault_mode)]
    pub fn fault_mode(&self) -> (mode: FaultMode)
        ensures
            mode == self.spec_fault_mode(),
    {
        if self.insert_single_failure {
            FaultMode::Single
        } else if self.insert_multiple_failures {
            FaultMode::Multiple
        } else {
            FaultMode::Off
        }
    }

    /// The number of values among which the random choice of the failure is
    /// made: every node for a single failure, the first half of the nodes
    /// (where the failing block starts) for multiple failures.
    pub open spec fn spec_choice_bound(&self) -> u32 {
        match self.spec_fault_mode() {
            FaultMode::Off => 0,
            FaultMode::Single => self.number_of_nodes,
            FaultMode::Multiple => self.number_of_nodes / 2,
        }
    }

    #[verifier::when_used_as_spec(spec_choice_bound)]
    pub fn choice_bound(&self) -> (bound: u32)
        ensures
            bound == self.spec_choice_bound(),
    {
        match self.fault_mode() {
            FaultMode::Off => 0,
            FaultMode::Single => self.number_of_nodes,
            FaultMode::Multiple => self.number_of_nodes / 2,
        }
    }
}

/// Collects the parameters that differ from the defaults.
pub struct ParamsBuilder {
    pub number_of_nodes: Option<u32>,
    pub insert_single_failure: Option<bool>,
    pub total_runtime: Option<u32>,
    pub insert_multiple_failures: Option<bool>,
    pub drop_messages: Option<bool>,
    /// In millionths, as in `Params`.
    pub dropped_message_probability: Option<u32>,
}

impl ParamsBuilder {
    /// The parameters that `build` assembles: each value that was given, and
    /// the default for each that was not.
    pub open spec fn built(&self) -> Params {
        Params {
            number_of_nodes: match self.number_of_nodes {
                Some(n) => n,
                None => DEFAULT_NUMBER_OF_NODES,
            },
            insert_single_failure: match self.insert_single_failure {
                Some(fail) => fail,
                None => false,
            },
            total_runtime: match self.total_runtime {
                Some(runtime) => runtime,
                None => DEFAULT_TOTAL_RUNTIME,
            },
            insert_multiple_failures: match self.insert_multiple_failures {
                Some(fail) => fail,
                None => false,
            },
            drop_messages: match self.drop_messages {
                Some(drop_messages) => drop_messages,
                None => false,
            },
            dropped_message_probability: match self.dropped_message_probability {
                Some(probability) => probability,
                None => 0,
            },
        }
    }

    pub fn new() -> (builder: ParamsBuilder)
        ensures
            builder == (ParamsBuilder {
                number_of_nodes: None,
                insert_single_failure: None,
                total_runtime: None,
                insert_multiple_failures: None,
                drop_messages: None,
                dropped_message_probability: None,
            }),
    {
        ParamsBuilder {
            number_of_nodes: None,
            insert_single_failure: None,
            total_runtime: None,
            insert_multiple_failures: None,
            drop_messages: None,
            dropped_message_probability: None,
        }
    }

    pub fn build(&self) -> (params: Params)
        ensures
            params == self.built(),
    {
        Params {
            number_of_nodes: self.number_of_nodes.unwrap_or(DEFAULT_NUMBER_OF_NODES),
            insert_single_failure: self.insert_single_failure.unwrap_or(false),
            total_runtime: self.total_runtime.unwrap_or(DEFAULT_TOTAL_RUNTIME),
            insert_multiple_failures: self.insert_multiple_failures.unwrap_or(false),
            drop_messages: self.drop_messages.unwrap_or(false),
            dropped_message_probability: self.dropped_message_probability.unwrap_or(0),
        }
    }

    pub fn with_number_of_nodes(&mut self, n: u32) -> (ret: &mut ParamsBuilder)
        ensures
            *ret == (ParamsBuilder { number_of_nodes: Some(n), ..*old(self) }),
            *final(self) == *final(ret),
    {
        self.number_of_nodes = Some(n);
        self
    }

    pub fn with_insert_single_failure(&mut self, fail: bool) -> (ret: &mut ParamsBuilder)
        ensures
            *ret == (ParamsBuilder { insert_single_failure: Some(fail), ..*old(self) }),
            *final(self) == *final(ret),
    {
        self.insert_single_failure = Some(fail);
        self
    }

    pub fn with_total_runtime(&mut self, runtime: u32) -> (ret: &mut ParamsBuilder)
        ensures
            *ret == (ParamsBuilder { total_runtime: Some(runtime), ..*old(self) }),
            *final(self) == *final(ret),
    {
        self.total_runtime = Some(runtime);
        self
    }

    pub fn with_insert_multiple_failures(&mut self, fail: bool) -> (ret: &mut ParamsBuilder)
        ensures
            *ret == (ParamsBuilder { insert_multiple_failures: Some(fail), ..*old(self) }),
            *final(self) == *final(ret),
    {
        self.insert_multiple_failures = Some(fail);
        self
    }

    pub fn with_drop_messages(&mut self, drop_messages: bool) -> (ret: &mut ParamsBuilder)
        ensures
            *ret == (ParamsBuilder { drop_messages: Some(drop_messages), ..*old(self) }),
            *final(self) == *final(ret),
    {
        self.drop_messages = Some(drop_messages);
        self
    }

    /// Sets the probability that a sent message is lost, in millionths.
    pub fn with_dropped_message_probability(
        &mut self,
        dropped_message_probability: u32,
    ) -> (ret: &mut ParamsBuilder)
        ensures
            *ret == (ParamsBuilder {
                dropped_message_probability: Some(dropped_message_probability),
                ..*old(self)
            }),
            *final(self) == *final(ret),
    {
        self.dropped_message_probability = Some(dropped_message_probability);
        self
    }
}

} // verus!
