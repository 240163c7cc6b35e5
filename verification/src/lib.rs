//! A single-process testbed that runs a group of nodes over an emulated,
//! unreliable network in discrete timesteps, inserts failures at a fixed
//! timestep and records joins and failures in an event log.

use crate::emulnet::EmulNet;
use crate::log::Logger;
use crate::node::Node;
use crate::params::{ConfigError, FaultMode, Params, FAILURE_TIMESTEP};
use crate::random::random_below;
use crate::schedule::{
    ascending, block_failed, choice_fits, failure_due, fresh, holds, lemma_block_failed,
    lemma_fresh_wf, lemma_nodes_run, lemma_nodes_run_wf, lemma_running_before_failure,
    lemma_stepped_frame, lemma_stepped_wf, node_failed, nodes_run, position, ran, stepped,
    RunError, RunState,
};
use vstd::prelude::*;

pub mod accounting;
pub mod emulnet;
pub mod log;
pub mod node;
pub mod params;
mod random;
pub mod schedule;
pub mod trace;

verus! {

/// A run of the emulation: its parameters, its network, its nodes, running
/// or failed, and its event log.
pub struct Application {
    params: Params,
    net: EmulNet,
    nodes: Vec<Node>,
    failed_nodes: Vec<Node>,
    logger: Logger,
    failure_inserted: bool,
}

impl View for Application {
    type V = RunState;

    closed spec fn view(&self) -> RunState {
        RunState {
            nodes: self.nodes@,
            failed_nodes: self.failed_nodes@,
            log: self.logger@,
            queues: self.net@,
            failure_inserted: self.failure_inserted,
        }
    }
}

impl Application {
    /// The parameters of the run.
    pub closed spec fn spec_params(&self) -> Params {
        self.params
    }

    /// Whether the network was created with the parameters of the run.
    pub closed spec fn net_agrees(&self) -> bool {
        self.net.params() == self.params
    }

    /// What holds of an application at every moment.
    pub open spec fn wf(&self) -> bool {
        &&& self@.wf(self.params())
        &&& self.net_agrees()
    }

    /// Sets up a run for `params`: a network with one endpoint per node, the
    /// nodes, all of them running, and an empty log. Parameters that cannot
    /// be run are refused.
    pub fn new(params: Params) -> (res: Result<Application, ConfigError>)
        ensures
            match res {
                Ok(app) => {
                    &&& params.valid()
                    &&& app.params() == params
                    &&& app@ == fresh(params)
                    &&& app.wf()
                },
                Err(error) => params.validated() == Err::<(), ConfigError>(error),
            },
    {
        match params.validate() {
            Err(error) => {
                return Err(error);
            },
            Ok(()) => {},
        }
        let mut net = EmulNet::new(params);
        let mut nodes: Vec<Node> = Vec::new();
        let mut count: u32 = 0;
        while count < params.number_of_nodes
            invariant
                params.valid(),
                count <= params.number_of_nodes,
                net.params() == params,
                net@ == Seq::new(count as nat, |id: int| Seq::<(u8, Seq<u8>)>::empty()),
                nodes@ == Seq::new(count as nat, |id: int| Node { id: id as u8, joined: false }),
            decreases params.number_of_nodes - count,
        {
            nodes.push(Node::new(net.initialize_new_endpoint()));
            count += 1;
            assert(net@ =~= Seq::new(count as nat, |id: int| Seq::<(u8, Seq<u8>)>::empty()));
            assert(nodes@ =~= Seq::new(
                count as nat,
                |id: int| Node { id: id as u8, joined: false },
            ));
        }
        let app = Application {
            params,
            net,
            nodes,
            failed_nodes: Vec::new(),
            logger: Logger::new(),
            failure_inserted: false,
        };
        proof {
            assert(app@ =~= fresh(params));
            lemma_fresh_wf(params);
        }
        Ok(app)
    }

    /// The parameters of the run.
    #[verifier::when_used_as_spec(spec_params)]
    pub fn params(&self) -> (params: Params)
        ensures
            params == self.spec_params(),
    {
        self.params
    }

    /// The running nodes, in ascending order of id.
    pub fn nodes(&self) -> (nodes: &Vec<Node>)
        ensures
            nodes@ == self@.nodes,
    {
        &self.nodes
    }

    /// The failed nodes, in the order in which they failed.
    pub fn failed_nodes(&self) -> (nodes: &Vec<Node>)
        ensures
            nodes@ == self@.failed_nodes,
    {
        &self.failed_nodes
    }

    /// The event log of the run.
    pub fn logger(&self) -> (logger: &Logger)
        ensures
            logger@ == self@.log,
    {
        &self.logger
    }

    /// The network of the run.
    pub fn net(&self) -> (net: &EmulNet)
        ensures
            net@ == self@.queues,
            self.wf() ==> net.params() == self.params(),
    {
        &self.net
    }

    /// Hands out the trace text of the events recorded since the last call,
    /// for whoever writes the trace out while the run goes on.
    pub fn take_unwritten(&mut self) -> (text: Vec<u8>)
        ensures
            text@ == old(self)@.log.unwritten,
            final(self)@ == (RunState {
                log: crate::log::LogView {
                    events: old(self)@.log.events,
                    unwritten: Seq::empty(),
                },
                ..old(self)@
            }),
            final(self).params() == old(self).params(),
            old(self).wf() ==> final(self).wf(),
    {
        let text = self.logger.take_unwritten();
        proof {
            if old(self).wf() {
                assert forall|id: u8| #[trigger] self@.placed_once(self.params, id) by {
                    assert(old(self)@.placed_once(self.params, id));
                }
            }
        }
        text
    }

    /// Lets every running node run once, in ascending order of id.
    fn run_nodes(&mut self, timestep: u32)
        ensures
            final(self)@ == nodes_run(old(self)@, timestep, old(self)@.nodes.len()),
            final(self).params == old(self).params,
            final(self).net.params() == old(self).net.params(),
    {
        let mut at: usize = 0;
        while at < self.nodes.len()
            invariant
                at <= self.nodes@.len(),
                self.nodes@.len() == old(self).nodes@.len(),
                self@ == nodes_run(old(self)@, timestep, at as nat),
                self.params == old(self).params,
                self.net.params() == old(self).net.params(),
            decreases self.nodes@.len() - at,
        {
            self.nodes[at].run(timestep, &mut self.logger, &mut self.net);
            at += 1;
        }
    }

    /// Moves the running node with the id `id` to the failed nodes and logs
    /// the failure on the node's own behalf.
    fn fail_node(&mut self, timestep: u32, id: u8)
        requires
            ascending(old(self)@.nodes),
            holds(old(self)@.nodes, id),
        ensures
            final(self)@ == node_failed(old(self)@, timestep, id),
            final(self).params == old(self).params,
            final(self).net.params() == old(self).net.params(),
    {
        let mut at: usize = 0;
        while at < self.nodes.len() && self.nodes[at].id != id
            invariant
                at <= self.nodes@.len(),
                self.nodes@ == old(self).nodes@,
                forall|before: int| 0 <= before < at ==> (#[trigger] self.nodes@[before]).id != id,
            decreases self.nodes@.len() - at,
        {
            at += 1;
        }
        proof {
            let found = position(self.nodes@, id);
            assert(0 <= found < self.nodes@.len() && self.nodes@[found].id == id);
            assert(found == at) by {
                if found < at {
                    assert(self.nodes@[found].id != id);
                } else if at < found {
                    assert(self.nodes@[at as int].id < self.nodes@[found].id);
                }
            }
        }
        let node = self.nodes.remove(at);
        self.failed_nodes.push(node);
        self.logger.log_failure_event(timestep, id, id);
    }

    /// Inserts the configured failure, with `choice` for the random choice.
    fn insert_failure(&mut self, timestep: u32, choice: u32)
        requires
            old(self).wf(),
            !old(self)@.failure_inserted,
            choice_fits(old(self).params(), choice),
        ensures
            final(self)@ == crate::schedule::failure_inserted(
                old(self)@,
                old(self).params(),
                timestep,
                choice,
            ),
            final(self).params == old(self).params,
            final(self).net.params() == old(self).net.params(),
    {
        match self.params.fault_mode() {
            FaultMode::Off => {},
            FaultMode::Single => {
                self.failure_inserted = true;
                proof {
                    lemma_running_before_failure(old(self)@, self.params, choice as u8);
                }
                self.fail_node(timestep, choice as u8);
            },
            FaultMode::Multiple => {
                self.failure_inserted = true;
                let count: u32 = self.params.number_of_nodes / 2;
                let ghost marked = self@;
                proof {
                    assert forall|id: u8| #[trigger] marked.placed_once(self.params, id) by {
                        assert(old(self)@.placed_once(self.params, id));
                    }
                }
                let mut failed: u32 = 0;
                while failed < count
                    invariant
                        failed <= count,
                        count == self.params.number_of_nodes / 2,
                        count > 0 ==> choice < count,
                        marked.wf(self.params),
                        marked.failure_inserted,
                        marked.failed_nodes.len() == 0,
                        self@ == block_failed(marked, timestep, choice as u8, failed as nat),
                        self.params == old(self).params,
                        self.net.params() == old(self).net.params(),
                    decreases count - failed,
                {
                    let id: u8 = (choice + failed) as u8;
                    proof {
                        lemma_block_failed(
                            marked,
                            self.params,
                            timestep,
                            choice as u8,
                            failed as nat,
                        );
                        lemma_running_before_failure(marked, self.params, id);
                    }
                    self.fail_node(timestep, id);
                    failed += 1;
                }
            },
        }
    }

    /// One timestep, where the choice is known to fit if it is needed.
    fn advance(&mut self, timestep: u32, choice: u32)
        requires
            old(self).wf(),
            failure_due(old(self)@, old(self).params(), timestep) ==> choice_fits(
                old(self).params(),
                choice,
            ),
        ensures
            final(self)@ == stepped(old(self)@, old(self).params(), timestep, choice),
            final(self).params() == old(self).params(),
            final(self).wf(),
    {
        self.run_nodes(timestep);
        proof {
            lemma_nodes_run(old(self)@, timestep, old(self)@.nodes.len());
            lemma_nodes_run_wf(old(self)@, self.params, timestep, old(self)@.nodes.len());
        }
        if timestep == FAILURE_TIMESTEP && !self.failure_inserted {
            self.insert_failure(timestep, choice);
        }
        proof {
            if failure_due(old(self)@, self.params, timestep) {
                lemma_stepped_wf(old(self)@, self.params, timestep, choice);
            }
        }
    }

    /// Whether a timestep at `timestep` would insert the failure.
    fn is_failure_due(&self, timestep: u32) -> (due: bool)
        ensures
            due == failure_due(self@, self.params(), timestep),
    {
        timestep == FAILURE_TIMESTEP && !self.failure_inserted && match self.params.fault_mode() {
            FaultMode::Off => false,
            _ => true,
        }
    }

    /// One timestep with a given choice: every running node runs once, and
    /// if the failure is due it is inserted with `choice` deciding which
    /// nodes fail. Where the failure is due and `choice` does not fit, the
    /// timestep is refused and nothing changes.
    pub fn step_with_choice(&mut self, timestep: u32, choice: u32) -> (res: Result<(), RunError>)
        requires
            old(self).wf(),
        ensures
            res is Err <==> failure_due(old(self)@, old(self).params(), timestep) && !choice_fits(
                old(self).params(),
                choice,
            ),
            final(self)@ == if res is Ok {
                stepped(old(self)@, old(self).params(), timestep, choice)
            } else {
                old(self)@
            },
            final(self).params() == old(self).params(),
            final(self).wf(),
    {
        let bound = self.params.choice_bound();
        if self.is_failure_due(timestep) && bound != 0 && choice >= bound {
            return Err(RunError::ChoiceOutOfRange);
        }
        self.advance(timestep, choice);
        Ok(())
    }

    /// One timestep: every running node runs once, and if the failure is due
    /// it is inserted, the nodes that fail being chosen at random. Returns the
    /// choice that was drawn, if one was.
    pub fn step(&mut self, timestep: u32) -> (drawn: Option<u32>)
        requires
            old(self).wf(),
        ensures
            drawn is Some <==> failure_due(old(self)@, old(self).params(), timestep) && old(
                self,
            ).params().choice_bound() > 0,
            match drawn {
                Some(choice) => {
                    &&& choice < old(self).params().choice_bound()
                    &&& final(self)@ == stepped(old(self)@, old(self).params(), timestep, choice)
                },
                None => forall|choice: u32|
                    final(self)@ == #[trigger] stepped(
                        old(self)@,
                        old(self).params(),
                        timestep,
                        choice,
                    ),
            },
            final(self).params() == old(self).params(),
            final(self).wf(),
    {
        let bound = self.params.choice_bound();
        if self.is_failure_due(timestep) && bound != 0 {
            let choice = random_below(bound);
            self.advance(timestep, choice);
            Some(choice)
        } else {
            self.advance(timestep, 0);
            proof {
                lemma_nodes_run(old(self)@, timestep, old(self)@.nodes.len());
            }
            None
        }
    }

    /// Runs the emulation with a given choice. Uses the parameters to run a
    /// number of timesteps, as `run` does, but lets `choice` decide which
    /// nodes fail. Where the run would insert the failure and `choice` does
    /// not fit, the run is refused and nothing changes.
    pub fn run_with_choice(&mut self, choice: u32) -> (res: Result<(), RunError>)
        requires
            old(self).wf(),
        ensures
            res is Err <==> old(self).params().total_runtime > FAILURE_TIMESTEP && failure_due(
                old(self)@,
                old(self).params(),
                FAILURE_TIMESTEP,
            ) && !choice_fits(old(self).params(), choice),
            final(self)@ == if res is Ok {
                ran(old(self)@, old(self).params(), old(self).params().total_runtime as nat, choice)
            } else {
                old(self)@
            },
            final(self).params() == old(self).params(),
            final(self).wf(),
    {
        let bound = self.params.choice_bound();
        let fits = bound == 0 || choice < bound;
        if self.params.total_runtime > FAILURE_TIMESTEP && self.is_failure_due(FAILURE_TIMESTEP)
            && !fits {
            return Err(RunError::ChoiceOutOfRange);
        }
        let mut timestep: u32 = 0;
        while timestep < self.params.total_runtime
            invariant
                timestep <= self.params.total_runtime,
                self.params == old(self).params,
                self.wf(),
                self@ == ran(old(self)@, self.params, timestep as nat, choice),
                fits == choice_fits(self.params, choice),
                !fits ==> self.params.total_runtime <= FAILURE_TIMESTEP || !failure_due(
                    self@,
                    self.params,
                    FAILURE_TIMESTEP,
                ),
            decreases self.params.total_runtime - timestep,
        {
            proof {
                lemma_stepped_frame(self@, self.params, timestep, choice);
            }
            self.advance(timestep, choice);
            timestep += 1;
        }
        Ok(())
    }

    /// Runs the emulation. Uses the parameters to run a number of timesteps
    /// and during each timestep all running nodes are run once. When a node is
    /// "failed" it simply is not run for any subsequent timesteps.
    ///
    /// The entire emulation is designed to be run in one thread.
    ///
    /// The nodes that fail are chosen at random; whatever is chosen, the run
    /// is the one that `run_with_choice` makes with that choice.
    pub fn run(&mut self)
        requires
            old(self).wf(),
        ensures
            exists|choice: u32|
                choice_fits(old(self).params(), choice) && final(self)@ == #[trigger] ran(
                    old(self)@,
                    old(self).params(),
                    old(self).params().total_runtime as nat,
                    choice,
                ),
            final(self).params() == old(self).params(),
            final(self).wf(),
    {
        let ghost mut drawn: Option<u32> = None;
        let mut timestep: u32 = 0;
        while timestep < self.params.total_runtime
            invariant
                timestep <= self.params.total_runtime,
                self.params == old(self).params,
                self.wf(),
                match drawn {
                    Some(choice) => {
                        &&& self@.failure_inserted
                        &&& choice_fits(self.params, choice)
                        &&& self@ == ran(old(self)@, self.params, timestep as nat, choice)
                    },
                    None => forall|choice: u32|
                        self@ == #[trigger] ran(old(self)@, self.params, timestep as nat, choice),
                },
            decreases self.params.total_runtime - timestep,
        {
            let ghost before = self@;
            let step_drawn = self.step(timestep);
            proof {
                let next = (timestep + 1) as nat;
                match (step_drawn, drawn) {
                    (Some(choice), _) => {
                        lemma_stepped_frame(before, self.params, timestep, choice);
                        assert(before == ran(old(self)@, self.params, timestep as nat, choice));
                        assert(self@ == ran(old(self)@, self.params, next, choice));
                        assert(self@.failure_inserted);
                        drawn = Some(choice);
                    },
                    (None, Some(choice)) => {
                        lemma_stepped_frame(before, self.params, timestep, choice);
                        assert(self@ == stepped(before, self.params, timestep, choice));
                        assert(self@ == ran(old(self)@, self.params, next, choice));
                        assert(self@.failure_inserted);
                    },
                    (None, None) => {
                        assert forall|choice: u32|
                            self@ == #[trigger] ran(old(self)@, self.params, next, choice) by {
                            assert(before == ran(old(self)@, self.params, timestep as nat, choice));
                            assert(self@ == stepped(before, self.params, timestep, choice));
                        }
                    },
                }
            }
            timestep += 1;
        }
        proof {
            let witness = match drawn {
                Some(choice) => choice,
                None => 0u32,
            };
            assert(choice_fits(self.params, witness));
            assert(self@ == ran(
                old(self)@,
                self.params,
                self.params.total_runtime as nat,
                witness,
            ));
        }
    }
}

} // verus!
