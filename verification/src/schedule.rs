//! What a run does, told as steps on mathematical values.
//!
//! A timestep lets every running node run once, in ascending order of id.
//! After the nodes of timestep `FAILURE_TIMESTEP` have run, the configured
//! failure is inserted, once: a failed node moves from the running nodes to
//! the failed ones, and a failure event that names it twice is recorded.

use crate::log::{LogEvent, LogView};
use crate::node::Node;
use crate::params::{FaultMode, Params, FAILURE_TIMESTEP};
use vstd::prelude::*;

verus! {

/// The state of a run.
pub struct RunState {
    /// The running nodes.
    pub nodes: Seq<Node>,
    /// The failed nodes, in the order in which they failed.
    pub failed_nodes: Seq<Node>,
    pub log: LogView,
    /// The queues of the network, by endpoint id.
    pub queues: Seq<Seq<(u8, Seq<u8>)>>,
    /// Whether the configured failure has been inserted.
    pub failure_inserted: bool,
}

/// Whether one of `nodes` has the id `id`.
pub open spec fn holds(nodes: Seq<Node>, id: u8) -> bool {
    exists|at: int| 0 <= at < nodes.len() && (#[trigger] nodes[at]).id == id
}

/// Whether the ids of `nodes` grow from each node to the next.
pub open spec fn ascending(nodes: Seq<Node>) -> bool {
    forall|i: int, j: int|
        0 <= i < j < nodes.len() ==> (#[trigger] nodes[i]).id < (#[trigger] nodes[j]).id
}

/// Where the node with the id `id` stands among `nodes`.
pub open spec fn position(nodes: Seq<Node>, id: u8) -> int {
    choose|at: int| 0 <= at < nodes.len() && (#[trigger] nodes[at]).id == id
}

/// The state in which a run for `params` starts: a node and an endpoint for
/// each id below the number of nodes, every node running, nothing recorded
/// and nothing sent.
pub open spec fn fresh(params: Params) -> RunState {
    RunState {
        nodes: Seq::new(
            params.number_of_nodes as nat,
            |id: int| Node { id: id as u8, joined: false },
        ),
        failed_nodes: Seq::empty(),
        log: LogView { events: Seq::empty(), unwritten: Seq::empty() },
        queues: Seq::new(params.number_of_nodes as nat, |id: int| Seq::empty()),
        failure_inserted: false,
    }
}

impl RunState {
    /// Whether `id` is placed as it must be: an id below the number of nodes
    /// among the running nodes or among the failed ones, but not both; any
    /// other id nowhere.
    pub open spec fn placed_once(self, params: Params, id: u8) -> bool {
        if id < params.number_of_nodes {
            holds(self.nodes, id) != holds(self.failed_nodes, id)
        } else {
            !holds(self.nodes, id) && !holds(self.failed_nodes, id)
        }
    }

    /// What holds of the state of a run for `params` at every moment: each id
    /// below the number of nodes belongs to exactly one node, which is either
    /// running or failed; the running nodes stand in ascending order of id;
    /// and no node has failed before the failure was inserted.
    pub open spec fn wf(self, params: Params) -> bool {
        &&& params.valid()
        &&& self.queues.len() == params.number_of_nodes
        &&& ascending(self.nodes)
        &&& ascending(self.failed_nodes)
        &&& self.nodes.len() + self.failed_nodes.len() == params.number_of_nodes
        &&& forall|id: u8| #[trigger] self.placed_once(params, id)
        &&& !self.failure_inserted ==> self.failed_nodes.len() == 0
    }
}

/// The state after the first `count` of the running nodes have run at
/// `timestep`, one after the other.
pub open spec fn nodes_run(state: RunState, timestep: u32, count: nat) -> RunState
    decreases count,
{
    if count == 0 {
        state
    } else {
        let before = nodes_run(state, timestep, (count - 1) as nat);
        let node = before.nodes[count - 1];
        RunState {
            nodes: before.nodes.update(count - 1, node.after_run()),
            log: if node.joined {
                before.log
            } else {
                before.log.record(timestep, LogEvent::Join { joined_id: node.id })
            },
            ..before
        }
    }
}

/// The state after the running node with the id `id` has failed at
/// `timestep`.
pub open spec fn node_failed(state: RunState, timestep: u32, id: u8) -> RunState {
    let at = position(state.nodes, id);
    RunState {
        nodes: state.nodes.remove(at),
        failed_nodes: state.failed_nodes.push(state.nodes[at]),
        log: state.log.record(timestep, LogEvent::Failure { failed_id: id, reporting_id: id }),
        ..state
    }
}

/// The state after the `count` nodes with the ids from `first` on have
/// failed at `timestep`, in ascending order of id.
pub open spec fn block_failed(state: RunState, timestep: u32, first: u8, count: nat) -> RunState
    decreases count,
{
    if count == 0 {
        state
    } else {
        node_failed(
            block_failed(state, timestep, first, (count - 1) as nat),
            timestep,
            (first + count - 1) as u8,
        )
    }
}

/// Why a timestep or a run with a given choice was refused.
#[derive(Debug, Clone, Copy, PartialEq, Eq, Structural)]
pub enum RunError {
    /// The failure would be inserted, and the choice names a node that the
    /// run does not have.
    ChoiceOutOfRange,
}

/// Whether `choice` can decide which nodes fail: a node id for a single
/// failure, the first id of the failing block for multiple failures. Where
/// there is nothing to choose, every value will do.
pub open spec fn choice_fits(params: Params, choice: u32) -> bool {
    params.choice_bound() == 0 || choice < params.choice_bound()
}

/// Whether the failure is to be inserted after the nodes have run at
/// `timestep`.
pub open spec fn failure_due(state: RunState, params: Params, timestep: u32) -> bool {
    &&& timestep == FAILURE_TIMESTEP
    &&& !state.failure_inserted
    &&& params.fault_mode() != FaultMode::Off
}

/// The state after the failure that `params` configures has been inserted
/// at `timestep`, with `choice` for the random choice.
pub open spec fn failure_inserted(
    state: RunState,
    params: Params,
    timestep: u32,
    choice: u32,
) -> RunState {
    let marked = RunState { failure_inserted: true, ..state };
    match params.fault_mode() {
        FaultMode::Off => state,
        FaultMode::Single => node_failed(marked, timestep, choice as u8),
        FaultMode::Multiple => block_failed(
            marked,
            timestep,
            choice as u8,
            (params.number_of_nodes / 2) as nat,
        ),
    }
}

/// The state after one timestep.
pub open spec fn stepped(state: RunState, params: Params, timestep: u32, choice: u32) -> RunState {
    let ran = nodes_run(state, timestep, state.nodes.len());
    if failure_due(ran, params, timestep) {
        failure_inserted(ran, params, timestep, choice)
    } else {
        ran
    }
}

/// The state after the timesteps from zero up to, but without, `timesteps`.
pub open spec fn ran(state: RunState, params: Params, timesteps: nat, choice: u32) -> RunState
    decreases timesteps,
{
    if timesteps == 0 {
        state
    } else {
        stepped(
            ran(state, params, (timesteps - 1) as nat, choice),
            params,
            (timesteps - 1) as u32,
            choice,
        )
    }
}

/// A node that runs keeps its id and its place, and nothing but the nodes'
/// memory of having joined and the log changes.
pub proof fn lemma_nodes_run(state: RunState, timestep: u32, count: nat)
    requires
        count <= state.nodes.len(),
    ensures
        nodes_run(state, timestep, count).nodes.len() == state.nodes.len(),
        forall|at: int|
            0 <= at < state.nodes.len() ==> (#[trigger] nodes_run(state, timestep, count).nodes[at])
                == if at < count {
                state.nodes[at].after_run()
            } else {
                state.nodes[at]
            },
        nodes_run(state, timestep, count).failed_nodes == state.failed_nodes,
        nodes_run(state, timestep, count).queues == state.queues,
        nodes_run(state, timestep, count).failure_inserted == state.failure_inserted,
    decreases count,
{
    if count > 0 {
        lemma_nodes_run(state, timestep, (count - 1) as nat);
    }
}

/// The nodes' running keeps the state of a run well formed.
pub proof fn lemma_nodes_run_wf(state: RunState, params: Params, timestep: u32, count: nat)
    requires
        state.wf(params),
        count <= state.nodes.len(),
    ensures
        nodes_run(state, timestep, count).wf(params),
        forall|id: u8|
            holds(nodes_run(state, timestep, count).nodes, id) <==> holds(state.nodes, id),
{
    lemma_nodes_run(state, timestep, count);
    let after = nodes_run(state, timestep, count);
    assert forall|id: u8| holds(after.nodes, id) <==> holds(state.nodes, id) by {
        if holds(after.nodes, id) {
            let at = position(after.nodes, id);
            assert(state.nodes[at].id == id);
        }
        if holds(state.nodes, id) {
            let at = position(state.nodes, id);
            assert(after.nodes[at].id == id);
        }
    }
    assert forall|i: int, j: int| 0 <= i < j < after.nodes.len() implies (
    #[trigger] after.nodes[i]).id < (#[trigger] after.nodes[j]).id by {
        assert(state.nodes[i].id < state.nodes[j].id);
    }
    assert forall|id: u8| #[trigger] after.placed_once(params, id) by {
        assert(state.placed_once(params, id));
    }
}

/// The failure of a running node keeps the state of a run well formed, where
/// the failure has been marked as inserted and the node's id is above those
/// of the nodes that failed before it. The node leaves the running nodes,
/// and no other does.
pub proof fn lemma_node_failed(state: RunState, params: Params, timestep: u32, id: u8)
    requires
        state.wf(params),
        state.failure_inserted,
        holds(state.nodes, id),
        forall|j: int|
            0 <= j < state.failed_nodes.len() ==> (#[trigger] state.failed_nodes[j]).id < id,
    ensures
        node_failed(state, timestep, id).wf(params),
        node_failed(state, timestep, id).failure_inserted,
        node_failed(state, timestep, id).nodes.len() == state.nodes.len() - 1,
        node_failed(state, timestep, id).failed_nodes.len() == state.failed_nodes.len() + 1,
        forall|other: u8|
            holds(node_failed(state, timestep, id).nodes, other) <==> holds(state.nodes, other)
                && other != id,
        forall|other: u8|
            holds(node_failed(state, timestep, id).failed_nodes, other) <==> holds(
                state.failed_nodes,
                other,
            ) || other == id,
        forall|j: int|
            0 <= j < node_failed(state, timestep, id).failed_nodes.len() ==> (
            #[trigger] node_failed(state, timestep, id).failed_nodes[j]).id <= id,
        node_failed(state, timestep, id).failed_nodes.last().id == id,
{
    let after = node_failed(state, timestep, id);
    let at = position(state.nodes, id);
    assert(0 <= at < state.nodes.len() && state.nodes[at].id == id);
    assert forall|other: u8| holds(after.nodes, other) <==> holds(state.nodes, other) && other
        != id by {
        if holds(after.nodes, other) {
            let i = position(after.nodes, other);
            if i < at {
                assert(state.nodes[i].id == other);
            } else {
                assert(state.nodes[i + 1].id == other);
            }
        }
        if holds(state.nodes, other) && other != id {
            let j = position(state.nodes, other);
            if j < at {
                assert(after.nodes[j].id == other);
            } else {
                assert(after.nodes[j - 1].id == other);
            }
        }
    }
    assert forall|other: u8| holds(after.failed_nodes, other) <==> holds(state.failed_nodes, other)
        || other == id by {
        if holds(after.failed_nodes, other) {
            let i = position(after.failed_nodes, other);
            if i < state.failed_nodes.len() {
                assert(state.failed_nodes[i].id == other);
            }
        }
        if holds(state.failed_nodes, other) {
            let j = position(state.failed_nodes, other);
            assert(after.failed_nodes[j].id == other);
        }
        if other == id {
            assert(after.failed_nodes[state.failed_nodes.len() as int].id == id);
        }
    }
    assert forall|i: int, j: int| 0 <= i < j < after.nodes.len() implies (
    #[trigger] after.nodes[i]).id < (#[trigger] after.nodes[j]).id by {
        let from_i = if i < at { i } else { i + 1 };
        let from_j = if j < at { j } else { j + 1 };
        assert(state.nodes[from_i].id < state.nodes[from_j].id);
    }
    assert forall|i: int, j: int| 0 <= i < j < after.failed_nodes.len() implies (
    #[trigger] after.failed_nodes[i]).id < (#[trigger] after.failed_nodes[j]).id by {
        if j < state.failed_nodes.len() {
            assert(state.failed_nodes[i].id < state.failed_nodes[j].id);
        } else {
            assert(state.failed_nodes[i].id < id);
        }
    }
    assert forall|j: int| 0 <= j < after.failed_nodes.len() implies (
    #[trigger] after.failed_nodes[j]).id <= id by {
        if j < state.failed_nodes.len() {
            assert(state.failed_nodes[j].id < id);
        }
    }
    assert forall|other: u8| #[trigger] after.placed_once(params, other) by {
        assert(state.placed_once(params, other));
        assert(state.placed_once(params, id));
    }
}

/// Before the failure is inserted every id below the number of nodes belongs
/// to a running node.
pub proof fn lemma_running_before_failure(state: RunState, params: Params, id: u8)
    requires
        state.wf(params),
        state.failed_nodes.len() == 0,
        id < params.number_of_nodes,
    ensures
        holds(state.nodes, id),
{
    assert(state.placed_once(params, id));
}

/// The failure of a block of nodes keeps the state of a run well formed,
/// where the failure has been marked as inserted, no node has failed before
/// and the block lies within the ids of the run. Exactly the nodes of the
/// block leave the running nodes, and they stand among the failed nodes in
/// ascending order of id.
pub proof fn lemma_block_failed(
    state: RunState,
    params: Params,
    timestep: u32,
    first: u8,
    count: nat,
)
    requires
        state.wf(params),
        state.failure_inserted,
        state.failed_nodes.len() == 0,
        first + count <= params.number_of_nodes,
    ensures
        block_failed(state, timestep, first, count).wf(params),
        block_failed(state, timestep, first, count).failure_inserted,
        block_failed(state, timestep, first, count).nodes.len() == state.nodes.len() - count,
        block_failed(state, timestep, first, count).failed_nodes.len() == count,
        forall|other: u8|
            holds(block_failed(state, timestep, first, count).nodes, other) <==> holds(
                state.nodes,
                other,
            ) && !(first <= other < first + count),
        forall|j: int|
            0 <= j < count ==> (#[trigger] block_failed(
                state,
                timestep,
                first,
                count,
            ).failed_nodes[j]).id == first + j,
    decreases count,
{
    if count > 0 {
        let before = block_failed(state, timestep, first, (count - 1) as nat);
        let id = (first + count - 1) as u8;
        lemma_block_failed(state, params, timestep, first, (count - 1) as nat);
        lemma_running_before_failure(state, params, id);
        lemma_node_failed(before, params, timestep, id);
        let after = node_failed(before, timestep, id);
        assert forall|j: int| 0 <= j < count implies (#[trigger] after.failed_nodes[j]).id == first
            + j by {
            if j < count - 1 {
                assert(before.failed_nodes[j].id == first + j);
            }
        }
    }
}

/// The failure is marked as inserted from the timestep that inserts it on.
/// No timestep touches the queues of the network.
pub proof fn lemma_stepped_frame(state: RunState, params: Params, timestep: u32, choice: u32)
    ensures
        stepped(state, params, timestep, choice).failure_inserted == (state.failure_inserted
            || failure_due(state, params, timestep)),
        stepped(state, params, timestep, choice).queues == state.queues,
{
    lemma_nodes_run(state, timestep, state.nodes.len());
    let ran = nodes_run(state, timestep, state.nodes.len());
    let marked = RunState { failure_inserted: true, ..ran };
    lemma_block_failed_frame(marked, timestep, choice as u8, (params.number_of_nodes / 2) as nat);
}

/// The failure of a block of nodes touches neither the mark of the inserted
/// failure nor the queues of the network.
pub proof fn lemma_block_failed_frame(state: RunState, timestep: u32, first: u8, count: nat)
    ensures
        block_failed(state, timestep, first, count).failure_inserted == state.failure_inserted,
        block_failed(state, timestep, first, count).queues == state.queues,
    decreases count,
{
    if count > 0 {
        lemma_block_failed_frame(state, timestep, first, (count - 1) as nat);
    }
}

/// The failing block never leaves the ids of the run: it starts within the
/// first half of the ids and holds half of the nodes, rounded down, so that
/// its last id is below the number of nodes.
pub proof fn lemma_block_within_ids(params: Params, choice: u32)
    requires
        params.fault_mode() == FaultMode::Multiple,
        0 < params.choice_bound(),
        choice < params.choice_bound(),
    ensures
        choice + params.number_of_nodes / 2 <= params.number_of_nodes,
        choice + params.number_of_nodes / 2 - 1 < params.number_of_nodes - 1,
{
}

/// A timestep keeps the state of a run well formed.
pub proof fn lemma_stepped_wf(state: RunState, params: Params, timestep: u32, choice: u32)
    requires
        state.wf(params),
        choice_fits(params, choice),
    ensures
        stepped(state, params, timestep, choice).wf(params),
{
    let ran = nodes_run(state, timestep, state.nodes.len());
    lemma_nodes_run(state, timestep, state.nodes.len());
    lemma_nodes_run_wf(state, params, timestep, state.nodes.len());
    if failure_due(ran, params, timestep) {
        let marked = RunState { failure_inserted: true, ..ran };
        assert(marked.wf(params)) by {
            assert forall|id: u8| #[trigger] marked.placed_once(params, id) by {
                assert(ran.placed_once(params, id));
            }
        }
        match params.fault_mode() {
            FaultMode::Off => {},
            FaultMode::Single => {
                lemma_running_before_failure(marked, params, choice as u8);
                lemma_node_failed(marked, params, timestep, choice as u8);
            },
            FaultMode::Multiple => {
                let count = (params.number_of_nodes / 2) as nat;
                if count > 0 {
                    lemma_block_within_ids(params, choice);
                    lemma_block_failed(marked, params, timestep, choice as u8, count);
                }
            },
        }
    }
}

/// Every number of timesteps keeps the state of a run well formed: at every
/// moment of a run each id belongs to exactly one node, running or failed.
pub proof fn lemma_ran_wf(state: RunState, params: Params, timesteps: nat, choice: u32)
    requires
        state.wf(params),
        choice_fits(params, choice),
        timesteps <= u32::MAX,
    ensures
        ran(state, params, timesteps, choice).wf(params),
    decreases timesteps,
{
    if timesteps > 0 {
        lemma_ran_wf(state, params, (timesteps - 1) as nat, choice);
        lemma_stepped_wf(
            ran(state, params, (timesteps - 1) as nat, choice),
            params,
            (timesteps - 1) as u32,
            choice,
        );
    }
}

/// The state in which a run starts is well formed.
pub proof fn lemma_fresh_wf(params: Params)
    requires
        params.valid(),
    ensures
        fresh(params).wf(params),
{
    let state = fresh(params);
    assert forall|id: u8| #[trigger] state.placed_once(params, id) by {
        if id < params.number_of_nodes {
            assert(state.nodes[id as int].id == id);
        }
    }
}

} // verus!
