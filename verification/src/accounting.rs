//! What a run adds up to: how many joins and failures a run from the start
//! records, which nodes end up running and which failed, and what does not
//! depend on chance.

use crate::log::{failures, joins, lemma_kinds_after_push, LogEvent, LogView};
use crate::node::Node;
use crate::params::{FaultMode, Params, FAILURE_TIMESTEP};
use crate::schedule::{
    block_failed, choice_fits, failure_due, failure_inserted, fresh, holds, lemma_block_failed,
    lemma_fresh_wf, lemma_node_failed, lemma_nodes_run, lemma_running_before_failure,
    lemma_stepped_frame, lemma_stepped_wf, node_failed, nodes_run, position, ran, stepped,
    RunState,
};
use crate::trace::trace_text;
use vstd::prelude::*;

verus! {

/// The joins of the nodes with the ids below `count`, each recorded at
/// `timestep`, in ascending order of id.
pub open spec fn join_events(timestep: u32, count: nat) -> Seq<(u32, LogEvent)> {
    Seq::new(count, |id: int| (timestep, LogEvent::Join { joined_id: id as u8 }))
}

/// The failures of the `count` nodes with the ids from `first` on, each
/// recorded at `timestep` by the node itself, in ascending order of id.
pub open spec fn failure_events(timestep: u32, first: u8, count: nat) -> Seq<(u32, LogEvent)> {
    Seq::new(
        count,
        |place: int|
            (
                timestep,
                LogEvent::Failure {
                    failed_id: (first + place) as u8,
                    reporting_id: (first + place) as u8,
                },
            ),
    )
}

/// Whether every one of `nodes` has recorded its join.
pub open spec fn all_joined(nodes: Seq<Node>) -> bool {
    forall|at: int| 0 <= at < nodes.len() ==> (#[trigger] nodes[at]).joined
}

/// The state of a run for `params` after its first timestep: every node has
/// run once and recorded its own join at timestep zero.
pub open spec fn joined(params: Params) -> RunState {
    RunState {
        nodes: Seq::new(
            params.number_of_nodes as nat,
            |id: int| Node { id: id as u8, joined: true },
        ),
        log: LogView {
            events: join_events(0, params.number_of_nodes as nat),
            unwritten: trace_text(join_events(0, params.number_of_nodes as nat)),
        },
        ..fresh(params)
    }
}

/// Joins are joins: among them there is no failure.
pub proof fn lemma_join_events_kinds(timestep: u32, count: nat)
    ensures
        joins(join_events(timestep, count)) == join_events(timestep, count),
        failures(join_events(timestep, count)) == Seq::<(u32, LogEvent)>::empty(),
    decreases count,
{
    if count == 0 {
        lemma_kinds_of_nothing();
        assert(join_events(timestep, count) =~= Seq::<(u32, LogEvent)>::empty());
    } else {
        let before = join_events(timestep, (count - 1) as nat);
        let entry = (timestep, LogEvent::Join { joined_id: (count - 1) as u8 });
        lemma_join_events_kinds(timestep, (count - 1) as nat);
        lemma_kinds_after_push(before, entry);
        assert(join_events(timestep, count) =~= before.push(entry));
    }
}

/// Nothing is recorded in an empty list of events.
pub proof fn lemma_kinds_of_nothing()
    ensures
        joins(Seq::<(u32, LogEvent)>::empty()) == Seq::<(u32, LogEvent)>::empty(),
        failures(Seq::<(u32, LogEvent)>::empty()) == Seq::<(u32, LogEvent)>::empty(),
{
    reveal(Seq::filter);
}

/// The first timestep, node by node: after the first `count` nodes of a
/// fresh run have run at timestep zero, exactly they have joined and recorded
/// it.
proof fn lemma_first_timestep(params: Params, count: nat)
    requires
        count <= params.number_of_nodes,
    ensures
        nodes_run(fresh(params), 0, count) == (RunState {
            nodes: Seq::new(
                params.number_of_nodes as nat,
                |id: int| Node { id: id as u8, joined: id < count },
            ),
            log: LogView {
                events: join_events(0, count),
                unwritten: trace_text(join_events(0, count)),
            },
            ..fresh(params)
        }),
    decreases count,
{
    let after = nodes_run(fresh(params), 0, count);
    let goal = RunState {
        nodes: Seq::new(
            params.number_of_nodes as nat,
            |id: int| Node { id: id as u8, joined: id < count },
        ),
        log: LogView {
            events: join_events(0, count),
            unwritten: trace_text(join_events(0, count)),
        },
        ..fresh(params)
    };
    if count == 0 {
        assert(goal.nodes =~= fresh(params).nodes);
        assert(join_events(0, 0) =~= Seq::<(u32, LogEvent)>::empty());
        assert(trace_text(join_events(0, 0)) =~= Seq::<u8>::empty());
    } else {
        lemma_first_timestep(params, (count - 1) as nat);
        let before = join_events(0, (count - 1) as nat);
        let entry = (0u32, LogEvent::Join { joined_id: (count - 1) as u8 });
        assert(join_events(0, count) =~= before.push(entry));
        assert(join_events(0, count).drop_last() =~= before);
        assert(after.nodes =~= goal.nodes);
        assert(after.log.events =~= goal.log.events);
        assert(after.log.unwritten =~= goal.log.unwritten);
    }
}

/// Nodes that have all joined before run without leaving a trace: the state
/// stays as it is.
pub proof fn lemma_joined_nodes_run(state: RunState, timestep: u32, count: nat)
    requires
        count <= state.nodes.len(),
        all_joined(state.nodes),
    ensures
        nodes_run(state, timestep, count) == state,
    decreases count,
{
    if count > 0 {
        lemma_joined_nodes_run(state, timestep, (count - 1) as nat);
        assert(state.nodes[count - 1].joined);
        assert(state.nodes.update(count - 1, state.nodes[count - 1].after_run()) =~= state.nodes);
    }
}

/// A node that fails leaves the running nodes as they were in all but its
/// own absence: where all had joined, all that remain have.
proof fn lemma_node_failed_joined(state: RunState, timestep: u32, id: u8)
    requires
        holds(state.nodes, id),
        all_joined(state.nodes),
    ensures
        all_joined(node_failed(state, timestep, id).nodes),
{
    let at = position(state.nodes, id);
    let after = node_failed(state, timestep, id);
    assert forall|i: int| 0 <= i < after.nodes.len() implies (#[trigger] after.nodes[i]).joined by {
        if i < at {
            assert(state.nodes[i].joined);
        } else {
            assert(state.nodes[i + 1].joined);
        }
    }
}

/// Where all running nodes had joined, all that remain after the failure of
/// a block have.
proof fn lemma_block_failed_joined(
    state: RunState,
    params: Params,
    timestep: u32,
    first: u8,
    count: nat,
)
    requires
        state.wf(params),
        state.failure_inserted,
        state.failed_nodes.len() == 0,
        first + count <= params.number_of_nodes,
        all_joined(state.nodes),
    ensures
        all_joined(block_failed(state, timestep, first, count).nodes),
    decreases count,
{
    if count > 0 {
        let id = (first + count - 1) as u8;
        lemma_block_failed_joined(state, params, timestep, first, (count - 1) as nat);
        lemma_block_failed(state, params, timestep, first, (count - 1) as nat);
        lemma_running_before_failure(state, params, id);
        lemma_node_failed_joined(
            block_failed(state, timestep, first, (count - 1) as nat),
            timestep,
            id,
        );
    }
}

/// Where all running nodes had joined, all that remain after the failure
/// was inserted have, and the state is well formed.
proof fn lemma_failure_inserted_joined(
    state: RunState,
    params: Params,
    timestep: u32,
    choice: u32,
)
    requires
        state.wf(params),
        !state.failure_inserted,
        all_joined(state.nodes),
        choice_fits(params, choice),
    ensures
        all_joined(failure_inserted(state, params, timestep, choice).nodes),
{
    let marked = RunState { failure_inserted: true, ..state };
    assert(marked.wf(params)) by {
        assert forall|id: u8| #[trigger] marked.placed_once(params, id) by {
            assert(state.placed_once(params, id));
        }
    }
    match params.fault_mode() {
        FaultMode::Off => {},
        FaultMode::Single => {
            lemma_running_before_failure(marked, params, choice as u8);
            lemma_node_failed_joined(marked, timestep, choice as u8);
        },
        FaultMode::Multiple => {
            let count = (params.number_of_nodes / 2) as nat;
            if count > 0 {
                lemma_block_failed_joined(marked, params, timestep, choice as u8, count);
            }
        },
    }
}

/// The state of a run for `params` from the start after `timesteps`
/// timesteps, with `choice` for the random choice: nothing has happened
/// before the first timestep; from then on every node has joined; and once
/// the timestep `FAILURE_TIMESTEP` is over the configured failure has been
/// inserted.
pub open spec fn outcome(params: Params, timesteps: nat, choice: u32) -> RunState {
    if timesteps == 0 {
        fresh(params)
    } else if timesteps <= FAILURE_TIMESTEP || params.fault_mode() == FaultMode::Off {
        joined(params)
    } else {
        failure_inserted(joined(params), params, FAILURE_TIMESTEP, choice)
    }
}

/// A run from the start arrives at `outcome`: the nodes join in the first
/// timestep, in ascending order of id, and nothing else happens but the
/// insertion of the failure.
pub proof fn lemma_outcome(params: Params, timesteps: nat, choice: u32)
    requires
        params.valid(),
        choice_fits(params, choice),
        timesteps <= u32::MAX,
    ensures
        ran(fresh(params), params, timesteps, choice) == outcome(params, timesteps, choice),
        outcome(params, timesteps, choice).wf(params),
        timesteps > 0 ==> all_joined(outcome(params, timesteps, choice).nodes),
    decreases timesteps,
{
    lemma_fresh_wf(params);
    if timesteps == 1 {
        lemma_first_timestep(params, params.number_of_nodes as nat);
        assert(nodes_run(fresh(params), 0, fresh(params).nodes.len()) == joined(params)) by {
            assert(nodes_run(fresh(params), 0, params.number_of_nodes as nat).nodes =~= joined(
                params,
            ).nodes);
        }
        assert(ran(fresh(params), params, 0, choice) == fresh(params));
        assert(ran(fresh(params), params, 1, choice) == stepped(fresh(params), params, 0, choice));
        lemma_stepped_wf(fresh(params), params, 0, choice);
    } else if timesteps > 1 {
        let timestep = (timesteps - 1) as u32;
        let before = outcome(params, (timesteps - 1) as nat, choice);
        lemma_outcome(params, (timesteps - 1) as nat, choice);
        assert(ran(fresh(params), params, timesteps, choice) == stepped(
            before,
            params,
            timestep,
            choice,
        ));
        lemma_joined_nodes_run(before, timestep, before.nodes.len());
        lemma_stepped_wf(before, params, timestep, choice);
        if failure_due(before, params, timestep) {
            lemma_failure_inserted_joined(before, params, timestep, choice);
        }
    }
}

/// The failure events that the insertion of the failure records: one for a
/// single failure, which names the chosen node; one for each node of the
/// block for multiple failures, in ascending order of id.
pub open spec fn inserted_failures(params: Params, timestep: u32, choice: u32) -> Seq<
    (u32, LogEvent),
> {
    match params.fault_mode() {
        FaultMode::Off => Seq::empty(),
        FaultMode::Single => failure_events(timestep, choice as u8, 1),
        FaultMode::Multiple => failure_events(
            timestep,
            choice as u8,
            (params.number_of_nodes / 2) as nat,
        ),
    }
}

/// Failures are failures: recorded after other events they add no join, and
/// they follow the failures recorded before.
pub proof fn lemma_failure_events_kinds(
    events: Seq<(u32, LogEvent)>,
    timestep: u32,
    first: u8,
    count: nat,
)
    ensures
        joins(events + failure_events(timestep, first, count)) == joins(events),
        failures(events + failure_events(timestep, first, count)) == failures(events)
            + failure_events(timestep, first, count),
    decreases count,
{
    if count == 0 {
        assert(events + failure_events(timestep, first, count) =~= events);
        assert(failures(events) + failure_events(timestep, first, count) =~= failures(events));
    } else {
        let fewer = failure_events(timestep, first, (count - 1) as nat);
        let id = (first + count - 1) as u8;
        let entry = (timestep, LogEvent::Failure { failed_id: id, reporting_id: id });
        lemma_failure_events_kinds(events, timestep, first, (count - 1) as nat);
        lemma_kinds_after_push(events + fewer, entry);
        assert(failure_events(timestep, first, count) =~= fewer.push(entry));
        assert(events + failure_events(timestep, first, count) =~= (events + fewer).push(entry));
        assert(failures(events) + failure_events(timestep, first, count) =~= (failures(events)
            + fewer).push(entry));
    }
}

/// The failure of a block records one failure event for each node of the
/// block, in ascending order of id, after the events recorded before.
pub proof fn lemma_block_failed_events(state: RunState, timestep: u32, first: u8, count: nat)
    ensures
        block_failed(state, timestep, first, count).log.events == state.log.events
            + failure_events(timestep, first, count),
    decreases count,
{
    if count == 0 {
        assert(state.log.events + failure_events(timestep, first, count) =~= state.log.events);
    } else {
        lemma_block_failed_events(state, timestep, first, (count - 1) as nat);
        let fewer = failure_events(timestep, first, (count - 1) as nat);
        let id = (first + count - 1) as u8;
        let entry = (timestep, LogEvent::Failure { failed_id: id, reporting_id: id });
        assert(state.log.events + failure_events(timestep, first, count) =~= (state.log.events
            + fewer).push(entry));
    }
}

/// The insertion of the failure records the events of `inserted_failures`
/// after the events recorded before, and nothing else.
pub proof fn lemma_failure_inserted_events(
    state: RunState,
    params: Params,
    timestep: u32,
    choice: u32,
)
    ensures
        failure_inserted(state, params, timestep, choice).log.events == state.log.events
            + inserted_failures(params, timestep, choice),
{
    let marked = RunState { failure_inserted: true, ..state };
    match params.fault_mode() {
        FaultMode::Off => {
            assert(state.log.events + inserted_failures(params, timestep, choice)
                =~= state.log.events);
        },
        FaultMode::Single => {
            assert(state.log.events + inserted_failures(params, timestep, choice)
                =~= state.log.events.push(
                (
                    timestep,
                    LogEvent::Failure { failed_id: choice as u8, reporting_id: choice as u8 },
                ),
            ));
        },
        FaultMode::Multiple => {
            lemma_block_failed_events(
                marked,
                timestep,
                choice as u8,
                (params.number_of_nodes / 2) as nat,
            );
        },
    }
}

/// Join accounting. A run from the start of at least one timestep records
/// exactly one join for each node: the node's own, at timestep zero, in
/// ascending order of id. This holds whatever failure is configured, since
/// every node runs before any fails.
pub proof fn lemma_join_accounting(params: Params, timesteps: nat, choice: u32)
    requires
        params.valid(),
        choice_fits(params, choice),
        1 <= timesteps <= u32::MAX,
    ensures
        joins(ran(fresh(params), params, timesteps, choice).log.events) == join_events(
            0,
            params.number_of_nodes as nat,
        ),
        joins(ran(fresh(params), params, timesteps, choice).log.events).len()
            == params.number_of_nodes,
{
    let recorded = join_events(0, params.number_of_nodes as nat);
    lemma_outcome(params, timesteps, choice);
    lemma_join_events_kinds(0, params.number_of_nodes as nat);
    lemma_failure_inserted_events(joined(params), params, FAILURE_TIMESTEP, choice);
    match params.fault_mode() {
        FaultMode::Off => {},
        FaultMode::Single => {
            lemma_failure_events_kinds(recorded, FAILURE_TIMESTEP, choice as u8, 1);
        },
        FaultMode::Multiple => {
            lemma_failure_events_kinds(
                recorded,
                FAILURE_TIMESTEP,
                choice as u8,
                (params.number_of_nodes / 2) as nat,
            );
        },
    }
}

/// Failure accounting. A run from the start records no failure unless it
/// goes beyond the timestep `FAILURE_TIMESTEP` with a failure configured. If
/// it does, it records the events of `inserted_failures` at that timestep:
/// one failure event for each node that fails, each on the node's own behalf.
pub proof fn lemma_failure_accounting(params: Params, timesteps: nat, choice: u32)
    requires
        params.valid(),
        choice_fits(params, choice),
        timesteps <= u32::MAX,
    ensures
        failures(ran(fresh(params), params, timesteps, choice).log.events) == if timesteps
            > FAILURE_TIMESTEP {
            inserted_failures(params, FAILURE_TIMESTEP, choice)
        } else {
            Seq::empty()
        },
{
    let recorded = join_events(0, params.number_of_nodes as nat);
    lemma_outcome(params, timesteps, choice);
    lemma_join_events_kinds(0, params.number_of_nodes as nat);
    lemma_kinds_of_nothing();
    lemma_failure_inserted_events(joined(params), params, FAILURE_TIMESTEP, choice);
    let count: nat = match params.fault_mode() {
        FaultMode::Off => 0,
        FaultMode::Single => 1,
        FaultMode::Multiple => (params.number_of_nodes / 2) as nat,
    };
    lemma_failure_events_kinds(recorded, FAILURE_TIMESTEP, choice as u8, count);
    assert(failures(recorded) + failure_events(FAILURE_TIMESTEP, choice as u8, count)
        =~= failure_events(FAILURE_TIMESTEP, choice as u8, count));
    if params.fault_mode() == FaultMode::Off {
        assert(failure_events(FAILURE_TIMESTEP, choice as u8, 0) =~= Seq::<
            (u32, LogEvent),
        >::empty());
        assert(recorded + failure_events(FAILURE_TIMESTEP, choice as u8, 0) =~= recorded);
    }
}

/// Before the failure is inserted the running nodes are the nodes of the
/// run: a node runs if and only if its id is below the number of nodes.
pub proof fn lemma_all_running_before_failure(state: RunState, params: Params)
    requires
        state.wf(params),
        state.failed_nodes.len() == 0,
    ensures
        state.nodes.len() == params.number_of_nodes,
        forall|id: u8| holds(state.nodes, id) <==> id < params.number_of_nodes,
{
    assert forall|id: u8| holds(state.nodes, id) <==> id < params.number_of_nodes by {
        assert(state.placed_once(params, id));
        if id < params.number_of_nodes {
            lemma_running_before_failure(state, params, id);
        }
    }
}

/// Single-failure accounting. In a run from the start that goes beyond the
/// timestep `FAILURE_TIMESTEP` with a single failure configured, exactly the
/// chosen node fails: it alone stands among the failed nodes, every other
/// node runs on, and the one failure event of the run is the one recorded at
/// that timestep for the chosen node, on its own behalf.
pub proof fn lemma_single_failure_accounting(params: Params, timesteps: nat, choice: u32)
    requires
        params.valid(),
        params.fault_mode() == FaultMode::Single,
        FAILURE_TIMESTEP < timesteps <= u32::MAX,
        choice < params.number_of_nodes,
    ensures
        ran(fresh(params), params, timesteps, choice).wf(params),
        ran(fresh(params), params, timesteps, choice).nodes.len() == params.number_of_nodes - 1,
        ran(fresh(params), params, timesteps, choice).failed_nodes.len() == 1,
        ran(fresh(params), params, timesteps, choice).failed_nodes[0].id == choice,
        forall|id: u8|
            holds(ran(fresh(params), params, timesteps, choice).nodes, id) <==> id
                < params.number_of_nodes && id != choice,
        failures(ran(fresh(params), params, timesteps, choice).log.events) == seq![
            (
                FAILURE_TIMESTEP,
                LogEvent::Failure { failed_id: choice as u8, reporting_id: choice as u8 },
            ),
        ],
{
    let start = joined(params);
    let marked = RunState { failure_inserted: true, ..start };
    lemma_outcome(params, timesteps, choice);
    lemma_outcome(params, 1, choice);
    lemma_failure_accounting(params, timesteps, choice);
    assert(marked.wf(params)) by {
        assert forall|id: u8| #[trigger] marked.placed_once(params, id) by {
            assert(start.placed_once(params, id));
        }
    }
    lemma_all_running_before_failure(marked, params);
    lemma_node_failed(marked, params, FAILURE_TIMESTEP, choice as u8);
    let after = node_failed(marked, FAILURE_TIMESTEP, choice as u8);
    assert forall|id: u8| holds(after.nodes, id) <==> id < params.number_of_nodes && id
        != choice by {
        assert(holds(after.nodes, id) <==> holds(marked.nodes, id) && id != choice as u8);
        assert(holds(marked.nodes, id) <==> id < params.number_of_nodes);
    }
    assert(failure_events(FAILURE_TIMESTEP, choice as u8, 1) =~= seq![
        (
            FAILURE_TIMESTEP,
            LogEvent::Failure { failed_id: choice as u8, reporting_id: choice as u8 },
        ),
    ]);
}

/// Multiple-failure accounting. In a run from the start that goes beyond the
/// timestep `FAILURE_TIMESTEP` with multiple failures configured, exactly the
/// nodes of the block fail that starts at the chosen id and holds half of
/// the nodes (rounded down): they stand among the failed nodes in ascending
/// order of id, every other node runs on, and the failure events of the run
/// are those recorded at that timestep, one for each node of the block, on
/// its own behalf.
pub proof fn lemma_multiple_failure_accounting(params: Params, timesteps: nat, choice: u32)
    requires
        params.valid(),
        params.fault_mode() == FaultMode::Multiple,
        FAILURE_TIMESTEP < timesteps <= u32::MAX,
        choice_fits(params, choice),
    ensures
        ran(fresh(params), params, timesteps, choice).wf(params),
        ran(fresh(params), params, timesteps, choice).nodes.len() == params.number_of_nodes
            - params.number_of_nodes / 2,
        ran(fresh(params), params, timesteps, choice).failed_nodes.len() == params.number_of_nodes
            / 2,
        forall|place: int|
            0 <= place < params.number_of_nodes / 2 ==> (#[trigger] ran(
                fresh(params),
                params,
                timesteps,
                choice,
            ).failed_nodes[place]).id == choice + place,
        forall|id: u8|
            holds(ran(fresh(params), params, timesteps, choice).nodes, id) <==> id
                < params.number_of_nodes && !(choice <= id < choice + params.number_of_nodes / 2),
        failures(ran(fresh(params), params, timesteps, choice).log.events) == failure_events(
            FAILURE_TIMESTEP,
            choice as u8,
            (params.number_of_nodes / 2) as nat,
        ),
        failures(ran(fresh(params), params, timesteps, choice).log.events).len()
            == params.number_of_nodes / 2,
{
    let start = joined(params);
    let marked = RunState { failure_inserted: true, ..start };
    let half = (params.number_of_nodes / 2) as nat;
    lemma_outcome(params, timesteps, choice);
    lemma_outcome(params, 1, choice);
    lemma_failure_accounting(params, timesteps, choice);
    assert(marked.wf(params)) by {
        assert forall|id: u8| #[trigger] marked.placed_once(params, id) by {
            assert(start.placed_once(params, id));
        }
    }
    lemma_all_running_before_failure(marked, params);
    if half > 0 {
        lemma_block_failed(marked, params, FAILURE_TIMESTEP, choice as u8, half);
    }
    let after = block_failed(marked, FAILURE_TIMESTEP, choice as u8, half);
    assert forall|id: u8| holds(after.nodes, id) <==> id < params.number_of_nodes && !(choice
        <= id < choice + half) by {
        assert(holds(marked.nodes, id) <==> id < params.number_of_nodes);
        if half > 0 {
            assert(holds(after.nodes, id) <==> holds(marked.nodes, id) && !(choice as u8 <= id
                < choice as u8 + half));
        }
    }
}

/// Endpoint allocation. A run for `params` starts with one node and one
/// endpoint for each id below the number of nodes: the node at place `id`
/// has the id `id`, so that no id is given out twice and none is left out.
pub proof fn lemma_endpoint_allocation(params: Params)
    requires
        params.valid(),
    ensures
        fresh(params).nodes.len() == params.number_of_nodes,
        fresh(params).queues.len() == params.number_of_nodes,
        forall|at: int|
            0 <= at < params.number_of_nodes ==> (#[trigger] fresh(params).nodes[at]).id == at,
        forall|one: int, other: int|
            0 <= one < other < params.number_of_nodes ==> (#[trigger] fresh(params).nodes[one]).id
                != (#[trigger] fresh(params).nodes[other]).id,
        forall|id: u8| holds(fresh(params).nodes, id) <==> id < params.number_of_nodes,
{
    lemma_fresh_wf(params);
    lemma_all_running_before_failure(fresh(params), params);
}

/// No re-join. A node that has failed stays failed: whatever the timestep
/// and the choice, one more timestep leaves the failed nodes as they are, and
/// the id of a failed node belongs to no running node afterwards.
pub proof fn lemma_no_rejoin(state: RunState, params: Params, timestep: u32, choice: u32, id: u8)
    requires
        state.wf(params),
        holds(state.failed_nodes, id),
    ensures
        stepped(state, params, timestep, choice).wf(params),
        stepped(state, params, timestep, choice).failed_nodes == state.failed_nodes,
        holds(stepped(state, params, timestep, choice).failed_nodes, id),
        !holds(stepped(state, params, timestep, choice).nodes, id),
{
    let after = stepped(state, params, timestep, choice);
    lemma_nodes_run(state, timestep, state.nodes.len());
    crate::schedule::lemma_nodes_run_wf(state, params, timestep, state.nodes.len());
    assert(after.placed_once(params, id));
}

/// No re-join, over a run: a node that has failed is failed, and not
/// running, after any number of further timesteps.
pub proof fn lemma_no_rejoin_in_run(
    state: RunState,
    params: Params,
    timesteps: nat,
    choice: u32,
    id: u8,
)
    requires
        state.wf(params),
        holds(state.failed_nodes, id),
        timesteps <= u32::MAX,
    ensures
        ran(state, params, timesteps, choice).wf(params),
        ran(state, params, timesteps, choice).failed_nodes == state.failed_nodes,
        holds(ran(state, params, timesteps, choice).failed_nodes, id),
        !holds(ran(state, params, timesteps, choice).nodes, id),
    decreases timesteps,
{
    if timesteps == 0 {
        assert(state.placed_once(params, id));
    } else {
        lemma_no_rejoin_in_run(state, params, (timesteps - 1) as nat, choice, id);
        lemma_no_rejoin(
            ran(state, params, (timesteps - 1) as nat, choice),
            params,
            (timesteps - 1) as u32,
            choice,
            id,
        );
    }
}

/// Determinism but for chance. The random choice matters to a run only if
/// the run inserts a failure: with no failure configured, or none left to
/// insert, or too few timesteps to reach `FAILURE_TIMESTEP`, two runs from
/// the same state end in the same state, with the same log and the same
/// queues, whatever is chosen.
pub proof fn lemma_determined_without_failure(
    state: RunState,
    params: Params,
    timesteps: nat,
    one: u32,
    other: u32,
)
    requires
        timesteps <= u32::MAX,
        !(timesteps > FAILURE_TIMESTEP && failure_due(state, params, FAILURE_TIMESTEP)),
    ensures
        ran(state, params, timesteps, one) == ran(state, params, timesteps, other),
        ran(state, params, timesteps, one).failure_inserted == state.failure_inserted,
    decreases timesteps,
{
    if timesteps > 0 {
        lemma_determined_without_failure(state, params, (timesteps - 1) as nat, one, other);
        let before = ran(state, params, (timesteps - 1) as nat, one);
        lemma_stepped_frame(before, params, (timesteps - 1) as u32, one);
        lemma_nodes_run(before, (timesteps - 1) as u32, before.nodes.len());
    }
}

/// No timestep touches the network: after any number of timesteps the
/// queues hold what they held before.
pub proof fn lemma_run_leaves_queues(state: RunState, params: Params, timesteps: nat, choice: u32)
    requires
        timesteps <= u32::MAX,
    ensures
        ran(state, params, timesteps, choice).queues == state.queues,
    decreases timesteps,
{
    if timesteps > 0 {
        lemma_run_leaves_queues(state, params, (timesteps - 1) as nat, choice);
        lemma_stepped_frame(
            ran(state, params, (timesteps - 1) as nat, choice),
            params,
            (timesteps - 1) as u32,
            choice,
        );
    }
}

} // verus!
