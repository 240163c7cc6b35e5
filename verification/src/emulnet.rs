//! The emulated network: one queue of incoming messages per endpoint.
//!
//! A message goes to the back of the queue of its destination, or nowhere: a
//! message for an endpoint that was never set up is discarded, and so is a
//! message that the drop policy picks. A receive takes the message at the
//! front of the queue of the endpoint that asks.

use crate::params::{Params, MAX_NODES, PROBABILITY_ONE};
use crate::random::random_below;
use std::collections::VecDeque;
use vstd::prelude::*;

verus! {

/// The queues after the message `(src, data)` has reached `dest`: it stands
/// last in the queue of `dest`. Without an endpoint `dest` nothing changes.
pub open spec fn delivered(
    queues: Seq<Seq<(u8, Seq<u8>)>>,
    src: u8,
    dest: u8,
    data: Seq<u8>,
) -> Seq<Seq<(u8, Seq<u8>)>> {
    if dest < queues.len() {
        queues.update(dest as int, queues[dest as int].push((src, data)))
    } else {
        queues
    }
}

/// Whether the drop policy of `params` discards a message for which `draw`
/// was drawn among the numbers below `PROBABILITY_ONE`.
pub open spec fn dropped(params: Params, draw: u32) -> bool {
    params.drop_messages && draw < params.dropped_message_probability
}

/// The queues after a send for which `draw` was drawn.
pub open spec fn sent(
    queues: Seq<Seq<(u8, Seq<u8>)>>,
    params: Params,
    src: u8,
    dest: u8,
    data: Seq<u8>,
    draw: u32,
) -> Seq<Seq<(u8, Seq<u8>)>> {
    if dropped(params, draw) {
        queues
    } else {
        delivered(queues, src, dest, data)
    }
}

/// The message that a receive for `id` returns: the oldest one waiting.
pub open spec fn oldest(queues: Seq<Seq<(u8, Seq<u8>)>>, id: u8) -> Option<(u8, Seq<u8>)> {
    if id < queues.len() && queues[id as int].len() > 0 {
        Some(queues[id as int][0])
    } else {
        None
    }
}

/// The queues after a receive for `id`.
pub open spec fn after_recv(queues: Seq<Seq<(u8, Seq<u8>)>>, id: u8) -> Seq<Seq<(u8, Seq<u8>)>> {
    if id < queues.len() && queues[id as int].len() > 0 {
        queues.update(id as int, queues[id as int].skip(1))
    } else {
        queues
    }
}

/// One thing that happens to the queues: a message reaches an endpoint, or an
/// endpoint asks for its oldest message.
pub enum NetStep {
    Deliver { src: u8, dest: u8, data: Seq<u8> },
    Receive { id: u8 },
}

/// The queues after `step`.
pub open spec fn after_step(queues: Seq<Seq<(u8, Seq<u8>)>>, step: NetStep) -> Seq<
    Seq<(u8, Seq<u8>)>,
> {
    match step {
        NetStep::Deliver { src, dest, data } => delivered(queues, src, dest, data),
        NetStep::Receive { id } => after_recv(queues, id),
    }
}

/// The queues after `steps`, taken one after the other.
pub open spec fn after_steps(queues: Seq<Seq<(u8, Seq<u8>)>>, steps: Seq<NetStep>) -> Seq<
    Seq<(u8, Seq<u8>)>,
>
    decreases steps.len(),
{
    if steps.len() == 0 {
        queues
    } else {
        after_step(after_steps(queues, steps.drop_last()), steps.last())
    }
}

/// The messages that the receives for `id` among `steps` return, in the order
/// of the receives.
pub open spec fn observed(queues: Seq<Seq<(u8, Seq<u8>)>>, steps: Seq<NetStep>, id: u8) -> Seq<
    (u8, Seq<u8>),
>
    decreases steps.len(),
{
    if steps.len() == 0 {
        Seq::empty()
    } else {
        let before = observed(queues, steps.drop_last(), id);
        match steps.last() {
            NetStep::Receive { id: asking } if asking == id => {
                match oldest(after_steps(queues, steps.drop_last()), id) {
                    Some(message) => before.push(message),
                    None => before,
                }
            },
            _ => before,
        }
    }
}

/// The messages that `steps` deliver to `id`, in the order of the deliveries.
pub open spec fn arrivals(steps: Seq<NetStep>, id: u8) -> Seq<(u8, Seq<u8>)>
    decreases steps.len(),
{
    if steps.len() == 0 {
        Seq::empty()
    } else {
        let before = arrivals(steps.drop_last(), id);
        match steps.last() {
            NetStep::Deliver { src, dest, data } if dest == id => before.push((src, data)),
            _ => before,
        }
    }
}

/// First in, first out, for each destination: whatever deliveries and
/// receives happen, from whatever senders and in whatever order, the messages
/// that the receives for an endpoint return, followed by those still waiting
/// for it, are the messages that waited for it at the start followed by those
/// delivered to it, in the order of their delivery. No step sets up or
/// removes an endpoint.
pub proof fn lemma_fifo_per_destination(
    queues: Seq<Seq<(u8, Seq<u8>)>>,
    steps: Seq<NetStep>,
    id: u8,
)
    requires
        id < queues.len(),
    ensures
        after_steps(queues, steps).len() == queues.len(),
        observed(queues, steps, id) + after_steps(queues, steps)[id as int] == queues[id as int]
            + arrivals(steps, id),
    decreases steps.len(),
{
    if steps.len() == 0 {
        assert(observed(queues, steps, id) + queues[id as int] =~= queues[id as int] + arrivals(
            steps,
            id,
        ));
    } else {
        lemma_fifo_per_destination(queues, steps.drop_last(), id);
        let before = after_steps(queues, steps.drop_last());
        let seen = observed(queues, steps.drop_last(), id);
        let came = arrivals(steps.drop_last(), id);
        let waiting = before[id as int];
        match steps.last() {
            NetStep::Deliver { src, dest, data } => {
                if dest == id {
                    assert(seen + waiting.push((src, data)) =~= (seen + waiting).push((src, data)));
                    assert((queues[id as int] + came).push((src, data)) =~= queues[id as int]
                        + came.push((src, data)));
                }
            },
            NetStep::Receive { id: asking } => {
                if asking == id && waiting.len() > 0 {
                    assert(seen.push(waiting[0]) + waiting.skip(1) =~= seen + waiting);
                }
            },
        }
    }
}

/// No message is delivered to the wrong endpoint: a send to `dest` leaves
/// the queue of every other endpoint as it was, so that a receive for another
/// endpoint returns what it would have returned without the send.
pub proof fn lemma_no_misdelivery(
    queues: Seq<Seq<(u8, Seq<u8>)>>,
    params: Params,
    src: u8,
    dest: u8,
    data: Seq<u8>,
    draw: u32,
    other: u8,
)
    requires
        other != dest,
    ensures
        sent(queues, params, src, dest, data, draw).len() == queues.len(),
        other < queues.len() ==> sent(queues, params, src, dest, data, draw)[other as int]
            == queues[other as int],
        oldest(sent(queues, params, src, dest, data, draw), other) == oldest(queues, other),
{
}

/// Without the drop policy nothing is left to chance: whatever is drawn, a
/// send delivers the message.
pub proof fn lemma_sent_without_drop(
    queues: Seq<Seq<(u8, Seq<u8>)>>,
    params: Params,
    src: u8,
    dest: u8,
    data: Seq<u8>,
    draw: u32,
)
    requires
        !params.drop_messages,
    ensures
        sent(queues, params, src, dest, data, draw) == delivered(queues, src, dest, data),
{
}

/// Among the numbers below `PROBABILITY_ONE` that can be drawn for a send,
/// exactly `dropped_message_probability` lose the message when messages may
/// be dropped, and none when they may not.
pub proof fn lemma_dropped_draws(params: Params)
    requires
        params.dropped_message_probability <= PROBABILITY_ONE,
    ensures
        Set::new(|draw: int| 0 <= draw < PROBABILITY_ONE && dropped(params, draw as u32)).finite(),
        Set::new(|draw: int| 0 <= draw < PROBABILITY_ONE && dropped(params, draw as u32)).len()
            == if params.drop_messages {
            params.dropped_message_probability as int
        } else {
            0
        },
{
    let losing = Set::new(|draw: int| 0 <= draw < PROBABILITY_ONE && dropped(params, draw as u32));
    let bound: int = if params.drop_messages {
        params.dropped_message_probability as int
    } else {
        0
    };
    vstd::set_lib::lemma_int_range(0, bound);
    assert(losing =~= vstd::set_lib::set_int_range(0, bound));
}

/// A queue as mathematical values: each payload by its bytes.
spec fn queue_view(queue: Seq<(u8, Vec<u8>)>) -> Seq<(u8, Seq<u8>)> {
    queue.map_values(|message: (u8, Vec<u8>)| (message.0, message.1@))
}

/// The emulated network. It never holds a sender up: a send returns at once,
/// whether or not the message was queued.
pub struct EmulNet {
    params: Params,
    message_buffer: Vec<VecDeque<(u8, Vec<u8>)>>,
}

impl View for EmulNet {
    type V = Seq<Seq<(u8, Seq<u8>)>>;

    /// The queues of the endpoints, by endpoint id. Each queue holds pairs of
    /// a sender and a payload, the oldest first.
    closed spec fn view(&self) -> Seq<Seq<(u8, Seq<u8>)>> {
        Seq::new(self.message_buffer@.len(), |id: int| queue_view(self.message_buffer@[id]@))
    }
}

impl EmulNet {
    /// The parameters that the network was created with.
    pub closed spec fn spec_params(&self) -> Params {
        self.params
    }

    /// Creates a new emulated network.
    ///
    /// # Arguments
    ///
    /// * `params` - Parameters for the emulated network.
    pub fn new(params: Params) -> (net: EmulNet)
        ensures
            net@ == Seq::<Seq<(u8, Seq<u8>)>>::empty(),
            net.params() == params,
    {
        let net = EmulNet { params, message_buffer: Vec::new() };
        assert(net@ =~= Seq::<Seq<(u8, Seq<u8>)>>::empty());
        net
    }

    /// The parameters that the network was created with.
    #[verifier::when_used_as_spec(spec_params)]
    pub fn params(&self) -> (params: Params)
        ensures
            params == self.spec_params(),
    {
        self.params
    }

    /// The number of endpoints that have been set up.
    pub fn endpoint_count(&self) -> (count: usize)
        ensures
            count == self@.len(),
    {
        self.message_buffer.len()
    }

    /// The number of messages waiting for `id`; none for an id without an
    /// endpoint.
    pub fn pending(&self, id: u8) -> (count: usize)
        ensures
            count == if id < self@.len() {
                self@[id as int].len()
            } else {
                0
            },
    {
        let id = id as usize;
        if id < self.message_buffer.len() {
            self.message_buffer[id].len()
        } else {
            0
        }
    }

    /// Initializes the emulated network structure with support for a new node.
    ///
    /// Returns the id of the new node: the number of endpoints set up before.
    /// Ids are single bytes, so no more than `MAX_NODES` endpoints can exist.
    pub fn initialize_new_endpoint(&mut self) -> (new_endpoint: u8)
        requires
            old(self)@.len() < MAX_NODES,
        ensures
            new_endpoint == old(self)@.len(),
            final(self)@ == old(self)@.push(Seq::empty()),
            final(self).params() == old(self).params(),
    {
        let new_endpoint = self.message_buffer.len() as u8;
        self.message_buffer.push(VecDeque::new());
        assert(self@ =~~= old(self)@.push(Seq::empty()));
        new_endpoint
    }

    /// Queues a message into the emulated network, unless the drop policy
    /// discards it. What happens is what `send_with_draw` does with a number
    /// drawn at random below `PROBABILITY_ONE`.
    ///
    /// # Arguments
    ///
    /// * `src` - The id of the sending node.
    /// * `dest` - The id of the node to receive the message.
    /// * `data` - The message.
    pub fn send(&mut self, src: u8, dest: u8, data: &Vec<u8>)
        ensures
            exists|draw: u32|
                draw < PROBABILITY_ONE && final(self)@ == #[trigger] sent(
                    old(self)@,
                    old(self).params(),
                    src,
                    dest,
                    data@,
                    draw,
                ),
            !old(self).params().drop_messages ==> final(self)@ == delivered(
                old(self)@,
                src,
                dest,
                data@,
            ),
            final(self).params() == old(self).params(),
    {
        let draw = if self.params.drop_messages {
            random_below(PROBABILITY_ONE)
        } else {
            0
        };
        self.send_with_draw(src, dest, data, draw);
    }

    /// Queues a message into the emulated network, unless the drop policy
    /// discards it for the number `draw`: with `drop_messages` set, a draw
    /// below `dropped_message_probability` loses the message.
    pub fn send_with_draw(&mut self, src: u8, dest: u8, data: &Vec<u8>, draw: u32)
        ensures
            final(self)@ == sent(old(self)@, old(self).params(), src, dest, data@, draw),
            final(self).params() == old(self).params(),
    {
        if self.params.drop_messages && draw < self.params.dropped_message_probability {
            return ;
        }
        let dest = dest as usize;
        if dest < self.message_buffer.len() {
            self.message_buffer[dest].push_back((src, data.clone()));
            assert(self@ =~~= delivered(old(self)@, src, dest as u8, data@));
        }
    }

    /// Reads a message out of the network if one is available.
    ///
    /// # Arguments
    ///
    /// * `id` - The id of the node to check for messages for.
    ///
    /// If a message is available, returns it as a tuple of the id that sent
    /// the message with the message. No message is available for an id
    /// without an endpoint.
    pub fn recv(&mut self, id: u8) -> (message: Option<(u8, Vec<u8>)>)
        ensures
            match message {
                Some((sender, data)) => oldest(old(self)@, id) == Some((sender, data@)),
                None => oldest(old(self)@, id) is None,
            },
            final(self)@ == after_recv(old(self)@, id),
            final(self).params() == old(self).params(),
    {
        let index = id as usize;
        if index < self.message_buffer.len() {
            let message = self.message_buffer[index].pop_front();
            assert(self@ =~~= after_recv(old(self)@, id));
            message
        } else {
            None
        }
    }
}

} // verus!
