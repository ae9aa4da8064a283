//! Building blocks for nodes of a message-passing cluster.
//!
//! A node receives [`Event`]s one at a time, changes its own state and
//! appends the messages it wants delivered to an outbox. The envelope types
//! and the rule by which a reply is tied to its request live here; the
//! protocol handlers live in the modules below.

use vstd::prelude::*;

pub mod broadcast;
pub mod broadcast_cluster;
pub mod counter;
pub mod counter_cluster;
pub mod echo;
pub mod kafkalog;
pub mod str_map;

verus! {

/// A message on the wire: who sent it, who is to get it, and what it says.
#[derive(Debug, Clone)]
pub struct Message<Payload> {
    pub src: String,
    pub dst: String,
    pub body: Body<Payload>,
}

/// The part of a message that the protocol reads.
///
/// `id` is the sender's own number for the message, `in_reply_to` the number
/// of the request that it answers.
#[derive(Debug, Clone)]
pub struct Body<Payload> {
    pub id: Option<usize>,
    pub in_reply_to: Option<usize>,
    pub payload: Payload,
}

/// The identity of a node and the members of its cluster, fixed at start.
#[derive(Debug, Clone)]
pub struct Init {
    pub node_id: String,
    pub node_ids: Vec<String>,
}

/// What a node is asked to handle: a message from the bus, an event that the
/// node's own timers inject, or the end of the input.
#[derive(Debug, Clone)]
pub enum Event<Payload, InjectedPayload> {
    Message(Message<Payload>),
    Injected(InjectedPayload),
    EOF,
}

/// Why a node refuses to go on.
#[derive(Debug, Clone, Copy, PartialEq, Eq, Structural)]
pub enum StepError {
    /// A request that must be answered carries no message id.
    MissingMessageId,
    /// Every message id has been handed out.
    IdsExhausted,
    /// A topology assignment has no entry for the node that received it.
    MissingTopology,
    /// A counter left the range of a 64-bit signed integer.
    CounterOverflow,
    /// An acknowledgement of a handshake arrived at a node that never asked.
    UnexpectedInitOk,
    /// A log has no offset left to give.
    OffsetsExhausted,
}

impl StepError {
    /// What went wrong, in words.
    pub open spec fn description(self) -> Seq<char> {
        match self {
            StepError::MissingMessageId => "request carries no message id"@,
            StepError::IdsExhausted => "no message id is left"@,
            StepError::MissingTopology => "topology has no entry for this node"@,
            StepError::CounterOverflow => "counter does not fit in 64 bits"@,
            StepError::UnexpectedInitOk => "init_ok received"@,
            StepError::OffsetsExhausted => "no offset is left for the key"@,
        }
    }

    /// What went wrong, in words.
    pub fn describe(&self) -> (text: String)
        ensures
            text@ == self.description(),
    {
        match self {
            StepError::MissingMessageId => "request carries no message id".to_owned(),
            StepError::IdsExhausted => "no message id is left".to_owned(),
            StepError::MissingTopology => "topology has no entry for this node".to_owned(),
            StepError::CounterOverflow => "counter does not fit in 64 bits".to_owned(),
            StepError::UnexpectedInitOk => "init_ok received".to_owned(),
            StepError::OffsetsExhausted => "no offset is left for the key".to_owned(),
        }
    }
}

/// The first id that a node gives to a message of its own.
pub const FIRST_MESSAGE_ID: usize = 1;

/// A list of names as the contracts see it.
pub open spec fn names(list: Seq<String>) -> Seq<Seq<char>> {
    list.map_values(|name: String| name@)
}

/// A message as the contracts see it: strings as sequences of characters and
/// the payload by its own view.
pub struct MessageView<P> {
    pub src: Seq<char>,
    pub dst: Seq<char>,
    pub id: Option<usize>,
    pub in_reply_to: Option<usize>,
    pub payload: P,
}

impl<Payload: View> View for Message<Payload> {
    type V = MessageView<Payload::V>;

    open spec fn view(&self) -> MessageView<Payload::V> {
        MessageView {
            src: self.src@,
            dst: self.dst@,
            id: self.body.id,
            in_reply_to: self.body.in_reply_to,
            payload: self.body.payload@,
        }
    }
}

/// An event as the contracts see it.
pub enum EventView<P, InjectedPayload> {
    Message(MessageView<P>),
    Injected(InjectedPayload),
    EOF,
}

impl<Payload: View, InjectedPayload> View for Event<Payload, InjectedPayload> {
    type V = EventView<Payload::V, InjectedPayload>;

    open spec fn view(&self) -> EventView<Payload::V, InjectedPayload> {
        match *self {
            Event::Message(m) => EventView::Message(m@),
            Event::Injected(i) => EventView::Injected(i),
            Event::EOF => EventView::EOF,
        }
    }
}

/// The reply to `request` that carries `payload` under the message id `id`:
/// the addresses are swapped and the request's id is echoed.
pub open spec fn reply_to<P>(request: MessageView<P>, id: usize, payload: P) -> MessageView<P> {
    MessageView { src: request.dst, dst: request.src, id: Some(id), in_reply_to: request.id, payload }
}

/// The message that `src` sends to `dst` on its own account: it has no id and
/// answers nothing.
pub open spec fn unsolicited<P>(src: Seq<char>, dst: Seq<char>, payload: P) -> MessageView<P> {
    MessageView { src, dst, id: None, in_reply_to: None, payload }
}

/// Whether `request` can be answered when `next_id` is the next free message
/// id, and if not, why.
///
/// A request without an id cannot be answered, since the answer could not
/// name it. An answer needs an id of its own, and the counter must be able to
/// move past it.
pub open spec fn reply_outcome<P>(request: MessageView<P>, next_id: usize) -> Result<
    (),
    StepError,
> {
    if request.id is None {
        Err(StepError::MissingMessageId)
    } else if next_id == usize::MAX {
        Err(StepError::IdsExhausted)
    } else {
        Ok(())
    }
}

/// Whether `request` can be answered when `next_id` is the next free message
/// id, and if not, why.
pub fn check_reply<Payload: View>(request: &Message<Payload>, next_id: usize) -> (r: Result<
    (),
    StepError,
>)
    ensures
        r == reply_outcome(request@, next_id),
{
    if request.body.id.is_none() {
        Err(StepError::MissingMessageId)
    } else if next_id == usize::MAX {
        Err(StepError::IdsExhausted)
    } else {
        Ok(())
    }
}

/// Builds the reply to `request` that carries `payload`.
///
/// The reply goes back to where the request came from, takes the next free
/// message id and names the request's id as the one it answers. Where no reply
/// can be built the counter stays as it was.
pub fn build_reply<Payload: View>(
    request: &Message<Payload>,
    payload: Payload,
    next_id: &mut usize,
) -> (r: Result<Message<Payload>, StepError>)
    ensures
        match r {
            Ok(reply) => {
                &&& reply_outcome(request@, *old(next_id)) is Ok
                &&& reply@ == reply_to(request@, *old(next_id), payload@)
                &&& reply.body.payload == payload
                &&& *final(next_id) == *old(next_id) + 1
            },
            Err(e) => {
                &&& reply_outcome(request@, *old(next_id)) == Err::<(), StepError>(e)
                &&& *final(next_id) == *old(next_id)
            },
        },
{
    if request.body.id.is_none() {
        return Err(StepError::MissingMessageId);
    }
    if *next_id == usize::MAX {
        return Err(StepError::IdsExhausted);
    }
    let id: usize = *next_id;
    *next_id = id + 1;
    Ok(
        Message {
            src: request.dst.clone(),
            dst: request.src.clone(),
            body: Body { id: Some(id), in_reply_to: request.body.id, payload },
        },
    )
}

/// Builds a message that `src` sends to `dst` on its own account.
pub fn build_unsolicited<Payload: View>(src: &String, dst: &String, payload: Payload) -> (m:
    Message<Payload>)
    ensures
        m@ == unsolicited(src@, dst@, payload@),
        m.body.payload == payload,
{
    Message { src: src.clone(), dst: dst.clone(), body: Body { id: None, in_reply_to: None, payload } }
}

/// The views of the messages that were appended to an outbox that held
/// `before` and now holds `after`.
pub open spec fn emitted<Payload: View>(
    before: Seq<Message<Payload>>,
    after: Seq<Message<Payload>>,
) -> Seq<MessageView<Payload::V>> {
    Seq::new(
        (after.len() - before.len()) as nat,
        |i: int| after[before.len() + i]@,
    )
}

/// What one step comes to: whether the node goes on, the state it is left
/// in, and the messages it wants sent, in order.
pub struct Outcome<S, P> {
    pub result: Result<(), StepError>,
    pub state: S,
    pub emitted: Seq<MessageView<P>>,
}

/// The outcome of a step that changes the state to `state` and sends nothing.
pub open spec fn silent<S, P>(state: S) -> Outcome<S, P> {
    Outcome { result: Ok(()), state, emitted: Seq::empty() }
}

/// The outcome of a step that fails with `e`: the state stays and nothing is
/// sent.
pub open spec fn failed<S, P>(state: S, e: StepError) -> Outcome<S, P> {
    Outcome { result: Err(e), state, emitted: Seq::empty() }
}

/// The outcome of answering `request` with `payload` while moving to `state`,
/// where `next_id` is the next free message id: the one reply, or the failure
/// to build it, in which case `unchanged` stays the state.
pub open spec fn answered<S, P>(
    unchanged: S,
    state: S,
    request: MessageView<P>,
    next_id: usize,
    payload: P,
) -> Outcome<S, P> {
    match reply_outcome(request, next_id) {
        Ok(_) => Outcome {
            result: Ok(()),
            state,
            emitted: seq![reply_to(request, next_id, payload)],
        },
        Err(e) => failed(unchanged, e),
    }
}

/// Whether a step that returned `result`, left the node in `state` and
/// appended `emitted` to the outbox came to `outcome`.
pub open spec fn came_to<S, P>(
    outcome: Outcome<S, P>,
    result: Result<(), StepError>,
    state: S,
    emitted: Seq<MessageView<P>>,
) -> bool {
    &&& result == outcome.result
    &&& state == outcome.state
    &&& emitted == outcome.emitted
}

/// What holds of the messages that one step emits, whatever the protocol.
///
/// `first_id` and `next_id` are the node's next free message id before and
/// after the step. Ids are taken from that range in rising order, and a
/// message that answers something answers the message that was handled and
/// goes back to its sender.
pub open spec fn well_correlated<P, InjectedPayload>(
    input: EventView<P, InjectedPayload>,
    first_id: usize,
    next_id: usize,
    emitted: Seq<MessageView<P>>,
) -> bool {
    &&& first_id <= next_id
    &&& forall|i: int|
        0 <= i < emitted.len() ==> match (#[trigger] emitted[i]).id {
            Some(id) => first_id <= id < next_id,
            None => true,
        }
    &&& forall|i: int, j: int|
        0 <= i < j < emitted.len() && (#[trigger] emitted[i]).id is Some && (
        #[trigger] emitted[j]).id is Some ==> emitted[i].id->0 < emitted[j].id->0
    &&& forall|i: int|
        0 <= i < emitted.len() && (#[trigger] emitted[i]).in_reply_to is Some ==> {
            &&& input matches EventView::Message(request)
            &&& emitted[i].in_reply_to == request.id
            &&& emitted[i].src == request.dst
            &&& emitted[i].dst == request.src
        }
}

/// A protocol handler: the state of one node and its reaction to one event.
///
/// The runtime owns the node, hands it the events in the order in which they
/// arrive, one at a time, and delivers what the node appends to `output`.
/// Timers belong to the runtime too: what they produce reaches the node as
/// injected events. A step that fails is the end of the node.
pub trait Node<Payload: View, InjectedPayload>: Sized {
    /// What holds of the node's state between any two steps.
    spec fn inv(&self) -> bool;

    /// The id that the node's next numbered message will carry.
    spec fn next_id(&self) -> usize;

    /// The state of a node that has handled nothing yet.
    fn from_init(init: Init) -> (node: Self)
        ensures
            node.inv(),
            node.next_id() == FIRST_MESSAGE_ID,
    ;

    /// Handles one event. Messages to be sent are appended to `output`;
    /// what was in it stays.
    fn step(
        &mut self,
        input: Event<Payload, InjectedPayload>,
        output: &mut Vec<Message<Payload>>,
    ) -> (r: Result<(), StepError>)
        requires
            old(self).inv(),
        ensures
            final(self).inv(),
            old(output)@.len() <= final(output)@.len(),
            final(output)@.subrange(0, old(output)@.len() as int) == old(output)@,
            well_correlated(
                input@,
                old(self).next_id(),
                final(self).next_id(),
                emitted(old(output)@, final(output)@),
            ),
    ;
}

/// Appends the reply to `request` that carries `payload` to `output`, if one
/// can be built.
pub fn send_reply<Payload: View>(
    request: &Message<Payload>,
    payload: Payload,
    next_id: &mut usize,
    output: &mut Vec<Message<Payload>>,
) -> (r: Result<(), StepError>)
    ensures
        r == reply_outcome(request@, *old(next_id)),
        match r {
            Ok(_) => {
                &&& *final(next_id) == *old(next_id) + 1
                &&& final(output)@.len() == old(output)@.len() + 1
                &&& final(output)@.drop_last() == old(output)@
                &&& final(output)@.last()@ == reply_to(request@, *old(next_id), payload@)
                &&& final(output)@.last().body.payload == payload
                &&& emitted(old(output)@, final(output)@) == seq![
                    reply_to(request@, *old(next_id), payload@),
                ]
            },
            Err(_) => {
                &&& *final(next_id) == *old(next_id)
                &&& final(output)@ == old(output)@
                &&& emitted(old(output)@, final(output)@) == Seq::<
                    MessageView<Payload::V>,
                >::empty()
            },
        },
{
    match build_reply(request, payload, next_id) {
        Ok(reply) => {
            output.push(reply);
            proof {
                assert(final(output)@.drop_last() =~= old(output)@);
                assert(emitted(old(output)@, output@) =~= seq![
                    reply_to(request@, *old(next_id), payload@),
                ]);
            }
            Ok(())
        },
        Err(e) => {
            Err(e)
        },
    }
}

/// What passes between a node and the world before the node handles
/// anything else: the world tells the node who it is and who the members of
/// its cluster are, and the node acknowledges.
#[derive(Debug, Clone)]
pub enum InitPayload {
    Init { node_id: String, node_ids: Vec<String> },
    InitOk,
}

/// A handshake payload as the contracts see it.
pub enum InitPayloadView {
    Init { node_id: Seq<char>, node_ids: Seq<Seq<char>> },
    InitOk,
}

impl View for InitPayload {
    type V = InitPayloadView;

    open spec fn view(&self) -> InitPayloadView {
        match *self {
            InitPayload::Init { node_id, node_ids } => InitPayloadView::Init {
                node_id: node_id@,
                node_ids: names(node_ids@),
            },
            InitPayload::InitOk => InitPayloadView::InitOk,
        }
    }
}

/// The id of the acknowledgement of the handshake. It comes before every id
/// that the node gives out afterwards.
pub const HANDSHAKE_MESSAGE_ID: usize = 0;

/// Whether the message `first` opens a handshake that can be acknowledged,
/// and if not, why.
pub open spec fn handshake_outcome(first: MessageView<InitPayloadView>) -> Result<(), StepError> {
    if first.payload is InitOk {
        Err(StepError::UnexpectedInitOk)
    } else if first.id is None {
        Err(StepError::MissingMessageId)
    } else {
        Ok(())
    }
}

/// Takes the first message that a node receives. Where it tells the node who
/// it is, the result is that identity, from which the node is built, and the
/// acknowledgement to send back.
pub fn handshake(first: Message<InitPayload>) -> (r: Result<
    (Init, Message<InitPayload>),
    StepError,
>)
    ensures
        match r {
            Ok((init, reply)) => {
                &&& handshake_outcome(first@) is Ok
                &&& first@.payload == (InitPayloadView::Init {
                    node_id: init.node_id@,
                    node_ids: names(init.node_ids@),
                })
                &&& reply@ == reply_to(first@, HANDSHAKE_MESSAGE_ID, InitPayloadView::InitOk)
            },
            Err(e) => handshake_outcome(first@) == Err::<(), StepError>(e),
        },
{
    let Message { src, dst, body } = first;
    match body.payload {
        InitPayload::InitOk => Err(StepError::UnexpectedInitOk),
        InitPayload::Init { node_id, node_ids } => {
            if body.id.is_none() {
                return Err(StepError::MissingMessageId);
            }
            let reply = Message {
                src: dst,
                dst: src,
                body: Body {
                    id: Some(HANDSHAKE_MESSAGE_ID),
                    in_reply_to: body.id,
                    payload: InitPayload::InitOk,
                },
            };
            Ok((Init { node_id, node_ids }, reply))
        },
    }
}

} // verus!
