//! The echo protocol: a node that answers every `echo` with what it was sent.

use crate::{
    answered, came_to, emitted, failed, send_reply, silent, Event, EventView, Init, Message,
    Node, Outcome, StepError, FIRST_MESSAGE_ID,
};
use crate::names;
use vstd::prelude::*;

verus! {

/// What an echo node receives and sends.
#[derive(Debug, Clone)]
pub enum EchoPayload {
    Echo { echo: String },
    EchoOk { echo: String },
    Init { node_id: String, node_ids: Vec<String> },
    InitOk,
}

/// An echo payload as the contracts see it.
pub enum EchoPayloadView {
    Echo { echo: Seq<char> },
    EchoOk { echo: Seq<char> },
    Init { node_id: Seq<char>, node_ids: Seq<Seq<char>> },
    InitOk,
}

impl View for EchoPayload {
    type V = EchoPayloadView;

    open spec fn view(&self) -> EchoPayloadView {
        match *self {
            EchoPayload::Echo { echo } => EchoPayloadView::Echo { echo: echo@ },
            EchoPayload::EchoOk { echo } => EchoPayloadView::EchoOk { echo: echo@ },
            EchoPayload::Init { node_id, node_ids } => EchoPayloadView::Init {
                node_id: node_id@,
                node_ids: names(node_ids@),
            },
            EchoPayload::InitOk => EchoPayloadView::InitOk,
        }
    }
}

/// A node that echoes. All it remembers is the next free message id.
#[derive(Debug)]
pub struct EchoNode {
    id: usize,
}

/// The state of an echo node as the contracts see it.
pub struct EchoState {
    pub next_id: usize,
}

impl View for EchoNode {
    type V = EchoState;

    closed spec fn view(&self) -> EchoState {
        EchoState { next_id: self.id }
    }
}

/// The state after one more message id has been used.
pub open spec fn echo_replied(s: EchoState) -> EchoState {
    EchoState { next_id: (s.next_id + 1) as usize }
}

/// What an echo node does with an event.
///
/// An `echo` is answered with an `echo_ok` that carries the same text, an
/// `init` with an `init_ok`. An `init_ok` is refused, since the node never
/// asked for one. Everything else is passed over.
pub open spec fn echo_step(s: EchoState, input: EventView<EchoPayloadView, ()>) -> Outcome<
    EchoState,
    EchoPayloadView,
> {
    match input {
        EventView::Message(m) => match m.payload {
            EchoPayloadView::Echo { echo } => answered(
                s,
                echo_replied(s),
                m,
                s.next_id,
                EchoPayloadView::EchoOk { echo },
            ),
            EchoPayloadView::Init { .. } => answered(
                s,
                echo_replied(s),
                m,
                s.next_id,
                EchoPayloadView::InitOk,
            ),
            EchoPayloadView::InitOk => failed(s, StepError::UnexpectedInitOk),
            EchoPayloadView::EchoOk { .. } => silent(s),
        },
        EventView::Injected(_) => silent(s),
        EventView::EOF => silent(s),
    }
}

impl EchoNode {
    /// A node that has handled nothing yet.
    pub fn new() -> (node: Self)
        ensures
            node@ == (EchoState { next_id: FIRST_MESSAGE_ID }),
    {
        EchoNode { id: FIRST_MESSAGE_ID }
    }
}

impl Node<EchoPayload, ()> for EchoNode {
    open spec fn inv(&self) -> bool {
        true
    }

    open spec fn next_id(&self) -> usize {
        self@.next_id
    }

    /// An echo node has no use for the membership.
    fn from_init(init: Init) -> (node: Self)
        ensures
            node@ == (EchoState { next_id: FIRST_MESSAGE_ID }),
    {
        EchoNode::new()
    }

    fn step(&mut self, input: Event<EchoPayload, ()>, output: &mut Vec<Message<EchoPayload>>) -> (r:
        Result<(), StepError>)
        ensures
            came_to(
                echo_step(old(self)@, input@),
                r,
                final(self)@,
                emitted(old(output)@, final(output)@),
            ),
    {
        proof {
            assert(emitted(output@, output@) =~= Seq::empty());
        }
        match &input {
            Event::Message(request) => match &request.body.payload {
                EchoPayload::Echo { echo } => send_reply(
                    request,
                    EchoPayload::EchoOk { echo: echo.clone() },
                    &mut self.id,
                    output,
                ),
                EchoPayload::Init { .. } => send_reply(
                    request,
                    EchoPayload::InitOk,
                    &mut self.id,
                    output,
                ),
                EchoPayload::InitOk => Err(StepError::UnexpectedInitOk),
                EchoPayload::EchoOk { .. } => Ok(()),
            },
            Event::Injected(_) => Ok(()),
            Event::EOF => Ok(()),
        }
    }
}

} // verus!
