//! Broadcast by gossip: every value that any node is told of reaches every
//! node, along the edges of a topology.
//!
//! A node keeps the set of values it has seen and, for each peer, the set of
//! values that it believes the peer to have. On every tick it sends each
//! neighbour the values that it does not believe the neighbour to have. What
//! it believes of a peer grows only by what the peer itself has sent, so the
//! belief never claims more than the peer has, and it only ever spares
//! traffic: a node that believes nothing of its peers sends them everything.

use crate::str_map::StrMap;
use crate::{
    answered, build_unsolicited, came_to, emitted, failed, names, send_reply, silent,
    unsolicited, Event, EventView, Init, Message, MessageView, Node, Outcome, StepError,
    FIRST_MESSAGE_ID,
};
use std::collections::HashSet;
use vstd::prelude::*;

verus! {

/// How long a node waits between two rounds of gossip, in milliseconds.
pub const GOSSIP_PERIOD_MS: u64 = 300;

/// What a broadcast node receives and sends.
#[derive(Debug)]
pub enum BroadcastPayload {
    Broadcast { message: usize },
    BroadcastOk,
    Read,
    ReadOk { messages: HashSet<usize> },
    Topology { topology: StrMap<Vec<String>> },
    TopologyOk,
    Gossip { seen: HashSet<usize> },
}

/// What a broadcast node's own timer injects.
#[derive(Debug, Clone, Copy, PartialEq, Eq, Structural)]
pub enum BroadcastInjected {
    /// It is time to gossip.
    Gossip,
}

/// A broadcast payload as the contracts see it.
pub enum BroadcastPayloadView {
    Broadcast { message: usize },
    BroadcastOk,
    Read,
    ReadOk { messages: Set<usize> },
    Topology { topology: Map<Seq<char>, Seq<Seq<char>>> },
    TopologyOk,
    Gossip { seen: Set<usize> },
}

/// A topology, each list of neighbours as a sequence of names.
pub open spec fn neighbours(topology: Map<Seq<char>, Vec<String>>) -> Map<
    Seq<char>,
    Seq<Seq<char>>,
> {
    Map::new(|k: Seq<char>| topology.contains_key(k), |k: Seq<char>| names(topology[k]@))
}

impl View for BroadcastPayload {
    type V = BroadcastPayloadView;

    open spec fn view(&self) -> BroadcastPayloadView {
        match *self {
            BroadcastPayload::Broadcast { message } => BroadcastPayloadView::Broadcast { message },
            BroadcastPayload::BroadcastOk => BroadcastPayloadView::BroadcastOk,
            BroadcastPayload::Read => BroadcastPayloadView::Read,
            BroadcastPayload::ReadOk { messages } => BroadcastPayloadView::ReadOk {
                messages: messages@,
            },
            BroadcastPayload::Topology { topology } => BroadcastPayloadView::Topology {
                topology: neighbours(topology@),
            },
            BroadcastPayload::TopologyOk => BroadcastPayloadView::TopologyOk,
            BroadcastPayload::Gossip { seen } => BroadcastPayloadView::Gossip { seen: seen@ },
        }
    }
}

/// The state of a broadcast node as the contracts see it.
#[verifier::ext_equal]
pub struct BroadcastState {
    /// The node's own name.
    pub node: Seq<char>,
    pub next_id: usize,
    /// Every value that the node has seen.
    pub messages: Set<usize>,
    /// The peers that the node gossips to, in the order of the topology.
    pub neighborhood: Seq<Seq<char>>,
    /// What the node believes each peer to have seen.
    pub known: Map<Seq<char>, Set<usize>>,
}

impl BroadcastState {
    /// What the node believes `peer` to have seen: nothing, where it has no
    /// record of the peer.
    pub open spec fn known_to(self, peer: Seq<char>) -> Set<usize> {
        if self.known.contains_key(peer) {
            self.known[peer]
        } else {
            Set::empty()
        }
    }

    /// What the node would tell `peer` in a round of gossip: the values it
    /// has seen and does not believe the peer to have.
    pub open spec fn news_for(self, peer: Seq<char>) -> Set<usize> {
        self.messages.difference(self.known_to(peer))
    }

    /// The state after `seen` has arrived from `peer`: the values are now
    /// seen, and the peer is believed to have them.
    pub open spec fn heard(self, peer: Seq<char>, seen: Set<usize>) -> BroadcastState {
        BroadcastState {
            messages: self.messages.union(seen),
            known: self.known.insert(peer, self.known_to(peer).union(seen)),
            ..self
        }
    }

    /// The messages of one round of gossip: one to each neighbour, in order,
    /// with the news for that neighbour, be it empty.
    pub open spec fn gossip(self) -> Seq<MessageView<BroadcastPayloadView>> {
        Seq::new(
            self.neighborhood.len(),
            |i: int|
                unsolicited(
                    self.node,
                    self.neighborhood[i],
                    BroadcastPayloadView::Gossip { seen: self.news_for(self.neighborhood[i]) },
                ),
        )
    }

    /// The state of the node `node_id` of a cluster of `node_ids` that has
    /// handled nothing yet: it has seen nothing, has no neighbours, and
    /// believes of each member that it has seen nothing.
    pub open spec fn initial(node_id: Seq<char>, node_ids: Seq<Seq<char>>) -> BroadcastState {
        BroadcastState {
            node: node_id,
            next_id: FIRST_MESSAGE_ID,
            messages: Set::empty(),
            neighborhood: Seq::empty(),
            known: Map::new(|k: Seq<char>| node_ids.contains(k), |k: Seq<char>| Set::empty()),
        }
    }
}

/// What holds of a broadcast node between any two steps: it never believes
/// a peer to have a value that it has not seen itself.
pub open spec fn broadcast_inv(s: BroadcastState) -> bool {
    forall|peer: Seq<char>| #[trigger]
        s.known.contains_key(peer) ==> s.known[peer].subset_of(s.messages)
}

/// The state after one more message id has been used.
pub open spec fn broadcast_replied(s: BroadcastState) -> BroadcastState {
    BroadcastState { next_id: (s.next_id + 1) as usize, ..s }
}

/// What a broadcast node does with an event.
///
/// A `broadcast` adds its value to what the node has seen and is
/// acknowledged. A `read` is answered with all that the node has seen. A
/// `topology` makes the node's entry its list of neighbours and is
/// acknowledged; one without an entry for the node is refused. A `gossip`
/// is taken in and not answered. A tick sends one round of gossip and
/// changes nothing. A request that cannot be answered fails and changes
/// nothing. Acknowledgements and the end of the input are passed over.
pub open spec fn broadcast_step(
    s: BroadcastState,
    input: EventView<BroadcastPayloadView, BroadcastInjected>,
) -> Outcome<BroadcastState, BroadcastPayloadView> {
    match input {
        EventView::Message(m) => match m.payload {
            BroadcastPayloadView::Broadcast { message } => answered(
                s,
                BroadcastState { messages: s.messages.insert(message), ..broadcast_replied(s) },
                m,
                s.next_id,
                BroadcastPayloadView::BroadcastOk,
            ),
            BroadcastPayloadView::Read => answered(
                s,
                broadcast_replied(s),
                m,
                s.next_id,
                BroadcastPayloadView::ReadOk { messages: s.messages },
            ),
            BroadcastPayloadView::Topology { topology } => {
                if topology.contains_key(s.node) {
                    answered(
                        s,
                        BroadcastState { neighborhood: topology[s.node], ..broadcast_replied(s) },
                        m,
                        s.next_id,
                        BroadcastPayloadView::TopologyOk,
                    )
                } else {
                    failed(s, StepError::MissingTopology)
                }
            },
            BroadcastPayloadView::Gossip { seen } => silent(s.heard(m.src, seen)),
            BroadcastPayloadView::BroadcastOk => silent(s),
            BroadcastPayloadView::ReadOk { .. } => silent(s),
            BroadcastPayloadView::TopologyOk => silent(s),
        },
        EventView::Injected(BroadcastInjected::Gossip) => Outcome {
            result: Ok(()),
            state: s,
            emitted: s.gossip(),
        },
        EventView::EOF => silent(s),
    }
}

/// Whatever a broadcast node handles, it goes on believing of no peer more
/// than it has seen itself.
pub proof fn lemma_broadcast_step_keeps_inv(
    s: BroadcastState,
    input: EventView<BroadcastPayloadView, BroadcastInjected>,
)
    requires
        broadcast_inv(s),
    ensures
        broadcast_inv(broadcast_step(s, input).state),
{
    let after = broadcast_step(s, input).state;
    assert forall|peer: Seq<char>| #[trigger] after.known.contains_key(peer) implies after.known[peer].subset_of(
        after.messages,
    ) by {
        if s.known.contains_key(peer) {
            assert(s.known[peer].subset_of(s.messages));
        }
    }
}

/// Taking in the same gossip a second time changes nothing: not what the
/// node has seen, and no other part of its state.
pub proof fn lemma_gossip_idempotent(s: BroadcastState, gossip: MessageView<BroadcastPayloadView>)
    requires
        gossip.payload is Gossip,
    ensures
        ({
            let once = broadcast_step(s, EventView::Message(gossip)).state;
            let twice = broadcast_step(once, EventView::Message(gossip)).state;
            &&& once == s.heard(gossip.src, gossip.payload->seen)
            &&& twice.messages == once.messages
            &&& twice == once
        }),
{
    let once = s.heard(gossip.src, gossip.payload->seen);
    assert(once.heard(gossip.src, gossip.payload->seen) =~~= once);
}

/// Gossip from two peers may arrive in either order: what the node has seen
/// afterwards is the same.
pub proof fn lemma_gossip_commutes(
    s: BroadcastState,
    p: Seq<char>,
    a: Set<usize>,
    q: Seq<char>,
    b: Set<usize>,
)
    ensures
        s.heard(p, a).heard(q, b).messages == s.heard(q, b).heard(p, a).messages,
        s.heard(p, a).heard(q, b) == s.heard(q, b).heard(p, a),
{
    assert(s.heard(p, a).heard(q, b) =~~= s.heard(q, b).heard(p, a));
}

/// Puts every value of `from` into `into`.
pub fn merge_into(into: &mut HashSet<usize>, from: &HashSet<usize>)
    ensures
        final(into)@ == old(into)@.union(from@),
{
    for value in it: from.iter()
        invariant
            forall|j: int| 0 <= j < it.index() ==> into@.contains(*it.seq()[j]),
            forall|v: usize| into@.contains(v) ==> old(into)@.contains(v) || from@.contains(v),
            forall|v: usize| old(into)@.contains(v) ==> into@.contains(v),
    {
        into.insert(*value);
    }
}

/// The values of `all` that are not in `without`.
pub fn difference(all: &HashSet<usize>, without: &HashSet<usize>) -> (rest: HashSet<usize>)
    ensures
        rest@ == all@.difference(without@),
{
    let mut rest: HashSet<usize> = HashSet::new();
    for value in it: all.iter()
        invariant
            forall|j: int|
                0 <= j < it.index() && !without@.contains(*it.seq()[j]) ==> rest@.contains(
                    *it.seq()[j],
                ),
            forall|v: usize| rest@.contains(v) ==> all@.contains(v) && !without@.contains(v),
    {
        if !without.contains(value) {
            rest.insert(*value);
        }
    }
    rest
}

/// A broadcast node.
#[derive(Debug)]
pub struct BroadcastNode {
    node: String,
    id: usize,
    messages: HashSet<usize>,
    neighborhood: Vec<String>,
    known: StrMap<HashSet<usize>>,
}

impl View for BroadcastNode {
    type V = BroadcastState;

    closed spec fn view(&self) -> BroadcastState {
        BroadcastState {
            node: self.node@,
            next_id: self.id,
            messages: self.messages@,
            neighborhood: names(self.neighborhood@),
            known: Map::new(
                |k: Seq<char>| self.known@.contains_key(k),
                |k: Seq<char>| self.known@[k]@,
            ),
        }
    }
}

impl BroadcastNode {
    /// Takes in the values `seen` that `peer` has sent.
    fn hear(&mut self, peer: &String, seen: &HashSet<usize>)
        ensures
            final(self)@ == old(self)@.heard(peer@, seen@),
    {
        let mut believed = match self.known.remove(peer) {
            Some(believed) => believed,
            None => HashSet::new(),
        };
        merge_into(&mut believed, seen);
        self.known.insert(peer.clone(), believed);
        merge_into(&mut self.messages, seen);
    }

    /// What the node would tell `peer` in a round of gossip.
    fn news_for(&self, peer: &String) -> (news: HashSet<usize>)
        ensures
            news@ == self@.news_for(peer@),
    {
        match self.known.get(peer) {
            Some(believed) => difference(&self.messages, believed),
            None => {
                let nothing: HashSet<usize> = HashSet::new();
                difference(&self.messages, &nothing)
            },
        }
    }

    /// Sends one round of gossip.
    fn gossip(&self, output: &mut Vec<Message<BroadcastPayload>>)
        ensures
            old(output)@.len() <= final(output)@.len(),
            final(output)@.subrange(0, old(output)@.len() as int) == old(output)@,
            emitted(old(output)@, final(output)@) == self@.gossip(),
    {
        let mut i: usize = 0;
        while i < self.neighborhood.len()
            invariant
                i <= self.neighborhood@.len(),
                output@.len() == old(output)@.len() + i,
                output@.subrange(0, old(output)@.len() as int) == old(output)@,
                forall|j: int|
                    0 <= j < i ==> (#[trigger] output@[old(output)@.len() + j])@
                        == self@.gossip()[j],
            decreases self.neighborhood@.len() - i,
        {
            let peer = &self.neighborhood[i];
            let seen = self.news_for(peer);
            let message = build_unsolicited(&self.node, peer, BroadcastPayload::Gossip { seen });
            let ghost before = output@;
            output.push(message);
            proof {
                assert(output@.subrange(0, old(output)@.len() as int) =~= before.subrange(
                    0,
                    old(output)@.len() as int,
                ));
                assert forall|j: int| 0 <= j < i + 1 implies (#[trigger] output@[old(
                    output,
                )@.len() + j])@ == self@.gossip()[j] by {
                    if j < i {
                        assert(output@[old(output)@.len() + j] == before[old(output)@.len() + j]);
                    }
                }
            }
            i += 1;
        }
    }

    /// The list of neighbours that `topology` gives `node`, if it has one.
    fn neighbours_of(topology: &StrMap<Vec<String>>, node: &String) -> (list: Option<Vec<String>>)
        ensures
            match list {
                Some(list) => neighbours(topology@).contains_key(node@) && names(list@)
                    == neighbours(topology@)[node@],
                None => !neighbours(topology@).contains_key(node@),
            },
    {
        match topology.get(node) {
            Some(list) => Some(copy_names(list)),
            None => None,
        }
    }
}

/// A copy of a list of names.
pub fn copy_names(list: &Vec<String>) -> (copy: Vec<String>)
    ensures
        names(copy@) == names(list@),
{
    let mut copy: Vec<String> = Vec::new();
    let mut i: usize = 0;
    while i < list.len()
        invariant
            i <= list@.len(),
            copy@.len() == i,
            forall|j: int| 0 <= j < i ==> (#[trigger] copy@[j])@ == list@[j]@,
        decreases list@.len() - i,
    {
        copy.push(list[i].clone());
        i += 1;
    }
    copy
}

impl Node<BroadcastPayload, BroadcastInjected> for BroadcastNode {
    open spec fn inv(&self) -> bool {
        broadcast_inv(self@)
    }

    open spec fn next_id(&self) -> usize {
        self@.next_id
    }

    /// A node that has seen nothing, has no neighbours yet, and believes
    /// of each member of the cluster that it has seen nothing.
    fn from_init(init: Init) -> (node: Self)
        ensures
            node@ == BroadcastState::initial(init.node_id@, names(init.node_ids@)),
    {
        let mut known: StrMap<HashSet<usize>> = StrMap::new();
        let mut i: usize = 0;
        while i < init.node_ids.len()
            invariant
                i <= init.node_ids@.len(),
                forall|k: Seq<char>| #[trigger]
                    known@.contains_key(k) <==> names(init.node_ids@.take(i as int)).contains(k),
                forall|k: Seq<char>| #[trigger]
                    known@.contains_key(k) ==> known@[k]@ == Set::<usize>::empty(),
            decreases init.node_ids@.len() - i,
        {
            let ghost before = names(init.node_ids@.take(i as int));
            known.insert(init.node_ids[i].clone(), HashSet::new());
            proof {
                let now = names(init.node_ids@.take(i + 1));
                assert(now =~= before.push(init.node_ids@[i as int]@));
                assert forall|k: Seq<char>| now.contains(k) <==> before.contains(k) || k
                    == init.node_ids@[i as int]@ by {
                    if now.contains(k) {
                        let j = choose|j: int| 0 <= j < now.len() && now[j] == k;
                        if j < before.len() {
                            assert(before[j] == k);
                        }
                    }
                    if before.contains(k) {
                        let j = choose|j: int| 0 <= j < before.len() && before[j] == k;
                        assert(now[j] == k);
                    }
                    assert(now[now.len() - 1] == init.node_ids@[i as int]@);
                }
            }
            i += 1;
        }
        let node = BroadcastNode {
            node: init.node_id,
            id: FIRST_MESSAGE_ID,
            messages: HashSet::new(),
            neighborhood: Vec::new(),
            known,
        };
        proof {
            assert(init.node_ids@.take(init.node_ids@.len() as int) =~= init.node_ids@);
            assert(names(node.neighborhood@) =~= Seq::<Seq<char>>::empty());
            assert(node@ =~~= BroadcastState::initial(init.node_id@, names(init.node_ids@)));
        }
        node
    }

    fn step(
        &mut self,
        input: Event<BroadcastPayload, BroadcastInjected>,
        output: &mut Vec<Message<BroadcastPayload>>,
    ) -> (r: Result<(), StepError>)
        ensures
            came_to(
                broadcast_step(old(self)@, input@),
                r,
                final(self)@,
                emitted(old(output)@, final(output)@),
            ),
    {
        proof {
            assert(emitted(output@, output@) =~= Seq::empty());
            lemma_broadcast_step_keeps_inv(self@, input@);
        }
        match &input {
            Event::Message(request) => match &request.body.payload {
                BroadcastPayload::Broadcast { message } => {
                    match send_reply(request, BroadcastPayload::BroadcastOk, &mut self.id, output) {
                        Ok(_) => {
                            self.messages.insert(*message);
                            assert(self@ =~~= BroadcastState {
                                messages: old(self)@.messages.insert(*message),
                                ..broadcast_replied(old(self)@)
                            });
                            Ok(())
                        },
                        Err(e) => Err(e),
                    }
                },
                BroadcastPayload::Read => {
                    let mut messages: HashSet<usize> = HashSet::new();
                    merge_into(&mut messages, &self.messages);
                    assert(messages@ =~= self@.messages);
                    let r = send_reply(
                        request,
                        BroadcastPayload::ReadOk { messages },
                        &mut self.id,
                        output,
                    );
                    assert(self@ =~~= if r is Ok {
                        broadcast_replied(old(self)@)
                    } else {
                        old(self)@
                    });
                    r
                },
                BroadcastPayload::Topology { topology } => {
                    match Self::neighbours_of(topology, &self.node) {
                        Some(list) => {
                            match send_reply(
                                request,
                                BroadcastPayload::TopologyOk,
                                &mut self.id,
                                output,
                            ) {
                                Ok(_) => {
                                    self.neighborhood = list;
                                    assert(self@ =~~= BroadcastState {
                                        neighborhood: neighbours(topology@)[old(self)@.node],
                                        ..broadcast_replied(old(self)@)
                                    });
                                    Ok(())
                                },
                                Err(e) => Err(e),
                            }
                        },
                        None => Err(StepError::MissingTopology),
                    }
                },
                BroadcastPayload::Gossip { seen } => {
                    self.hear(&request.src, seen);
                    Ok(())
                },
                BroadcastPayload::BroadcastOk => Ok(()),
                BroadcastPayload::ReadOk { .. } => Ok(()),
                BroadcastPayload::TopologyOk => Ok(()),
            },
            Event::Injected(BroadcastInjected::Gossip) => {
                self.gossip(output);
                Ok(())
            },
            Event::EOF => Ok(()),
        }
    }
}

} // verus!
