//! A counter that every node of a cluster can add to and read.
//!
//! Each node keeps, for every node it has heard of, the sum of what that
//! node has added; the counter's value is the sum over all nodes. Only the
//! node itself adds to its own entry. On every tick a node sends its whole
//! table to every other node, and a node that receives a table keeps, entry
//! by entry, the larger of what it holds and what it is sent. As long as
//! nothing negative is added, an entry only grows, so the larger value is
//! the later one, and a table that arrives late or twice does no harm.

use crate::str_map::{
    distinct_keys, entries_map, lemma_entries_map_dom, lemma_entries_map_push, StrMap,
};
use crate::{
    answered, build_unsolicited, came_to, check_reply, emitted, failed, names, reply_outcome,
    send_reply, silent, unsolicited, Event, EventView, Init, Message, MessageView, Node, Outcome,
    StepError, FIRST_MESSAGE_ID,
};
use vstd::prelude::*;

verus! {

/// How long a node waits between two rounds of replication, in milliseconds.
pub const REPLICATION_PERIOD_MS: u64 = 500;

/// What a counter node receives and sends.
#[derive(Debug, Clone)]
pub enum CounterPayload {
    Add { delta: i64 },
    AddOk,
    Read,
    ReadOk { value: i64 },
    Replicate { value: StrMap<i64> },
}

/// What a counter node's own timer injects.
#[derive(Debug, Clone, Copy, PartialEq, Eq, Structural)]
pub enum CounterInjected {
    /// It is time to send the table to the other nodes.
    Replicate,
}

/// A counter payload as the contracts see it.
pub enum CounterPayloadView {
    Add { delta: i64 },
    AddOk,
    Read,
    ReadOk { value: i64 },
    Replicate { value: Map<Seq<char>, i64> },
}

impl View for CounterPayload {
    type V = CounterPayloadView;

    open spec fn view(&self) -> CounterPayloadView {
        match *self {
            CounterPayload::Add { delta } => CounterPayloadView::Add { delta },
            CounterPayload::AddOk => CounterPayloadView::AddOk,
            CounterPayload::Read => CounterPayloadView::Read,
            CounterPayload::ReadOk { value } => CounterPayloadView::ReadOk { value },
            CounterPayload::Replicate { value } => CounterPayloadView::Replicate { value: value@ },
        }
    }
}

/// The sum of the values of a finite table.
pub open spec fn total(table: Map<Seq<char>, i64>) -> int
    decreases table.dom().len(),
    when table.dom().finite()
{
    if table.dom().len() == 0 {
        0
    } else {
        let k = table.dom().choose();
        table[k] + total(table.remove(k))
    }
}

/// The sum of a table is the value under any one key plus the sum of the
/// rest.
pub proof fn lemma_total_remove(table: Map<Seq<char>, i64>, key: Seq<char>)
    requires
        table.dom().finite(),
        table.contains_key(key),
    ensures
        total(table) == table[key] + total(table.remove(key)),
    decreases table.dom().len(),
{
    let k = table.dom().choose();
    if k != key {
        lemma_total_remove(table.remove(k), key);
        lemma_total_remove(table.remove(key), k);
        assert(table.remove(k).remove(key) =~= table.remove(key).remove(k));
    }
}

/// Putting a value under a key changes the sum by the difference to what
/// was there.
pub proof fn lemma_total_insert(table: Map<Seq<char>, i64>, key: Seq<char>, value: i64)
    requires
        table.dom().finite(),
    ensures
        total(table.insert(key, value)) == total(table) + value - (if table.contains_key(key) {
            table[key] as int
        } else {
            0
        }),
{
    let after = table.insert(key, value);
    lemma_total_remove(after, key);
    assert(after.remove(key) =~= table.remove(key));
    if table.contains_key(key) {
        lemma_total_remove(table, key);
    } else {
        assert(table.remove(key) =~= table);
    }
}

/// A table sums to no more than a table that holds at least as much under
/// each of its keys and nothing negative under any other.
pub proof fn lemma_total_monotone(less: Map<Seq<char>, i64>, more: Map<Seq<char>, i64>)
    requires
        more.dom().finite(),
        forall|k: Seq<char>| #[trigger]
            less.contains_key(k) ==> more.contains_key(k) && less[k] <= more[k],
        forall|k: Seq<char>|
            more.contains_key(k) && !less.contains_key(k) ==> #[trigger] more[k] >= 0,
    ensures
        less.dom().finite(),
        total(less) <= total(more),
    decreases more.dom().len(),
{
    vstd::set_lib::lemma_len_subset(less.dom(), more.dom());
    if more.dom().len() == 0 {
        assert(less.dom() =~= Set::empty());
        assert(less.dom().len() == 0);
    } else {
        let k = more.dom().choose();
        assert(more.contains_key(k));
        lemma_total_remove(more, k);
        if less.contains_key(k) {
            lemma_total_remove(less, k);
            lemma_total_monotone(less.remove(k), more.remove(k));
        } else {
            lemma_total_monotone(less, more.remove(k));
        }
    }
}

/// The sum of the values of a list of entries.
pub open spec fn entries_total(list: Seq<(String, i64)>) -> int
    decreases list.len(),
{
    if list.len() == 0 {
        0
    } else {
        entries_total(list.drop_last()) + list.last().1
    }
}

/// Where no key occurs twice, the sum over the list is the sum of the table
/// that the list stands for.
pub proof fn lemma_entries_total(list: Seq<(String, i64)>)
    requires
        distinct_keys(list),
    ensures
        total(entries_map(list)) == entries_total(list),
    decreases list.len(),
{
    if list.len() > 0 {
        let rest = list.drop_last();
        lemma_entries_total(rest);
        lemma_entries_map_dom(rest);
        lemma_total_insert(entries_map(rest), list.last().0@, list.last().1);
        if entries_map(rest).contains_key(list.last().0@) {
            let j = choose|j: int| 0 <= j < rest.len() && (#[trigger] rest[j]).0@ == list.last().0@;
            assert(list[j].0@ != list[list.len() - 1].0@);
        }
    } else {
        assert(entries_map(list).dom() =~= Set::empty());
    }
}

/// The larger of two numbers.
pub open spec fn larger(a: i64, b: i64) -> i64 {
    if a >= b {
        a
    } else {
        b
    }
}

/// The table that holds, entry by entry, the larger of what `held` and
/// `incoming` hold; where only one of them has an entry, that entry.
pub open spec fn merged(held: Map<Seq<char>, i64>, incoming: Map<Seq<char>, i64>) -> Map<
    Seq<char>,
    i64,
> {
    Map::new(
        |k: Seq<char>| held.contains_key(k) || incoming.contains_key(k),
        |k: Seq<char>|
            if held.contains_key(k) && incoming.contains_key(k) {
                larger(held[k], incoming[k])
            } else if incoming.contains_key(k) {
                incoming[k]
            } else {
                held[k]
            },
    )
}

/// Merging a table a second time changes nothing.
pub proof fn lemma_merged_idempotent(held: Map<Seq<char>, i64>, incoming: Map<Seq<char>, i64>)
    ensures
        merged(merged(held, incoming), incoming) == merged(held, incoming),
        merged(held, held) == held,
{
}

/// It does not matter which of two tables is merged into which.
pub proof fn lemma_merged_commutative(a: Map<Seq<char>, i64>, b: Map<Seq<char>, i64>)
    ensures
        merged(a, b) == merged(b, a),
{
}

/// It does not matter in which order three tables are merged.
pub proof fn lemma_merged_associative(
    a: Map<Seq<char>, i64>,
    b: Map<Seq<char>, i64>,
    c: Map<Seq<char>, i64>,
)
    ensures
        merged(merged(a, b), c) == merged(a, merged(b, c)),
{
}

/// The state of a counter node as the contracts see it.
#[verifier::ext_equal]
pub struct CounterState {
    /// The node's own name.
    pub node: Seq<char>,
    pub next_id: usize,
    /// For each node heard of, the sum of what it has added.
    pub counter: Map<Seq<char>, i64>,
    /// The members of the cluster.
    pub node_ids: Seq<Seq<char>>,
}

impl CounterState {
    /// What the node holds for `peer`: 0 where it has no entry.
    pub open spec fn held(self, peer: Seq<char>) -> i64 {
        if self.counter.contains_key(peer) {
            self.counter[peer]
        } else {
            0
        }
    }

    /// The value of the counter as this node sees it.
    pub open spec fn value(self) -> int {
        total(self.counter)
    }

    /// The state after the node has added `delta` to its own entry.
    pub open spec fn added(self, delta: i64) -> CounterState {
        CounterState {
            counter: self.counter.insert(self.node, (self.held(self.node) + delta) as i64),
            ..self
        }
    }

    /// The state after the table `incoming` has been merged in.
    pub open spec fn replicated(self, incoming: Map<Seq<char>, i64>) -> CounterState {
        CounterState { counter: merged(self.counter, incoming), ..self }
    }

    /// The messages of a round of replication to the first `n` members: one
    /// to each of them but the node itself, in order, with the whole table.
    pub open spec fn replication_to(self, n: nat) -> Seq<MessageView<CounterPayloadView>>
        decreases n,
    {
        if n == 0 {
            Seq::empty()
        } else {
            let before = self.replication_to((n - 1) as nat);
            let peer = self.node_ids[n - 1];
            if peer == self.node {
                before
            } else {
                before.push(
                    unsolicited(
                        self.node,
                        peer,
                        CounterPayloadView::Replicate { value: self.counter },
                    ),
                )
            }
        }
    }

    /// The messages of one round of replication.
    pub open spec fn replication(self) -> Seq<MessageView<CounterPayloadView>> {
        self.replication_to(self.node_ids.len())
    }

    /// The state of the node `node_id` of a cluster of `node_ids` that has
    /// handled nothing yet: its table is empty.
    pub open spec fn initial(node_id: Seq<char>, node_ids: Seq<Seq<char>>) -> CounterState {
        CounterState { node: node_id, next_id: FIRST_MESSAGE_ID, counter: Map::empty(), node_ids }
    }
}

/// No message of a round of replication has an id or answers anything, and
/// each goes from the node to another member with the node's whole table.
pub proof fn lemma_replication_unsolicited(s: CounterState, n: nat)
    requires
        n <= s.node_ids.len(),
    ensures
        s.replication_to(n).len() <= n,
        forall|i: int|
            0 <= i < s.replication_to(n).len() ==> {
                let m = #[trigger] s.replication_to(n)[i];
                &&& m.id is None
                &&& m.in_reply_to is None
                &&& m.src == s.node
                &&& m.dst != s.node
                &&& s.node_ids.contains(m.dst)
                &&& m.payload == CounterPayloadView::Replicate { value: s.counter }
            },
    decreases n,
{
    if n > 0 {
        lemma_replication_unsolicited(s, (n - 1) as nat);
        let before = s.replication_to((n - 1) as nat);
        assert(s.node_ids[n - 1] == s.node_ids[n - 1]);
        assert forall|i: int| 0 <= i < s.replication_to(n).len() implies {
            let m = #[trigger] s.replication_to(n)[i];
            &&& m.id is None
            &&& m.in_reply_to is None
            &&& m.src == s.node
            &&& m.dst != s.node
            &&& s.node_ids.contains(m.dst)
            &&& m.payload == CounterPayloadView::Replicate { value: s.counter }
        } by {
            if i < before.len() {
                assert(s.replication_to(n)[i] == before[i]);
            }
        }
    }
}

/// Whether `n` is a number that an entry or an answer can hold.
pub open spec fn fits(n: int) -> bool {
    i64::MIN <= n <= i64::MAX
}

/// What holds of a counter node between any two steps: its table is finite.
pub open spec fn counter_inv(s: CounterState) -> bool {
    s.counter.dom().finite()
}

/// The state after one more message id has been used.
pub open spec fn counter_replied(s: CounterState) -> CounterState {
    CounterState { next_id: (s.next_id + 1) as usize, ..s }
}

/// What a counter node does with an event.
///
/// An `add` adds to the node's own entry and is acknowledged. A `read` is
/// answered with the sum of all entries. Either is refused where the number
/// would not fit. A `replicate` is merged in and not answered. A tick sends
/// one round of replication and changes nothing. A request that cannot be
/// answered fails and changes nothing. Acknowledgements and the end of the
/// input are passed over.
pub open spec fn counter_step(
    s: CounterState,
    input: EventView<CounterPayloadView, CounterInjected>,
) -> Outcome<CounterState, CounterPayloadView> {
    match input {
        EventView::Message(m) => match m.payload {
            CounterPayloadView::Add { delta } => {
                if reply_outcome(m, s.next_id) is Ok && !fits(s.held(s.node) + delta) {
                    failed(s, StepError::CounterOverflow)
                } else {
                    answered(
                        s,
                        counter_replied(s.added(delta)),
                        m,
                        s.next_id,
                        CounterPayloadView::AddOk,
                    )
                }
            },
            CounterPayloadView::Read => {
                if reply_outcome(m, s.next_id) is Ok && !fits(s.value()) {
                    failed(s, StepError::CounterOverflow)
                } else {
                    answered(
                        s,
                        counter_replied(s),
                        m,
                        s.next_id,
                        CounterPayloadView::ReadOk { value: s.value() as i64 },
                    )
                }
            },
            CounterPayloadView::Replicate { value } => silent(s.replicated(value)),
            CounterPayloadView::AddOk => silent(s),
            CounterPayloadView::ReadOk { .. } => silent(s),
        },
        EventView::Injected(CounterInjected::Replicate) => Outcome {
            result: Ok(()),
            state: s,
            emitted: s.replication(),
        },
        EventView::EOF => silent(s),
    }
}

/// Whatever a counter node handles, its table stays finite, as long as the
/// tables it is sent are.
pub proof fn lemma_counter_step_keeps_inv(
    s: CounterState,
    input: EventView<CounterPayloadView, CounterInjected>,
)
    requires
        counter_inv(s),
        input matches EventView::Message(m) ==> (m.payload matches CounterPayloadView::Replicate {
            value,
        } ==> value.dom().finite()),
    ensures
        counter_inv(counter_step(s, input).state),
{
    match input {
        EventView::Message(m) => match m.payload {
            CounterPayloadView::Replicate { value } => {
                assert(merged(s.counter, value).dom() =~= s.counter.dom().union(value.dom()));
            },
            _ => {},
        },
        _ => {},
    }
}

/// The counter never falls: as long as nothing negative is added and no
/// table that arrives holds anything negative, a node reads after a step at
/// least what it read before, and after an addition that much more.
pub proof fn lemma_counter_never_falls(
    s: CounterState,
    input: EventView<CounterPayloadView, CounterInjected>,
)
    requires
        counter_inv(s),
        input matches EventView::Message(m) ==> match m.payload {
            CounterPayloadView::Add { delta } => delta >= 0,
            CounterPayloadView::Replicate { value } => value.dom().finite() && forall|
                k: Seq<char>,
            | value.contains_key(k) ==> #[trigger] value[k] >= 0,
            _ => true,
        },
    ensures
        counter_step(s, input).state.value() >= s.value(),
        input matches EventView::Message(m) ==> (m.payload matches CounterPayloadView::Add {
            delta,
        } ==> counter_step(s, input).result is Ok ==> counter_step(s, input).state.value()
            == s.value() + delta),
{
    match input {
        EventView::Message(m) => match m.payload {
            CounterPayloadView::Add { delta } => {
                if counter_step(s, input).result is Ok {
                    lemma_total_insert(s.counter, s.node, (s.held(s.node) + delta) as i64);
                }
            },
            CounterPayloadView::Replicate { value } => {
                assert(merged(s.counter, value).dom() =~= s.counter.dom().union(value.dom()));
                lemma_total_monotone(s.counter, merged(s.counter, value));
            },
            _ => {},
        },
        _ => {},
    }
}

/// A counter node.
#[derive(Debug)]
pub struct CounterNode {
    node: String,
    id: usize,
    counter: StrMap<i64>,
    node_ids: Vec<String>,
}

impl View for CounterNode {
    type V = CounterState;

    closed spec fn view(&self) -> CounterState {
        CounterState {
            node: self.node@,
            next_id: self.id,
            counter: self.counter@,
            node_ids: names(self.node_ids@),
        }
    }
}

/// A copy of a table.
pub fn copy_table(table: &StrMap<i64>) -> (copy: StrMap<i64>)
    ensures
        copy@ == table@,
{
    let copy = table.clone();
    assert(copy@ =~= table@);
    copy
}

impl CounterNode {
    /// The sum of all entries.
    fn sum(&self) -> (sum: i128)
        ensures
            sum == self@.value(),
    {
        let entries = self.counter.as_entries();
        let mut sum: i128 = 0;
        let mut i: usize = 0;
        while i < entries.len()
            invariant
                i <= entries@.len(),
                sum == entries_total(entries@.take(i as int)),
                -0x8000_0000_0000_0000 * i <= sum <= 0x7fff_ffff_ffff_ffff * i,
            decreases entries@.len() - i,
        {
            proof {
                assert(entries@.take(i + 1).drop_last() =~= entries@.take(i as int));
            }
            sum = sum + entries[i].1 as i128;
            i += 1;
        }
        proof {
            assert(entries@.take(entries@.len() as int) =~= entries@);
            lemma_entries_total(entries@);
        }
        sum
    }

    /// Merges the table `incoming` into the node's own.
    fn merge(&mut self, incoming: &StrMap<i64>)
        ensures
            final(self)@ == old(self)@.replicated(incoming@),
    {
        let entries = incoming.as_entries();
        let ghost held = self.counter@;
        let mut i: usize = 0;
        while i < entries.len()
            invariant
                i <= entries@.len(),
                distinct_keys(entries@),
                self.node == old(self).node,
                self.id == old(self).id,
                self.node_ids == old(self).node_ids,
                self.counter@ == merged(held, entries_map(entries@.take(i as int))),
            decreases entries@.len() - i,
        {
            let ghost before = entries_map(entries@.take(i as int));
            proof {
                assert(entries@.take(i + 1) =~= entries@.take(i as int).push(entries@[i as int]));
                lemma_entries_map_push(entries@.take(i as int), entries@[i as int]);
                lemma_entries_map_dom(entries@.take(i as int));
                if before.contains_key(entries@[i as int].0@) {
                    let j = choose|j: int|
                        0 <= j < entries@.take(i as int).len() && (#[trigger] entries@.take(
                            i as int,
                        )[j]).0@ == entries@[i as int].0@;
                    assert(entries@[j].0@ != entries@[i as int].0@);
                }
            }
            let sent = entries[i].1;
            let kept = match self.counter.get(&entries[i].0) {
                Some(held) => if *held >= sent {
                    *held
                } else {
                    sent
                },
                None => sent,
            };
            self.counter.insert(entries[i].0.clone(), kept);
            i += 1;
        }
        proof {
            assert(entries@.take(entries@.len() as int) =~= entries@);
            assert(self@ =~~= old(self)@.replicated(incoming@));
        }
    }

    /// Sends one round of replication.
    fn replicate(&self, output: &mut Vec<Message<CounterPayload>>)
        ensures
            old(output)@.len() <= final(output)@.len(),
            final(output)@.subrange(0, old(output)@.len() as int) == old(output)@,
            emitted(old(output)@, final(output)@) == self@.replication(),
    {
        let mut i: usize = 0;
        while i < self.node_ids.len()
            invariant
                i <= self.node_ids@.len(),
                old(output)@.len() <= output@.len(),
                output@.subrange(0, old(output)@.len() as int) == old(output)@,
                emitted(old(output)@, output@) == self@.replication_to(i as nat),
            decreases self.node_ids@.len() - i,
        {
            let peer = &self.node_ids[i];
            if *peer != self.node {
                let value = copy_table(&self.counter);
                let message = build_unsolicited(
                    &self.node,
                    peer,
                    CounterPayload::Replicate { value },
                );
                let ghost before = output@;
                output.push(message);
                proof {
                    assert(output@.subrange(0, old(output)@.len() as int) =~= before.subrange(
                        0,
                        old(output)@.len() as int,
                    ));
                    assert(emitted(old(output)@, output@) =~= emitted(old(output)@, before).push(
                        message@,
                    ));
                }
            }
            i += 1;
        }
    }
}

impl Node<CounterPayload, CounterInjected> for CounterNode {
    open spec fn inv(&self) -> bool {
        counter_inv(self@)
    }

    open spec fn next_id(&self) -> usize {
        self@.next_id
    }

    /// A node whose table is empty.
    fn from_init(init: Init) -> (node: Self)
        ensures
            node@ == CounterState::initial(init.node_id@, names(init.node_ids@)),
    {
        CounterNode {
            node: init.node_id,
            id: FIRST_MESSAGE_ID,
            counter: StrMap::new(),
            node_ids: init.node_ids,
        }
    }

    fn step(
        &mut self,
        input: Event<CounterPayload, CounterInjected>,
        output: &mut Vec<Message<CounterPayload>>,
    ) -> (r: Result<(), StepError>)
        ensures
            came_to(
                counter_step(old(self)@, input@),
                r,
                final(self)@,
                emitted(old(output)@, final(output)@),
            ),
    {
        proof {
            assert(emitted(output@, output@) =~= Seq::empty());
        }
        match &input {
            Event::Message(request) => match &request.body.payload {
                CounterPayload::Add { delta } => {
                    match check_reply(request, self.id) {
                        Ok(_) => {},
                        Err(e) => {
                            return Err(e);
                        },
                    }
                    let held: i64 = match self.counter.get(&self.node) {
                        Some(held) => *held,
                        None => 0,
                    };
                    match held.checked_add(*delta) {
                        Some(sum) => {
                            self.counter.insert(self.node.clone(), sum);
                            proof {
                                assert(self@ =~~= old(self)@.added(*delta));
                                lemma_entries_map_dom(self.counter.entries());
                            }
                            send_reply(request, CounterPayload::AddOk, &mut self.id, output)
                        },
                        None => Err(StepError::CounterOverflow),
                    }
                },
                CounterPayload::Read => {
                    match check_reply(request, self.id) {
                        Ok(_) => {},
                        Err(e) => {
                            return Err(e);
                        },
                    }
                    let sum = self.sum();
                    if sum < i64::MIN as i128 || sum > i64::MAX as i128 {
                        return Err(StepError::CounterOverflow);
                    }
                    send_reply(
                        request,
                        CounterPayload::ReadOk { value: sum as i64 },
                        &mut self.id,
                        output,
                    )
                },
                CounterPayload::Replicate { value } => {
                    self.merge(value);
                    proof {
                        lemma_entries_map_dom(self.counter.entries());
                    }
                    Ok(())
                },
                CounterPayload::AddOk => Ok(()),
                CounterPayload::ReadOk { .. } => Ok(()),
            },
            Event::Injected(CounterInjected::Replicate) => {
                proof {
                    lemma_replication_unsolicited(self@, self@.node_ids.len());
                }
                self.replicate(output);
                Ok(())
            },
            Event::EOF => Ok(()),
        }
    }
}

} // verus!
