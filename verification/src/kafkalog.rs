//! An append-only log per key, addressed by offset, with a committed side
//! beside the uncommitted one.
//!
//! Every record that is sent is appended to the uncommitted log of its key
//! and gets the next offset of that key, starting at 0. A commit copies what
//! the uncommitted log holds for a key to the committed log and records the
//! offset that the client named. Nothing is ever taken out again.
//!
//! A node handles one event at a time and owns both logs outright, so reading
//! the next offset and moving it on is one step that nothing can come between.

use crate::str_map::{
    distinct_keys, entries_map, lemma_entries_map_dom, lemma_entries_map_push, StrMap,
};
use crate::{
    answered, came_to, check_reply, emitted, failed, names, reply_outcome, reply_to, send_reply,
    silent, Event, EventView, Init, Message, MessageView, Node, Outcome, StepError,
    FIRST_MESSAGE_ID,
};
use std::collections::BTreeMap;
use vstd::prelude::*;

verus! {

/// A log as the contracts see it: for each key the records by offset, and
/// one offset per key.
///
/// In the uncommitted log that offset is the next one to be given out. In
/// the committed log it is the offset that the last commit named.
#[verifier::ext_equal]
pub struct LogView {
    pub msgs: Map<Seq<char>, Map<usize, usize>>,
    pub offsets: Map<Seq<char>, usize>,
}

/// The records of `values` at the offsets from `from` up to, not including,
/// `end`, each with its offset, in rising order.
pub open spec fn entries_from(values: Map<usize, usize>, from: usize, end: usize) -> Seq<
    (usize, usize),
> {
    if from < end {
        Seq::new((end - from) as nat, |i: int| ((from + i) as usize, values[(from + i) as usize]))
    } else {
        Seq::empty()
    }
}

/// `values` holds a record at every offset below `end` and at no other.
pub open spec fn dense(values: Map<usize, usize>, end: usize) -> bool {
    forall|o: usize| #[trigger] values.contains_key(o) <==> o < end
}

impl LogView {
    /// The log that holds nothing.
    pub open spec fn empty() -> LogView {
        LogView { msgs: Map::empty(), offsets: Map::empty() }
    }

    /// The offset recorded for `key`, 0 where there is none.
    pub open spec fn next_offset(self, key: Seq<char>) -> usize {
        if self.offsets.contains_key(key) {
            self.offsets[key]
        } else {
            0
        }
    }

    /// The records of `key`, none where the key is unknown.
    pub open spec fn values(self, key: Seq<char>) -> Map<usize, usize> {
        if self.msgs.contains_key(key) {
            self.msgs[key]
        } else {
            Map::empty()
        }
    }

    /// The log after `msg` has been stored under `key` at the key's next
    /// offset and that offset has moved on by one.
    pub open spec fn append(self, key: Seq<char>, msg: usize) -> LogView {
        LogView {
            msgs: self.msgs.insert(key, self.values(key).insert(self.next_offset(key), msg)),
            offsets: self.offsets.insert(key, (self.next_offset(key) + 1) as usize),
        }
    }

    /// Every key has a next offset, at least one record, and a record at each
    /// offset below the next one and nowhere else: offsets were given out from
    /// 0 on without a gap.
    pub open spec fn assigned_densely(self) -> bool {
        &&& self.msgs.dom() == self.offsets.dom()
        &&& forall|k: Seq<char>| #[trigger]
            self.offsets.contains_key(k) ==> self.offsets[k] >= 1 && dense(
                self.msgs[k],
                self.offsets[k],
            )
    }

    /// The records of `key` from the offset `from` on, each with its offset,
    /// in rising order.
    pub open spec fn read_from(self, key: Seq<char>, from: usize) -> Seq<(usize, usize)> {
        entries_from(self.values(key), from, self.next_offset(key))
    }

    /// The answer to a poll: for each key of `request` that the log knows and
    /// that has a record at or after the offset asked for, those records.
    /// Other keys are left out.
    pub open spec fn poll(self, request: Map<Seq<char>, usize>) -> Map<
        Seq<char>,
        Seq<(usize, usize)>,
    > {
        Map::new(
            |k: Seq<char>|
                request.contains_key(k) && self.msgs.contains_key(k) && request[k]
                    < self.next_offset(k),
            |k: Seq<char>| self.read_from(k, request[k]),
        )
    }

    /// Of `keys`, those with a recorded offset, each with that offset.
    pub open spec fn offsets_of(self, keys: Seq<Seq<char>>) -> Map<Seq<char>, usize> {
        Map::new(
            |k: Seq<char>| keys.contains(k) && self.offsets.contains_key(k),
            |k: Seq<char>| self.offsets[k],
        )
    }

    /// Whether a commit of `request` against the uncommitted log `source`
    /// touches `key`: the request names it and the source knows it.
    pub open spec fn commits(source: LogView, request: Map<Seq<char>, usize>, key: Seq<char>) -> bool {
        request.contains_key(key) && source.msgs.contains_key(key)
    }

    /// The committed log after a commit of `request` against the uncommitted
    /// log `source`: for each key that the request names and the source
    /// knows, every record of the source is copied over and the offset that
    /// the request names is recorded. Keys that the source does not know are
    /// passed over.
    pub open spec fn commit(self, source: LogView, request: Map<Seq<char>, usize>) -> LogView {
        LogView {
            msgs: Map::new(
                |k: Seq<char>| self.msgs.contains_key(k) || Self::commits(source, request, k),
                |k: Seq<char>|
                    if Self::commits(source, request, k) {
                        self.values(k).union_prefer_right(source.msgs[k])
                    } else {
                        self.msgs[k]
                    },
            ),
            offsets: Map::new(
                |k: Seq<char>| self.offsets.contains_key(k) || Self::commits(source, request, k),
                |k: Seq<char>|
                    if Self::commits(source, request, k) {
                        request[k]
                    } else {
                        self.offsets[k]
                    },
            ),
        }
    }

    /// Everything that this (committed) log holds was taken from `source`:
    /// each key with an offset has records, is known to the source, and its
    /// records are records of the source.
    pub open spec fn taken_from(self, source: LogView) -> bool {
        &&& self.msgs.dom() == self.offsets.dom()
        &&& forall|k: Seq<char>| #[trigger]
            self.msgs.contains_key(k) ==> source.msgs.contains_key(k) && self.msgs[k].submap_of(
                source.msgs[k],
            )
    }
}

/// A log: the records of each key by offset, and one offset per key.
#[derive(Debug)]
pub struct Log {
    msgs: StrMap<BTreeMap<usize, usize>>,
    offsets: StrMap<usize>,
}

impl View for Log {
    type V = LogView;

    closed spec fn view(&self) -> LogView {
        LogView {
            msgs: Map::new(
                |k: Seq<char>| self.msgs@.contains_key(k),
                |k: Seq<char>| self.msgs@[k]@,
            ),
            offsets: self.offsets@,
        }
    }
}

/// Copies the records of `values`, which has one at each offset below `end`
/// and nowhere else, into `target`.
fn copy_records(values: &BTreeMap<usize, usize>, end: usize, target: &mut BTreeMap<usize, usize>)
    requires
        dense(values@, end),
    ensures
        final(target)@ == old(target)@.union_prefer_right(values@),
{
    let mut o: usize = 0;
    while o < end
        invariant
            o <= end,
            dense(values@, end),
            forall|p: usize|
                target@.contains_key(p) <==> old(target)@.contains_key(p) || p < o,
            forall|p: usize| p < o ==> #[trigger] target@[p] == values@[p],
            forall|p: usize|
                p >= o && old(target)@.contains_key(p) ==> #[trigger] target@[p] == old(
                    target,
                )@[p],
        decreases end - o,
    {
        match values.get(&o) {
            Some(v) => {
                target.insert(o, *v);
            },
            None => {},
        }
        o += 1;
    }
}

impl Log {
    /// The log that holds nothing.
    pub fn new() -> (log: Self)
        ensures
            log@ == LogView::empty(),
    {
        let log = Log { msgs: StrMap::new(), offsets: StrMap::new() };
        assert(log@ =~~= LogView::empty());
        log
    }

    /// The offset recorded for `key`, 0 where there is none.
    pub fn next_offset(&self, key: &String) -> (offset: usize)
        ensures
            offset == self@.next_offset(key@),
    {
        match self.offsets.get(key) {
            Some(offset) => *offset,
            None => 0,
        }
    }

    /// Stores `msg` under `key` at the key's next offset, moves that offset
    /// on by one and returns the offset that the record got. Where the next
    /// offset is the last number there is, there is none to move on to:
    /// nothing is stored.
    pub fn append(&mut self, key: &String, msg: usize) -> (offset: Option<usize>)
        ensures
            match offset {
                Some(o) => {
                    &&& o == old(self)@.next_offset(key@)
                    &&& o < usize::MAX
                    &&& final(self)@ == old(self)@.append(key@, msg)
                },
                None => {
                    &&& old(self)@.next_offset(key@) == usize::MAX
                    &&& final(self)@ == old(self)@
                },
            },
    {
        let offset = self.next_offset(key);
        if offset == usize::MAX {
            return None;
        }
        let mut values = match self.msgs.remove(key) {
            Some(values) => values,
            None => BTreeMap::new(),
        };
        values.insert(offset, msg);
        self.msgs.insert(key.clone(), values);
        self.offsets.insert(key.clone(), offset + 1);
        Some(offset)
    }

    /// The records of `key` from the offset `from` on, each with its offset,
    /// in rising order.
    fn read_from(&self, key: &String, from: usize) -> (found: Vec<(usize, usize)>)
        requires
            self@.assigned_densely(),
        ensures
            found@ == self@.read_from(key@, from),
    {
        let mut found: Vec<(usize, usize)> = Vec::new();
        let end = self.next_offset(key);
        match self.msgs.get(key) {
            Some(values) => {
                assert(self@.msgs.contains_key(key@));
                assert(self@.offsets.contains_key(key@));
                let mut o: usize = from;
                while o < end
                    invariant
                        from <= o,
                        from < end ==> o <= end,
                        from >= end ==> o == from,
                        dense(values@, end),
                        found@ == entries_from(values@, from, o),
                    decreases end - o,
                {
                    match values.get(&o) {
                        Some(v) => {
                            found.push((o, *v));
                        },
                        None => {},
                    }
                    o += 1;
                }
                assert(found@ =~= entries_from(values@, from, end));
            },
            None => {
                assert(!self@.msgs.contains_key(key@));
                assert(!self@.offsets.contains_key(key@));
            },
        }
        found
    }

    /// Takes into this log what `source` holds for `key`, if it knows the
    /// key, and records `offset` for it.
    fn commit_key(&mut self, source: &Log, key: &String, offset: usize)
        requires
            source@.assigned_densely(),
        ensures
            final(self)@ == old(self)@.commit(source@, map![key@ => offset]),
    {
        match source.msgs.get(key) {
            Some(values) => {
                assert(source@.msgs.contains_key(key@));
                assert(source@.offsets.contains_key(key@));
                let end = source.next_offset(key);
                let mut target = match self.msgs.remove(key) {
                    Some(target) => target,
                    None => BTreeMap::new(),
                };
                copy_records(values, end, &mut target);
                self.msgs.insert(key.clone(), target);
                self.offsets.insert(key.clone(), offset);
            },
            None => {},
        }
    }
}

/// What a log node receives and sends.
#[derive(Debug, Clone)]
pub enum KafkaPayload {
    Send { key: String, msg: usize },
    SendOk { offset: usize },
    Poll { offsets: StrMap<usize> },
    PollOk { msgs: StrMap<Vec<(usize, usize)>> },
    CommitOffsets { offsets: StrMap<usize> },
    CommitOffsetsOk,
    ListCommittedOffsets { keys: Vec<String> },
    ListCommittedOffsetsOk { offsets: StrMap<usize> },
}

/// A log payload as the contracts see it.
pub enum KafkaPayloadView {
    Send { key: Seq<char>, msg: usize },
    SendOk { offset: usize },
    Poll { offsets: Map<Seq<char>, usize> },
    PollOk { msgs: Map<Seq<char>, Seq<(usize, usize)>> },
    CommitOffsets { offsets: Map<Seq<char>, usize> },
    CommitOffsetsOk,
    ListCommittedOffsets { keys: Seq<Seq<char>> },
    ListCommittedOffsetsOk { offsets: Map<Seq<char>, usize> },
}

/// What was polled, each list of records as a sequence.
pub open spec fn polled(msgs: Map<Seq<char>, Vec<(usize, usize)>>) -> Map<
    Seq<char>,
    Seq<(usize, usize)>,
> {
    Map::new(|k: Seq<char>| msgs.contains_key(k), |k: Seq<char>| msgs[k]@)
}

impl View for KafkaPayload {
    type V = KafkaPayloadView;

    open spec fn view(&self) -> KafkaPayloadView {
        match *self {
            KafkaPayload::Send { key, msg } => KafkaPayloadView::Send { key: key@, msg },
            KafkaPayload::SendOk { offset } => KafkaPayloadView::SendOk { offset },
            KafkaPayload::Poll { offsets } => KafkaPayloadView::Poll { offsets: offsets@ },
            KafkaPayload::PollOk { msgs } => KafkaPayloadView::PollOk { msgs: polled(msgs@) },
            KafkaPayload::CommitOffsets { offsets } => KafkaPayloadView::CommitOffsets {
                offsets: offsets@,
            },
            KafkaPayload::CommitOffsetsOk => KafkaPayloadView::CommitOffsetsOk,
            KafkaPayload::ListCommittedOffsets { keys } => KafkaPayloadView::ListCommittedOffsets {
                keys: names(keys@),
            },
            KafkaPayload::ListCommittedOffsetsOk { offsets } => {
                KafkaPayloadView::ListCommittedOffsetsOk { offsets: offsets@ }
            },
        }
    }
}

/// The state of a log node as the contracts see it.
#[verifier::ext_equal]
pub struct KafkaState {
    pub next_id: usize,
    pub committed: LogView,
    pub uncommitted: LogView,
}

/// What holds of a log node between any two steps: the uncommitted log has
/// given out its offsets from 0 on without a gap, and the committed log holds
/// nothing that the uncommitted log does not hold.
pub open spec fn kafka_inv(s: KafkaState) -> bool {
    &&& s.uncommitted.assigned_densely()
    &&& s.committed.taken_from(s.uncommitted)
}

/// The state after one more message id has been used.
pub open spec fn kafka_replied(s: KafkaState) -> KafkaState {
    KafkaState { next_id: (s.next_id + 1) as usize, ..s }
}

/// What a log node does with an event.
///
/// A `send` appends the record and is answered with the offset that the
/// record got; it is refused where the key has no offset left. A `poll` is
/// answered with the records of the uncommitted log from the offsets asked
/// for. A `commit_offsets` takes the named keys over into the committed log
/// and is acknowledged. A `list_committed_offsets` is answered with the
/// offsets that commits have recorded. A request that cannot be answered
/// fails and changes nothing. Acknowledgements and everything that is no
/// message are passed over.
pub open spec fn kafka_step(s: KafkaState, input: EventView<KafkaPayloadView, ()>) -> Outcome<
    KafkaState,
    KafkaPayloadView,
> {
    match input {
        EventView::Message(m) => match m.payload {
            KafkaPayloadView::Send { key, msg } => {
                if reply_outcome(m, s.next_id) is Ok && s.uncommitted.next_offset(key)
                    == usize::MAX {
                    failed(s, StepError::OffsetsExhausted)
                } else {
                    answered(
                        s,
                        KafkaState {
                            uncommitted: s.uncommitted.append(key, msg),
                            ..kafka_replied(s)
                        },
                        m,
                        s.next_id,
                        KafkaPayloadView::SendOk { offset: s.uncommitted.next_offset(key) },
                    )
                }
            },
            KafkaPayloadView::Poll { offsets } => answered(
                s,
                kafka_replied(s),
                m,
                s.next_id,
                KafkaPayloadView::PollOk { msgs: s.uncommitted.poll(offsets) },
            ),
            KafkaPayloadView::CommitOffsets { offsets } => answered(
                s,
                KafkaState {
                    committed: s.committed.commit(s.uncommitted, offsets),
                    ..kafka_replied(s)
                },
                m,
                s.next_id,
                KafkaPayloadView::CommitOffsetsOk,
            ),
            KafkaPayloadView::ListCommittedOffsets { keys } => answered(
                s,
                kafka_replied(s),
                m,
                s.next_id,
                KafkaPayloadView::ListCommittedOffsetsOk { offsets: s.committed.offsets_of(keys) },
            ),
            KafkaPayloadView::SendOk { .. } => silent(s),
            KafkaPayloadView::PollOk { .. } => silent(s),
            KafkaPayloadView::CommitOffsetsOk => silent(s),
            KafkaPayloadView::ListCommittedOffsetsOk { .. } => silent(s),
        },
        EventView::Injected(_) => silent(s),
        EventView::EOF => silent(s),
    }
}

/// Whatever a log node handles, what holds between steps holds after the
/// step: offsets stay without gaps, and the committed log stays within the
/// uncommitted one.
pub proof fn lemma_kafka_step_keeps_inv(s: KafkaState, input: EventView<KafkaPayloadView, ()>)
    requires
        kafka_inv(s),
    ensures
        kafka_inv(kafka_step(s, input).state),
{
    let after = kafka_step(s, input).state;
    match input {
        EventView::Message(m) => match m.payload {
            KafkaPayloadView::Send { key, msg } => {
                if after != s {
                    let u = s.uncommitted;
                    assert(after.uncommitted == u.append(key, msg));
                    assert(after.committed == s.committed);
                    assert(after.uncommitted.msgs.dom() =~= after.uncommitted.offsets.dom());
                    assert forall|k: Seq<char>| #[trigger]
                        after.committed.msgs.contains_key(k) implies after.uncommitted.msgs.contains_key(
                        k,
                    ) && after.committed.msgs[k].submap_of(after.uncommitted.msgs[k]) by {
                        let taken = s.committed.msgs[k];
                        let source = u.msgs[k];
                        assert(taken.submap_of(source));
                        assert(u.offsets.contains_key(k));
                        if k == key {
                            let grown = source.insert(u.offsets[k], msg);
                            assert(after.uncommitted.msgs[k] == grown);
                            assert forall|o: usize| #[trigger]
                                taken.dom().contains(o) implies grown.dom().contains(o)
                                && taken[o] == grown[o] by {
                                assert(source.dom().contains(o));
                                assert(source.contains_key(o));
                                assert(o < u.offsets[k]);
                            }
                        }
                    }
                }
            },
            KafkaPayloadView::CommitOffsets { offsets } => {
                if after != s {
                    assert(after.committed == s.committed.commit(s.uncommitted, offsets));
                    assert(after.uncommitted == s.uncommitted);
                    assert(after.committed.msgs.dom() =~= after.committed.offsets.dom());
                    assert forall|k: Seq<char>| #[trigger]
                        after.committed.msgs.contains_key(k) implies after.uncommitted.msgs.contains_key(
                        k,
                    ) && after.committed.msgs[k].submap_of(after.uncommitted.msgs[k]) by {
                        let source = s.uncommitted.msgs[k];
                        if s.committed.msgs.contains_key(k) {
                            assert(s.committed.msgs[k].submap_of(source));
                        }
                        if LogView::commits(s.uncommitted, offsets, k) {
                            assert(s.committed.values(k).union_prefer_right(source) =~= source);
                        }
                    }
                }
            },
            _ => {},
        },
        _ => {},
    }
}

/// A record that is sent gets the next offset of its key: the number of
/// records that the key had before, so 0 for a new key. No record was at that
/// offset, one is at every offset below it, and the key's next offset is one
/// more. What was stored before stays as it was, under this key and under
/// every other.
pub proof fn lemma_send_takes_next_offset(s: KafkaState, request: MessageView<KafkaPayloadView>)
    requires
        kafka_inv(s),
        request.payload is Send,
        kafka_step(s, EventView::Message(request)).result is Ok,
    ensures
        ({
            let key = request.payload->Send_key;
            let msg = request.payload->Send_msg;
            let offset = s.uncommitted.next_offset(key);
            let step = kafka_step(s, EventView::Message(request));
            let after = step.state.uncommitted;
            &&& step.emitted == seq![
                reply_to(request, s.next_id, KafkaPayloadView::SendOk { offset }),
            ]
            &&& !s.uncommitted.msgs.contains_key(key) ==> offset == 0
            &&& !s.uncommitted.values(key).contains_key(offset)
            &&& forall|o: usize| o < offset ==> s.uncommitted.values(key).contains_key(o)
            &&& after.values(key) == s.uncommitted.values(key).insert(offset, msg)
            &&& after.next_offset(key) == offset + 1
            &&& forall|k: Seq<char>|
                k != key ==> after.values(k) == s.uncommitted.values(k) && after.next_offset(k)
                    == s.uncommitted.next_offset(k)
            &&& step.state.committed == s.committed
        }),
{
    let key = request.payload->Send_key;
    if s.uncommitted.offsets.contains_key(key) {
        assert(s.uncommitted.msgs.contains_key(key));
    } else {
        assert(!s.uncommitted.msgs.contains_key(key));
    }
}

/// What a poll returns for a key: the records from the offset asked for on,
/// one for each offset up to the last, in rising order, each with the value
/// that was sent. A key is left out where it is unknown or has no such record.
pub proof fn lemma_poll_lists_records(
    log: LogView,
    request: Map<Seq<char>, usize>,
    key: Seq<char>,
)
    requires
        log.assigned_densely(),
        request.contains_key(key),
    ensures
        log.poll(request).contains_key(key) <==> log.values(key).contains_key(request[key]),
        log.poll(request).contains_key(key) ==> {
            let from = request[key];
            let list = log.poll(request)[key];
            &&& list.len() == log.next_offset(key) - from
            &&& forall|i: int|
                0 <= i < list.len() ==> (#[trigger] list[i]).0 == from + i && log.msgs[key].contains_key(
                    list[i].0,
                ) && list[i].1 == log.msgs[key][list[i].0]
            &&& forall|o: usize|
                o >= from && #[trigger] log.msgs[key].contains_key(o) ==> list[o - from] == (
                    o,
                    log.msgs[key][o],
                )
        },
{
    if log.offsets.contains_key(key) {
        assert(log.msgs.contains_key(key));
        assert(dense(log.msgs[key], log.offsets[key]));
    } else {
        assert(!log.msgs.contains_key(key));
    }
}

/// Every committed offset is one that has been given out: a record is stored
/// at it.
pub open spec fn commits_assigned(s: KafkaState) -> bool {
    forall|k: Seq<char>| #[trigger]
        s.committed.offsets.contains_key(k) ==> s.committed.offsets[k] < s.uncommitted.next_offset(
            k,
        )
}

/// As long as every commit names, for each key that is known, an offset
/// that has been given out, every committed offset is one that has been
/// given out.
pub proof fn lemma_commits_stay_assigned(s: KafkaState, input: EventView<KafkaPayloadView, ()>)
    requires
        kafka_inv(s),
        commits_assigned(s),
        input matches EventView::Message(m) ==> (m.payload matches KafkaPayloadView::CommitOffsets {
            offsets,
        } ==> forall|k: Seq<char>| #[trigger]
            offsets.contains_key(k) && s.uncommitted.msgs.contains_key(k) ==> offsets[k]
                < s.uncommitted.next_offset(k)),
    ensures
        commits_assigned(kafka_step(s, input).state),
{
    let after = kafka_step(s, input).state;
    assert forall|k: Seq<char>| #[trigger]
        after.committed.offsets.contains_key(k) implies after.committed.offsets[k]
        < after.uncommitted.next_offset(k) by {
        if s.committed.offsets.contains_key(k) {
            assert(s.committed.offsets[k] < s.uncommitted.next_offset(k));
            assert(s.uncommitted.offsets.contains_key(k));
        }
    }
}

/// A node that keeps the logs.
#[derive(Debug)]
pub struct KafkaLogNode {
    id: usize,
    committed: Log,
    uncommitted: Log,
}

impl View for KafkaLogNode {
    type V = KafkaState;

    closed spec fn view(&self) -> KafkaState {
        KafkaState {
            next_id: self.id,
            committed: self.committed@,
            uncommitted: self.uncommitted@,
        }
    }
}

impl KafkaLogNode {
    /// The answer to a poll for `request`.
    fn poll(&self, request: &StrMap<usize>) -> (msgs: StrMap<Vec<(usize, usize)>>)
        requires
            self@.uncommitted.assigned_densely(),
        ensures
            polled(msgs@) == self@.uncommitted.poll(request@),
    {
        let entries = request.as_entries();
        let ghost log = self.uncommitted@;
        let mut msgs: StrMap<Vec<(usize, usize)>> = StrMap::new();
        let mut i: usize = 0;
        while i < entries.len()
            invariant
                i <= entries@.len(),
                distinct_keys(entries@),
                log == self.uncommitted@,
                log.assigned_densely(),
                polled(msgs@) == log.poll(entries_map(entries@.take(i as int))),
            decreases entries@.len() - i,
        {
            let key = &entries[i].0;
            let found = self.uncommitted.read_from(key, entries[i].1);
            let ghost before = entries_map(entries@.take(i as int));
            proof {
                assert(entries@.take(i + 1) =~= entries@.take(i as int).push(entries@[i as int]));
                lemma_entries_map_push(entries@.take(i as int), entries@[i as int]);
                lemma_entries_map_dom(entries@.take(i as int));
                if before.contains_key(key@) {
                    let j = choose|j: int|
                        0 <= j < entries@.take(i as int).len() && (#[trigger] entries@.take(
                            i as int,
                        )[j]).0@ == key@;
                    assert(entries@[j].0@ != entries@[i as int].0@);
                }
            }
            let ghost from = entries@[i as int].1;
            let ghost polled_before = polled(msgs@);
            if found.len() > 0 {
                msgs.insert(key.clone(), found);
                proof {
                    assert(polled(msgs@) =~= polled_before.insert(key@, found@));
                }
            }
            proof {
                let now = before.insert(key@, from);
                assert forall|k: Seq<char>| k != key@ implies (log.poll(now).contains_key(k)
                    <==> log.poll(before).contains_key(k)) && (log.poll(now).contains_key(k)
                    ==> log.poll(now)[k] == log.poll(before)[k]) by {
                    assert(now.contains_key(k) <==> before.contains_key(k));
                }
                assert(!log.poll(before).contains_key(key@));
                assert(log.poll(now).contains_key(key@) <==> from < log.next_offset(key@));
                assert(polled(msgs@) =~= log.poll(now));
            }
            i += 1;
        }
        proof {
            assert(entries@.take(entries@.len() as int) =~= entries@);
        }
        msgs
    }

    /// Takes the keys of `request` over into the committed log.
    fn commit(&mut self, request: &StrMap<usize>)
        requires
            old(self)@.uncommitted.assigned_densely(),
        ensures
            final(self)@ == (KafkaState {
                committed: old(self)@.committed.commit(old(self)@.uncommitted, request@),
                ..old(self)@
            }),
    {
        let entries = request.as_entries();
        let ghost source = self.uncommitted@;
        let ghost start = self.committed@;
        let mut i: usize = 0;
        while i < entries.len()
            invariant
                i <= entries@.len(),
                distinct_keys(entries@),
                self.id == old(self).id,
                self.uncommitted@ == source,
                source.assigned_densely(),
                self.committed@ == start.commit(source, entries_map(entries@.take(i as int))),
            decreases entries@.len() - i,
        {
            let ghost before = entries_map(entries@.take(i as int));
            proof {
                assert(entries@.take(i + 1) =~= entries@.take(i as int).push(entries@[i as int]));
                lemma_entries_map_push(entries@.take(i as int), entries@[i as int]);
            }
            self.committed.commit_key(&self.uncommitted, &entries[i].0, entries[i].1);
            proof {
                assert(self.committed@ =~~= start.commit(
                    source,
                    before.insert(entries@[i as int].0@, entries@[i as int].1),
                ));
            }
            i += 1;
        }
        proof {
            assert(entries@.take(entries@.len() as int) =~= entries@);
        }
    }

    /// Of `keys`, those with a committed offset, each with that offset.
    fn committed_offsets(&self, keys: &Vec<String>) -> (offsets: StrMap<usize>)
        ensures
            offsets@ == self@.committed.offsets_of(names(keys@)),
    {
        let ghost log = self.committed@;
        let mut offsets: StrMap<usize> = StrMap::new();
        let mut i: usize = 0;
        while i < keys.len()
            invariant
                i <= keys@.len(),
                log == self.committed@,
                offsets@ == log.offsets_of(names(keys@.take(i as int))),
            decreases keys@.len() - i,
        {
            let ghost before = names(keys@.take(i as int));
            proof {
                assert(names(keys@.take(i + 1)) =~= before.push(keys@[i as int]@));
            }
            match self.committed.offsets.get(&keys[i]) {
                Some(offset) => {
                    offsets.insert(keys[i].clone(), *offset);
                },
                None => {},
            }
            proof {
                let now = before.push(keys@[i as int]@);
                assert forall|k: Seq<char>| now.contains(k) <==> before.contains(k) || k
                    == keys@[i as int]@ by {
                    if now.contains(k) {
                        let j = choose|j: int| 0 <= j < now.len() && now[j] == k;
                        if j < before.len() {
                            assert(before[j] == k);
                        }
                    }
                    if before.contains(k) {
                        let j = choose|j: int| 0 <= j < before.len() && before[j] == k;
                        assert(now[j] == k);
                    }
                    assert(now[now.len() - 1] == keys@[i as int]@);
                }
                assert(offsets@ =~= log.offsets_of(now));
            }
            i += 1;
        }
        proof {
            assert(keys@.take(keys@.len() as int) =~= keys@);
        }
        offsets
    }
}

impl Node<KafkaPayload, ()> for KafkaLogNode {
    open spec fn inv(&self) -> bool {
        kafka_inv(self@)
    }

    open spec fn next_id(&self) -> usize {
        self@.next_id
    }

    /// A log node starts with both logs empty, whatever the membership.
    fn from_init(init: Init) -> (node: Self)
        ensures
            node@ == (KafkaState {
                next_id: FIRST_MESSAGE_ID,
                committed: LogView::empty(),
                uncommitted: LogView::empty(),
            }),
    {
        KafkaLogNode { id: FIRST_MESSAGE_ID, committed: Log::new(), uncommitted: Log::new() }
    }

    fn step(
        &mut self,
        input: Event<KafkaPayload, ()>,
        output: &mut Vec<Message<KafkaPayload>>,
    ) -> (r: Result<(), StepError>)
        ensures
            came_to(
                kafka_step(old(self)@, input@),
                r,
                final(self)@,
                emitted(old(output)@, final(output)@),
            ),
    {
        proof {
            assert(emitted(output@, output@) =~= Seq::empty());
            lemma_kafka_step_keeps_inv(self@, input@);
        }
        match &input {
            Event::Message(request) => match &request.body.payload {
                KafkaPayload::Send { key, msg } => {
                    match check_reply(request, self.id) {
                        Ok(_) => {},
                        Err(e) => {
                            return Err(e);
                        },
                    }
                    match self.uncommitted.append(key, *msg) {
                        Some(offset) => send_reply(
                            request,
                            KafkaPayload::SendOk { offset },
                            &mut self.id,
                            output,
                        ),
                        None => Err(StepError::OffsetsExhausted),
                    }
                },
                KafkaPayload::Poll { offsets } => {
                    let msgs = self.poll(offsets);
                    send_reply(request, KafkaPayload::PollOk { msgs }, &mut self.id, output)
                },
                KafkaPayload::CommitOffsets { offsets } => {
                    match send_reply(request, KafkaPayload::CommitOffsetsOk, &mut self.id, output) {
                        Ok(_) => {
                            self.commit(offsets);
                            Ok(())
                        },
                        Err(e) => Err(e),
                    }
                },
                KafkaPayload::ListCommittedOffsets { keys } => {
                    let offsets = self.committed_offsets(keys);
                    send_reply(
                        request,
                        KafkaPayload::ListCommittedOffsetsOk { offsets },
                        &mut self.id,
                        output,
                    )
                },
                KafkaPayload::SendOk { .. } => Ok(()),
                KafkaPayload::PollOk { .. } => Ok(()),
                KafkaPayload::CommitOffsetsOk => Ok(()),
                KafkaPayload::ListCommittedOffsetsOk { .. } => Ok(()),
            },
            Event::Injected(_) => Ok(()),
            Event::EOF => Ok(()),
        }
    }
}

} // verus!
