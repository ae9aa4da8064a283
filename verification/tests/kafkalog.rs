use rustengan::kafkalog::{KafkaLogNode, KafkaPayload, Log};
use rustengan::str_map::StrMap;
use rustengan::{Body, Event, Init, Message, Node, StepError};

fn log_node() -> KafkaLogNode {
    KafkaLogNode::from_init(Init { node_id: "n1".to_string(), node_ids: vec!["n1".to_string()] })
}

fn from_client(id: usize, payload: KafkaPayload) -> Event<KafkaPayload, ()> {
    Event::Message(Message {
        src: "c1".to_string(),
        dst: "n1".to_string(),
        body: Body { id: Some(id), in_reply_to: None, payload },
    })
}

fn offsets(entries: &[(&str, usize)]) -> StrMap<usize> {
    StrMap::from_entries(entries.iter().map(|(k, o)| (k.to_string(), *o)).collect())
}

fn send(node: &mut KafkaLogNode, id: usize, key: &str, msg: usize) -> usize {
    let mut out = Vec::new();
    let r = node.step(from_client(id, KafkaPayload::Send { key: key.to_string(), msg }), &mut out);
    assert_eq!(r, Ok(()));
    assert_eq!(out.len(), 1);
    assert_eq!(out[0].body.in_reply_to, Some(id));
    match &out[0].body.payload {
        KafkaPayload::SendOk { offset } => *offset,
        other => panic!("unexpected reply {:?}", other),
    }
}

fn poll(node: &mut KafkaLogNode, id: usize, request: &[(&str, usize)]) -> StrMap<Vec<(usize, usize)>> {
    let mut out = Vec::new();
    let r = node.step(from_client(id, KafkaPayload::Poll { offsets: offsets(request) }), &mut out);
    assert_eq!(r, Ok(()));
    assert_eq!(out.len(), 1);
    assert_eq!(out[0].body.in_reply_to, Some(id));
    match out.pop().unwrap().body.payload {
        KafkaPayload::PollOk { msgs } => msgs,
        other => panic!("unexpected reply {:?}", other),
    }
}

fn commit(node: &mut KafkaLogNode, id: usize, request: &[(&str, usize)]) {
    let mut out = Vec::new();
    let r = node
        .step(from_client(id, KafkaPayload::CommitOffsets { offsets: offsets(request) }), &mut out);
    assert_eq!(r, Ok(()));
    assert_eq!(out.len(), 1);
    assert_eq!(out[0].body.in_reply_to, Some(id));
    assert!(matches!(out[0].body.payload, KafkaPayload::CommitOffsetsOk));
}

fn list(node: &mut KafkaLogNode, id: usize, keys: &[&str]) -> StrMap<usize> {
    let mut out = Vec::new();
    let keys = keys.iter().map(|k| k.to_string()).collect();
    let r = node.step(from_client(id, KafkaPayload::ListCommittedOffsets { keys }), &mut out);
    assert_eq!(r, Ok(()));
    assert_eq!(out.len(), 1);
    match out.pop().unwrap().body.payload {
        KafkaPayload::ListCommittedOffsetsOk { offsets } => offsets,
        other => panic!("unexpected reply {:?}", other),
    }
}

#[test]
fn offset_round_trip() {
    let mut node = log_node();
    assert_eq!(send(&mut node, 1, "k", 10), 0);
    assert_eq!(send(&mut node, 2, "k", 20), 1);
    let polled = poll(&mut node, 3, &[("k", 0)]);
    assert_eq!(polled.len(), 1);
    assert_eq!(polled.get(&"k".to_string()), Some(&vec![(0, 10), (1, 20)]));
    let polled = poll(&mut node, 4, &[("k", 2)]);
    assert_eq!(polled.len(), 0);
}

#[test]
fn commit_visibility() {
    let mut node = log_node();
    assert_eq!(send(&mut node, 1, "k", 10), 0);
    assert_eq!(send(&mut node, 2, "k", 20), 1);
    commit(&mut node, 3, &[("k", 1)]);
    let listed = list(&mut node, 4, &["k"]);
    assert_eq!(listed.len(), 1);
    assert_eq!(listed.get(&"k".to_string()), Some(&1));
}

#[test]
fn unknown_key_safety() {
    let mut node = log_node();
    let polled = poll(&mut node, 1, &[("missing", 0)]);
    assert_eq!(polled.len(), 0);
    send(&mut node, 2, "k", 10);
    let polled = poll(&mut node, 3, &[("missing", 0), ("k", 0)]);
    assert_eq!(polled.len(), 1);
    assert_eq!(polled.get(&"k".to_string()), Some(&vec![(0, 10)]));
}

#[test]
fn poll_from_the_middle() {
    let mut node = log_node();
    for (i, msg) in [7, 8, 9, 10].iter().enumerate() {
        assert_eq!(send(&mut node, i, "k", *msg), i);
    }
    let polled = poll(&mut node, 9, &[("k", 2)]);
    assert_eq!(polled.get(&"k".to_string()), Some(&vec![(2, 9), (3, 10)]));
    let polled = poll(&mut node, 10, &[("k", 3)]);
    assert_eq!(polled.get(&"k".to_string()), Some(&vec![(3, 10)]));
    let polled = poll(&mut node, 11, &[("k", 4)]);
    assert_eq!(polled.get(&"k".to_string()), None);
    let polled = poll(&mut node, 12, &[("k", usize::MAX)]);
    assert_eq!(polled.len(), 0);
}

#[test]
fn keys_have_offsets_of_their_own() {
    let mut node = log_node();
    assert_eq!(send(&mut node, 1, "a", 1), 0);
    assert_eq!(send(&mut node, 2, "b", 2), 0);
    assert_eq!(send(&mut node, 3, "a", 3), 1);
    assert_eq!(send(&mut node, 4, "b", 4), 1);
    assert_eq!(send(&mut node, 5, "a", 5), 2);
    let polled = poll(&mut node, 6, &[("a", 1), ("b", 0)]);
    assert_eq!(polled.len(), 2);
    assert_eq!(polled.get(&"a".to_string()), Some(&vec![(1, 3), (2, 5)]));
    assert_eq!(polled.get(&"b".to_string()), Some(&vec![(0, 2), (1, 4)]));
}

#[test]
fn poll_sees_what_was_not_committed() {
    let mut node = log_node();
    send(&mut node, 1, "k", 10);
    commit(&mut node, 2, &[("k", 0)]);
    send(&mut node, 3, "k", 20);
    let polled = poll(&mut node, 4, &[("k", 0)]);
    assert_eq!(polled.get(&"k".to_string()), Some(&vec![(0, 10), (1, 20)]));
    assert_eq!(list(&mut node, 5, &["k"]).get(&"k".to_string()), Some(&0));
}

#[test]
fn commit_does_not_take_records_out() {
    let mut node = log_node();
    send(&mut node, 1, "k", 10);
    send(&mut node, 2, "k", 20);
    commit(&mut node, 3, &[("k", 1)]);
    let polled = poll(&mut node, 4, &[("k", 0)]);
    assert_eq!(polled.get(&"k".to_string()), Some(&vec![(0, 10), (1, 20)]));
    assert_eq!(send(&mut node, 5, "k", 30), 2);
}

#[test]
fn commit_of_an_unknown_key_records_nothing() {
    let mut node = log_node();
    send(&mut node, 1, "k", 10);
    commit(&mut node, 2, &[("other", 5), ("k", 0)]);
    let listed = list(&mut node, 3, &["other", "k"]);
    assert_eq!(listed.len(), 1);
    assert_eq!(listed.get(&"k".to_string()), Some(&0));
    assert_eq!(listed.get(&"other".to_string()), None);
}

#[test]
fn later_commit_replaces_the_offset() {
    let mut node = log_node();
    send(&mut node, 1, "k", 10);
    send(&mut node, 2, "k", 20);
    commit(&mut node, 3, &[("k", 0)]);
    commit(&mut node, 4, &[("k", 1)]);
    assert_eq!(list(&mut node, 5, &["k"]).get(&"k".to_string()), Some(&1));
}

#[test]
fn list_leaves_out_keys_without_a_commit() {
    let mut node = log_node();
    send(&mut node, 1, "a", 10);
    send(&mut node, 2, "b", 20);
    commit(&mut node, 3, &[("a", 0)]);
    let listed = list(&mut node, 4, &["a", "b", "c", "a"]);
    assert_eq!(listed.len(), 1);
    assert_eq!(listed.get(&"a".to_string()), Some(&0));
    assert_eq!(list(&mut node, 5, &[]).len(), 0);
}

#[test]
fn replies_are_numbered_from_one() {
    let mut node = log_node();
    let mut out = Vec::new();
    for (i, key) in ["a", "b", "a"].iter().enumerate() {
        let r = node.step(
            from_client(100 + i, KafkaPayload::Send { key: key.to_string(), msg: i }),
            &mut out,
        );
        assert_eq!(r, Ok(()));
    }
    let ids: Vec<Option<usize>> = out.iter().map(|m| m.body.id).collect();
    assert_eq!(ids, vec![Some(1), Some(2), Some(3)]);
    let answered: Vec<Option<usize>> = out.iter().map(|m| m.body.in_reply_to).collect();
    assert_eq!(answered, vec![Some(100), Some(101), Some(102)]);
    assert!(out.iter().all(|m| m.src == "n1" && m.dst == "c1"));
}

#[test]
fn send_without_id_fails_and_stores_nothing() {
    let mut node = log_node();
    let mut out = Vec::new();
    let request = Event::Message(Message {
        src: "c1".to_string(),
        dst: "n1".to_string(),
        body: Body {
            id: None,
            in_reply_to: None,
            payload: KafkaPayload::Send { key: "k".to_string(), msg: 1 },
        },
    });
    assert_eq!(node.step(request, &mut out), Err(StepError::MissingMessageId));
    assert!(out.is_empty());
    assert_eq!(send(&mut node, 1, "k", 2), 0);
    let polled = poll(&mut node, 2, &[("k", 0)]);
    assert_eq!(polled.get(&"k".to_string()), Some(&vec![(0, 2)]));
}

#[test]
fn acknowledgements_and_end_of_input_change_nothing() {
    let mut node = log_node();
    send(&mut node, 1, "k", 10);
    let mut out = Vec::new();
    for payload in [
        KafkaPayload::SendOk { offset: 9 },
        KafkaPayload::PollOk { msgs: StrMap::new() },
        KafkaPayload::CommitOffsetsOk,
        KafkaPayload::ListCommittedOffsetsOk { offsets: offsets(&[("k", 9)]) },
    ] {
        assert_eq!(node.step(from_client(50, payload), &mut out), Ok(()));
    }
    assert_eq!(node.step(Event::Injected(()), &mut out), Ok(()));
    assert_eq!(node.step(Event::EOF, &mut out), Ok(()));
    assert!(out.is_empty());
    assert_eq!(send(&mut node, 2, "k", 20), 1);
    assert_eq!(list(&mut node, 3, &["k"]).len(), 0);
}

#[test]
fn new_log_gives_out_offsets_from_zero() {
    let mut log = Log::new();
    let k = "k".to_string();
    assert_eq!(log.next_offset(&k), 0);
    assert_eq!(log.append(&k, 5), Some(0));
    assert_eq!(log.next_offset(&k), 1);
    assert_eq!(log.append(&k, 6), Some(1));
    assert_eq!(log.append(&"other".to_string(), 7), Some(0));
    assert_eq!(log.next_offset(&k), 2);
    assert_eq!(log.next_offset(&"other".to_string()), 1);
    assert_eq!(log.next_offset(&"none".to_string()), 0);
}
