use rustengan::counter::{
    copy_table, CounterInjected, CounterNode, CounterPayload, REPLICATION_PERIOD_MS,
};
use rustengan::str_map::StrMap;
use rustengan::{Body, Event, Init, Message, Node, StepError};

type Input = Event<CounterPayload, CounterInjected>;

fn member(node: &str, all: &[&str]) -> CounterNode {
    CounterNode::from_init(Init {
        node_id: node.to_string(),
        node_ids: all.iter().map(|n| n.to_string()).collect(),
    })
}

fn message(src: &str, dst: &str, id: Option<usize>, payload: CounterPayload) -> Input {
    Event::Message(Message {
        src: src.to_string(),
        dst: dst.to_string(),
        body: Body { id, in_reply_to: None, payload },
    })
}

fn table(entries: &[(&str, i64)]) -> StrMap<i64> {
    StrMap::from_entries(entries.iter().map(|(k, v)| (k.to_string(), *v)).collect())
}

fn add(node: &mut CounterNode, delta: i64) -> Result<(), StepError> {
    let mut out = Vec::new();
    let r = node.step(message("c1", "n1", Some(5), CounterPayload::Add { delta }), &mut out);
    if r.is_ok() {
        assert_eq!(out.len(), 1);
        assert!(matches!(out[0].body.payload, CounterPayload::AddOk));
        assert_eq!(out[0].body.in_reply_to, Some(5));
    } else {
        assert!(out.is_empty());
    }
    r
}

fn read(node: &mut CounterNode) -> Result<i64, StepError> {
    let mut out = Vec::new();
    node.step(message("c1", "n1", Some(6), CounterPayload::Read), &mut out)?;
    assert_eq!(out.len(), 1);
    assert_eq!(out[0].body.in_reply_to, Some(6));
    match out[0].body.payload {
        CounterPayload::ReadOk { value } => Ok(value),
        _ => panic!("unexpected reply"),
    }
}

fn replicate(node: &mut CounterNode, from: &str, entries: &[(&str, i64)]) {
    let mut out = Vec::new();
    let r = node.step(
        message(from, "n1", None, CounterPayload::Replicate { value: table(entries) }),
        &mut out,
    );
    assert_eq!(r, Ok(()));
    assert!(out.is_empty());
}

fn tick(node: &mut CounterNode) -> Vec<Message<CounterPayload>> {
    let mut out = Vec::new();
    assert_eq!(node.step(Event::Injected(CounterInjected::Replicate), &mut out), Ok(()));
    out
}

fn sent_table(m: &Message<CounterPayload>) -> Vec<(String, i64)> {
    match &m.body.payload {
        CounterPayload::Replicate { value } => {
            let mut entries = value.clone().into_entries();
            entries.sort();
            entries
        }
        _ => panic!("unexpected message"),
    }
}

#[test]
fn replication_period() {
    assert_eq!(REPLICATION_PERIOD_MS, 500);
}

#[test]
fn new_counter_reads_zero() {
    let mut node = member("n1", &["n1", "n2"]);
    assert_eq!(read(&mut node), Ok(0));
}

#[test]
fn adds_are_summed() {
    let mut node = member("n1", &["n1", "n2"]);
    assert_eq!(add(&mut node, 3), Ok(()));
    assert_eq!(add(&mut node, 4), Ok(()));
    assert_eq!(add(&mut node, 0), Ok(()));
    assert_eq!(read(&mut node), Ok(7));
}

#[test]
fn read_sums_over_all_nodes() {
    let mut node = member("n1", &["n1", "n2", "n3"]);
    add(&mut node, 5).unwrap();
    replicate(&mut node, "n2", &[("n2", 10), ("n3", 1)]);
    assert_eq!(read(&mut node), Ok(16));
}

#[test]
fn replicate_keeps_the_larger_value() {
    let mut node = member("n1", &["n1", "n2"]);
    replicate(&mut node, "n2", &[("n2", 10)]);
    replicate(&mut node, "n2", &[("n2", 4)]);
    assert_eq!(read(&mut node), Ok(10));
    replicate(&mut node, "n2", &[("n2", 12)]);
    assert_eq!(read(&mut node), Ok(12));
}

#[test]
fn stale_table_does_not_roll_back_own_adds() {
    let mut node = member("n1", &["n1", "n2"]);
    add(&mut node, 5).unwrap();
    add(&mut node, 5).unwrap();
    replicate(&mut node, "n2", &[("n1", 5), ("n2", 1)]);
    assert_eq!(read(&mut node), Ok(11));
    add(&mut node, 1).unwrap();
    assert_eq!(read(&mut node), Ok(12));
}

#[test]
fn same_table_twice_is_as_good_as_once() {
    let mut node = member("n1", &["n1", "n2", "n3"]);
    add(&mut node, 2).unwrap();
    replicate(&mut node, "n2", &[("n2", 3), ("n3", 4)]);
    let once = read(&mut node);
    replicate(&mut node, "n2", &[("n2", 3), ("n3", 4)]);
    assert_eq!(read(&mut node), once);
    assert_eq!(once, Ok(9));
}

#[test]
fn tables_may_arrive_in_either_order() {
    let mut one = member("n1", &["n1", "n2", "n3"]);
    let mut other = member("n1", &["n1", "n2", "n3"]);
    replicate(&mut one, "n2", &[("n2", 3), ("n3", 1)]);
    replicate(&mut one, "n3", &[("n2", 2), ("n3", 8)]);
    replicate(&mut other, "n3", &[("n2", 2), ("n3", 8)]);
    replicate(&mut other, "n2", &[("n2", 3), ("n3", 1)]);
    assert_eq!(read(&mut one), Ok(11));
    assert_eq!(read(&mut other), Ok(11));
}

#[test]
fn tick_sends_the_table_to_every_other_node() {
    let mut node = member("n2", &["n1", "n2", "n3"]);
    let mut out = Vec::new();
    node.step(message("c1", "n2", Some(1), CounterPayload::Add { delta: 7 }), &mut out).unwrap();
    node.step(
        message("n1", "n2", None, CounterPayload::Replicate { value: table(&[("n1", 2)]) }),
        &mut out,
    )
    .unwrap();
    let sent = tick(&mut node);
    assert_eq!(sent.len(), 2);
    assert_eq!(sent[0].dst, "n1");
    assert_eq!(sent[1].dst, "n3");
    for m in &sent {
        assert_eq!(m.src, "n2");
        assert_eq!(m.body.id, None);
        assert_eq!(m.body.in_reply_to, None);
        assert_eq!(sent_table(m), vec![("n1".to_string(), 2), ("n2".to_string(), 7)]);
    }
}

#[test]
fn tick_of_a_lone_node_sends_nothing() {
    let mut node = member("n1", &["n1"]);
    add(&mut node, 1).unwrap();
    assert!(tick(&mut node).is_empty());
}

#[test]
fn add_that_does_not_fit_is_refused() {
    let mut node = member("n1", &["n1"]);
    assert_eq!(add(&mut node, i64::MAX), Ok(()));
    assert_eq!(add(&mut node, 1), Err(StepError::CounterOverflow));
    assert_eq!(read(&mut node), Ok(i64::MAX));
    assert_eq!(add(&mut node, -1), Ok(()));
    assert_eq!(read(&mut node), Ok(i64::MAX - 1));
}

#[test]
fn read_that_does_not_fit_is_refused() {
    let mut node = member("n1", &["n1", "n2"]);
    add(&mut node, i64::MAX).unwrap();
    replicate(&mut node, "n2", &[("n2", 1)]);
    assert_eq!(read(&mut node), Err(StepError::CounterOverflow));
    replicate(&mut node, "n3", &[("n3", -1)]);
    assert_eq!(read(&mut node), Ok(i64::MAX));
}

#[test]
fn counter_request_without_id_fails_and_changes_nothing() {
    let mut node = member("n1", &["n1"]);
    let mut out = Vec::new();
    let r = node.step(message("c1", "n1", None, CounterPayload::Add { delta: 3 }), &mut out);
    assert_eq!(r, Err(StepError::MissingMessageId));
    let r = node.step(message("c1", "n1", None, CounterPayload::Read), &mut out);
    assert_eq!(r, Err(StepError::MissingMessageId));
    assert!(out.is_empty());
    assert_eq!(read(&mut node), Ok(0));
}

#[test]
fn counter_passes_over_acknowledgements_and_end_of_input() {
    let mut node = member("n1", &["n1", "n2"]);
    add(&mut node, 1).unwrap();
    let mut out = Vec::new();
    assert_eq!(node.step(message("n2", "n1", Some(1), CounterPayload::AddOk), &mut out), Ok(()));
    assert_eq!(
        node.step(message("n2", "n1", Some(1), CounterPayload::ReadOk { value: 99 }), &mut out),
        Ok(())
    );
    assert_eq!(node.step(Event::EOF, &mut out), Ok(()));
    assert!(out.is_empty());
    assert_eq!(read(&mut node), Ok(1));
}

#[test]
fn every_node_reads_the_sum_of_all_adds() {
    let all = ["n1", "n2", "n3"];
    let mut nodes: Vec<CounterNode> = all.iter().map(|n| member(n, &all)).collect();
    let adds: [(usize, i64); 6] = [(0, 1), (1, 10), (0, 2), (2, 100), (1, 20), (2, 200)];
    let mut out = Vec::new();
    for (at, delta) in adds {
        nodes[at]
            .step(message("c1", all[at], Some(1), CounterPayload::Add { delta }), &mut out)
            .unwrap();
    }
    let mut in_flight = Vec::new();
    for node in nodes.iter_mut() {
        in_flight.extend(tick(node));
    }
    assert_eq!(in_flight.len(), 6);
    for m in in_flight {
        let to = all.iter().position(|n| *n == m.dst).unwrap();
        assert_eq!(nodes[to].step(Event::Message(m), &mut Vec::new()), Ok(()));
    }
    for (i, node) in nodes.iter_mut().enumerate() {
        let mut out = Vec::new();
        node.step(message("c1", all[i], Some(9), CounterPayload::Read), &mut out).unwrap();
        assert!(matches!(out[0].body.payload, CounterPayload::ReadOk { value: 333 }));
    }
}

#[test]
fn copy_table_copies() {
    let copy = copy_table(&table(&[("a", 1), ("b", -2)]));
    let mut entries = copy.into_entries();
    entries.sort();
    assert_eq!(entries, vec![("a".to_string(), 1), ("b".to_string(), -2)]);
}
