use rustengan::echo::EchoPayload;
use rustengan::{
    build_reply, build_unsolicited, check_reply, handshake, send_reply, Body, InitPayload,
    Message, StepError, FIRST_MESSAGE_ID, HANDSHAKE_MESSAGE_ID,
};

fn echo_request(id: Option<usize>) -> Message<EchoPayload> {
    Message {
        src: "c7".to_string(),
        dst: "n3".to_string(),
        body: Body { id, in_reply_to: None, payload: EchoPayload::Echo { echo: "x".to_string() } },
    }
}

#[test]
fn first_message_id_is_one() {
    assert_eq!(FIRST_MESSAGE_ID, 1);
}

#[test]
fn reply_swaps_addresses_and_echoes_the_id() {
    let mut next_id = 4;
    let reply = build_reply(&echo_request(Some(9)), EchoPayload::InitOk, &mut next_id).unwrap();
    assert_eq!(reply.src, "n3");
    assert_eq!(reply.dst, "c7");
    assert_eq!(reply.body.id, Some(4));
    assert_eq!(reply.body.in_reply_to, Some(9));
    assert!(matches!(reply.body.payload, EchoPayload::InitOk));
    assert_eq!(next_id, 5);
}

#[test]
fn reply_ids_rise_by_one() {
    let mut next_id = FIRST_MESSAGE_ID;
    let mut seen = Vec::new();
    for request_id in 0..5 {
        let reply =
            build_reply(&echo_request(Some(request_id)), EchoPayload::InitOk, &mut next_id).unwrap();
        seen.push(reply.body.id.unwrap());
    }
    assert_eq!(seen, vec![1, 2, 3, 4, 5]);
    assert_eq!(next_id, 6);
}

#[test]
fn request_without_id_cannot_be_answered() {
    let mut next_id = 4;
    let r = build_reply(&echo_request(None), EchoPayload::InitOk, &mut next_id);
    assert!(matches!(r, Err(StepError::MissingMessageId)));
    assert_eq!(next_id, 4);
    assert_eq!(check_reply(&echo_request(None), 4), Err(StepError::MissingMessageId));
}

#[test]
fn no_reply_once_ids_have_run_out() {
    let mut next_id = usize::MAX;
    let r = build_reply(&echo_request(Some(1)), EchoPayload::InitOk, &mut next_id);
    assert!(matches!(r, Err(StepError::IdsExhausted)));
    assert_eq!(next_id, usize::MAX);
    assert_eq!(check_reply(&echo_request(Some(1)), usize::MAX), Err(StepError::IdsExhausted));
}

#[test]
fn missing_id_is_reported_before_exhausted_ids() {
    assert_eq!(check_reply(&echo_request(None), usize::MAX), Err(StepError::MissingMessageId));
}

#[test]
fn last_id_but_one_can_still_be_used() {
    let mut next_id = usize::MAX - 1;
    let reply = build_reply(&echo_request(Some(1)), EchoPayload::InitOk, &mut next_id).unwrap();
    assert_eq!(reply.body.id, Some(usize::MAX - 1));
    assert_eq!(next_id, usize::MAX);
}

#[test]
fn check_reply_accepts_what_build_reply_answers() {
    assert_eq!(check_reply(&echo_request(Some(0)), 1), Ok(()));
}

#[test]
fn send_reply_appends_and_keeps_what_was_there() {
    let mut next_id = 2;
    let mut out = vec![build_unsolicited(&"a".to_string(), &"b".to_string(), EchoPayload::InitOk)];
    let r = send_reply(&echo_request(Some(3)), EchoPayload::InitOk, &mut next_id, &mut out);
    assert_eq!(r, Ok(()));
    assert_eq!(out.len(), 2);
    assert_eq!(out[0].src, "a");
    assert_eq!(out[1].body.in_reply_to, Some(3));
    assert_eq!(out[1].body.id, Some(2));
    assert_eq!(next_id, 3);
}

#[test]
fn send_reply_that_fails_appends_nothing() {
    let mut next_id = 2;
    let mut out = Vec::new();
    let r = send_reply(&echo_request(None), EchoPayload::InitOk, &mut next_id, &mut out);
    assert_eq!(r, Err(StepError::MissingMessageId));
    assert!(out.is_empty());
    assert_eq!(next_id, 2);
}

#[test]
fn unsolicited_message_has_no_ids() {
    let m = build_unsolicited(&"n1".to_string(), &"n2".to_string(), EchoPayload::InitOk);
    assert_eq!(m.src, "n1");
    assert_eq!(m.dst, "n2");
    assert_eq!(m.body.id, None);
    assert_eq!(m.body.in_reply_to, None);
}

#[test]
fn every_error_has_words_of_its_own() {
    let all = [
        StepError::MissingMessageId,
        StepError::IdsExhausted,
        StepError::MissingTopology,
        StepError::CounterOverflow,
        StepError::UnexpectedInitOk,
        StepError::OffsetsExhausted,
    ];
    for (i, a) in all.iter().enumerate() {
        assert!(!a.describe().is_empty());
        for b in &all[i + 1..] {
            assert_ne!(a.describe(), b.describe());
        }
    }
    assert_eq!(StepError::UnexpectedInitOk.describe(), "init_ok received");
}

fn first_message(id: Option<usize>, payload: InitPayload) -> Message<InitPayload> {
    Message {
        src: "c0".to_string(),
        dst: "n4".to_string(),
        body: Body { id, in_reply_to: None, payload },
    }
}

#[test]
fn handshake_yields_identity_and_acknowledgement() {
    let init = InitPayload::Init {
        node_id: "n4".to_string(),
        node_ids: vec!["n1".to_string(), "n4".to_string()],
    };
    let (init, reply) = handshake(first_message(Some(1), init)).unwrap();
    assert_eq!(init.node_id, "n4");
    assert_eq!(init.node_ids, vec!["n1".to_string(), "n4".to_string()]);
    assert_eq!(reply.src, "n4");
    assert_eq!(reply.dst, "c0");
    assert_eq!(reply.body.id, Some(HANDSHAKE_MESSAGE_ID));
    assert_eq!(reply.body.id, Some(0));
    assert_eq!(reply.body.in_reply_to, Some(1));
    assert!(matches!(reply.body.payload, InitPayload::InitOk));
}

#[test]
fn handshake_refuses_what_is_no_init() {
    let r = handshake(first_message(Some(1), InitPayload::InitOk));
    assert!(matches!(r, Err(StepError::UnexpectedInitOk)));
    let r = handshake(first_message(None, InitPayload::InitOk));
    assert!(matches!(r, Err(StepError::UnexpectedInitOk)));
}

#[test]
fn handshake_without_id_cannot_be_acknowledged() {
    let init = InitPayload::Init { node_id: "n4".to_string(), node_ids: Vec::new() };
    let r = handshake(first_message(None, init));
    assert!(matches!(r, Err(StepError::MissingMessageId)));
}
