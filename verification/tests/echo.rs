use rustengan::echo::{EchoNode, EchoPayload};
use rustengan::{Body, Event, Message, Node, StepError};

fn request(id: Option<usize>, payload: EchoPayload) -> Event<EchoPayload, ()> {
    Event::Message(Message {
        src: "c1".to_string(),
        dst: "n1".to_string(),
        body: Body { id, in_reply_to: None, payload },
    })
}

#[test]
fn echo_is_answered_with_the_same_text() {
    let mut node = EchoNode::new();
    let mut out = Vec::new();
    let r = node.step(request(Some(5), EchoPayload::Echo { echo: "hello".to_string() }), &mut out);
    assert_eq!(r, Ok(()));
    assert_eq!(out.len(), 1);
    assert_eq!(out[0].src, "n1");
    assert_eq!(out[0].dst, "c1");
    assert_eq!(out[0].body.id, Some(1));
    assert_eq!(out[0].body.in_reply_to, Some(5));
    assert!(matches!(&out[0].body.payload, EchoPayload::EchoOk { echo } if echo == "hello"));
}

#[test]
fn init_ok_is_refused() {
    let mut node = EchoNode::new();
    let mut out = Vec::new();
    let r = node.step(request(Some(1), EchoPayload::InitOk), &mut out);
    assert_eq!(r, Err(StepError::UnexpectedInitOk));
    assert!(out.is_empty());
}
