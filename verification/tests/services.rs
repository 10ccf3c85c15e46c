use glomers::echo::{Echo as EchoWorkload, Message as EchoMessage};
use glomers::message::{Body, Message as Envelope, Service};
use glomers::server::{Context, Runtime};
use glomers::services::echo::Echo;
use glomers::services::generate::{GenerateOk, ID_LEN};
use glomers::unique_ids::{Generate, Message as GenerateMessage};

fn context() -> Context {
    Context {
        rt: Runtime { node_id: "n1".to_string(), node_ids: vec!["n1".to_string()] },
        msg: Envelope {
            src: "n1".to_string(),
            dest: "c1".to_string(),
            body: Body { msg_id: Some(1), in_reply_to: Some(1), extra: () },
        },
    }
}

fn is_crockford(text: &str) -> bool {
    text.chars().all(|c| "0123456789ABCDEFGHJKMNPQRSTVWXYZ".contains(c))
}

#[test]
fn echo_payload_replies_with_the_same_text() {
    let e = Echo::new("hello".to_string());
    assert_eq!(e.echo(), "hello");
    assert_eq!(e.reply().echo(), "hello");
    assert_eq!(Echo::new(String::new()).reply().echo(), "");
}

#[test]
fn echo_answers_with_the_text_of_the_request() {
    let mut node = EchoWorkload::default();
    let reply = node.handle(EchoMessage::Echo { echo: "Please echo 35".to_string() }, context());
    assert_eq!(reply, Some(EchoMessage::EchoOk { echo: "Please echo 35".to_string() }));
}

#[test]
fn echo_drops_an_answer_that_arrives_as_a_message() {
    let mut node = EchoWorkload::default();
    assert_eq!(node.handle(EchoMessage::EchoOk { echo: "x".to_string() }, context()), None);
}

#[test]
fn echo_does_not_gossip() {
    let mut node = EchoWorkload::default();
    assert!(node.gossip(&context().rt).is_empty());
    assert_eq!(node.gossip_interval(), 1000);
}

#[test]
fn a_fresh_payload_carries_an_identifier_of_26_characters() {
    let g = GenerateOk::default();
    assert_eq!(ID_LEN, 26);
    assert_eq!(g.id().chars().count(), 26);
    assert!(is_crockford(g.id()));
    assert_eq!(GenerateOk::new("01ARZ3NDEKTSV4RRFFQ69G5FAV".to_string()).id(), "01ARZ3NDEKTSV4RRFFQ69G5FAV");
}

#[test]
fn generate_answers_with_a_fresh_identifier() {
    let mut node = Generate::default();
    let mut seen = Vec::new();
    for _ in 0..200 {
        match node.handle(GenerateMessage::Generate, context()) {
            Some(GenerateMessage::GenerateOk { id }) => {
                assert_eq!(id.chars().count(), 26);
                assert!(is_crockford(&id));
                assert!(!seen.contains(&id));
                seen.push(id);
            }
            other => panic!("no generate_ok: {:?}", other),
        }
    }
}

#[test]
fn generate_drops_an_answer_that_arrives_as_a_message() {
    let mut node = Generate::default();
    assert_eq!(node.handle(GenerateMessage::GenerateOk { id: "x".to_string() }, context()), None);
}

#[test]
fn reply_with_wraps_the_identifier_drawn() {
    assert_eq!(
        Generate::reply_with(GenerateMessage::Generate, "abc".to_string()),
        Some(GenerateMessage::GenerateOk { id: "abc".to_string() })
    );
    assert_eq!(Generate::reply_with(GenerateMessage::GenerateOk { id: "old".to_string() }, "abc".to_string()), None);
}

#[test]
fn generate_does_not_gossip() {
    let mut node = Generate::default();
    assert!(node.gossip(&context().rt).is_empty());
    assert_eq!(node.gossip_interval(), 1000);
}
