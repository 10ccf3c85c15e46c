use glomers::counter::{Counter, Message};
use glomers::message::{Body, BodyType, Message as Envelope, Service};
use glomers::server::{Context, Runtime};

fn id(text: &str) -> String {
    text.to_string()
}

fn runtime(me: &str, all: &[&str]) -> Runtime {
    Runtime { node_id: id(me), node_ids: all.iter().map(|n| id(n)).collect() }
}

/// The context of a message that `from` sent to `me`: the addresses are
/// already turned round.
fn context(me: &str, from: &str) -> Context {
    Context {
        rt: runtime(me, &["n1", "n2", "n3"]),
        msg: Envelope {
            src: id(me),
            dest: id(from),
            body: Body { msg_id: None, in_reply_to: None, extra: () },
        },
    }
}

fn read(node: &mut Counter) -> Option<u64> {
    match node.handle(Message::Read, context("n1", "c1")) {
        Some(Message::ReadOk { value }) => Some(value),
        None => None,
        other => panic!("no read_ok: {:?}", other),
    }
}

#[test]
fn a_new_counter_reads_zero() {
    assert_eq!(read(&mut Counter::default()), Some(0));
}

#[test]
fn add_is_acknowledged_and_counted() {
    let mut node = Counter::default();
    assert_eq!(node.handle(Message::Add { delta: 5 }, context("n1", "c1")), Some(Message::AddOk));
    assert_eq!(node.handle(Message::Add { delta: 7 }, context("n1", "c1")), Some(Message::AddOk));
    assert_eq!(read(&mut node), Some(12));
}

#[test]
fn gossip_is_recorded_under_its_sender_without_answer() {
    let mut node = Counter::default();
    node.handle(Message::Add { delta: 1 }, context("n1", "c1"));
    assert_eq!(node.handle(Message::Gossip { counter: 10 }, context("n1", "n2")), None);
    assert_eq!(node.handle(Message::Gossip { counter: 20 }, context("n1", "n3")), None);
    assert_eq!(read(&mut node), Some(31));
}

#[test]
fn a_later_report_replaces_the_earlier_one() {
    let mut node = Counter::default();
    node.handle(Message::Gossip { counter: 10 }, context("n1", "n2"));
    node.handle(Message::Gossip { counter: 10 }, context("n1", "n2"));
    assert_eq!(read(&mut node), Some(10));
    node.handle(Message::Gossip { counter: 15 }, context("n1", "n2"));
    assert_eq!(read(&mut node), Some(15));
}

#[test]
fn the_value_read_never_falls_while_reports_grow() {
    let mut node = Counter::default();
    let mut last = 0;
    let steps = [
        (Message::Add { delta: 3 }, "c1"),
        (Message::Gossip { counter: 2 }, "n2"),
        (Message::Add { delta: 0 }, "c1"),
        (Message::Gossip { counter: 2 }, "n2"),
        (Message::Gossip { counter: 9 }, "n3"),
        (Message::Gossip { counter: 4 }, "n2"),
        (Message::Add { delta: 1 }, "c1"),
    ];
    for (msg, from) in steps {
        node.handle(msg, context("n1", from));
        let now = read(&mut node).unwrap();
        assert!(now >= last);
        last = now;
    }
    assert_eq!(last, 17);
}

#[test]
fn an_addition_that_does_not_fit_is_dropped() {
    let mut node = Counter::default();
    node.handle(Message::Add { delta: u64::MAX - 1 }, context("n1", "c1"));
    assert_eq!(node.handle(Message::Add { delta: 2 }, context("n1", "c1")), None);
    assert_eq!(read(&mut node), Some(u64::MAX - 1));
    assert_eq!(node.handle(Message::Add { delta: 1 }, context("n1", "c1")), Some(Message::AddOk));
    assert_eq!(read(&mut node), Some(u64::MAX));
}

#[test]
fn a_read_that_does_not_fit_is_dropped() {
    let mut node = Counter::default();
    node.handle(Message::Add { delta: 1 }, context("n1", "c1"));
    node.handle(Message::Gossip { counter: u64::MAX }, context("n1", "n2"));
    assert_eq!(read(&mut node), None);
    node.handle(Message::Gossip { counter: u64::MAX - 1 }, context("n1", "n2"));
    assert_eq!(read(&mut node), Some(u64::MAX));
}

#[test]
fn an_answer_that_arrives_as_a_message_is_dropped_by_the_counter() {
    let mut node = Counter::default();
    node.handle(Message::Add { delta: 2 }, context("n1", "c1"));
    assert_eq!(node.handle(Message::AddOk, context("n1", "c1")), None);
    assert_eq!(node.handle(Message::ReadOk { value: 100 }, context("n1", "c1")), None);
    assert_eq!(read(&mut node), Some(2));
}

#[test]
fn counter_gossip_goes_to_every_other_node_in_order() {
    let mut node = Counter::default();
    node.handle(Message::Add { delta: 4 }, context("n2", "c1"));
    let out = node.gossip(&runtime("n2", &["n1", "n2", "n3"]));
    let expected: Vec<Envelope<BodyType<Message>>> = ["n1", "n3"]
        .iter()
        .map(|to| Envelope {
            src: id("n2"),
            dest: id(to),
            body: Body {
                msg_id: None,
                in_reply_to: None,
                extra: BodyType::Service(Message::Gossip { counter: 4 }),
            },
        })
        .collect();
    assert_eq!(out, expected);
}

#[test]
fn counter_gossip_is_silent_at_zero() {
    let mut node = Counter::default();
    node.handle(Message::Gossip { counter: 4 }, context("n2", "n1"));
    assert!(node.gossip(&runtime("n2", &["n1", "n2", "n3"])).is_empty());
}

#[test]
fn counter_gossips_every_150_milliseconds() {
    assert_eq!(Counter::default().gossip_interval(), 150);
}

#[test]
fn all_nodes_read_the_sum_of_all_additions_after_gossip() {
    let names = ["n1", "n2", "n3"];
    let mut nodes = vec![Counter::default(), Counter::default(), Counter::default()];
    let adds = [(0usize, 5u64), (1, 7), (0, 1), (2, 0), (1, 30)];
    for (at, delta) in adds {
        nodes[at].handle(Message::Add { delta }, context(names[at], "c1"));
    }
    for from in 0..3 {
        let out = nodes[from].gossip(&runtime(names[from], &names));
        for envelope in out {
            let to = names.iter().position(|n| *n == envelope.dest).unwrap();
            let payload = match envelope.body.extra {
                BodyType::Service(m) => m,
                other => panic!("not of the workload: {:?}", other),
            };
            let reply = nodes[to].handle(payload, context(names[to], &envelope.src));
            assert_eq!(reply, None);
        }
    }
    for node in nodes.iter_mut() {
        assert_eq!(read(node), Some(43));
    }
}

#[test]
fn clone_of_a_counter_reads_the_same() {
    let mut node = Counter::default();
    node.handle(Message::Add { delta: 2 }, context("n1", "c1"));
    node.handle(Message::Gossip { counter: 5 }, context("n1", "n2"));
    let mut copy = node.clone();
    assert_eq!(read(&mut copy), Some(7));
    node.handle(Message::Add { delta: 1 }, context("n1", "c1"));
    assert_eq!(read(&mut copy), Some(7));
    assert_eq!(read(&mut node), Some(8));
}

#[test]
fn a_stale_report_is_taken_as_it_comes() {
    let mut node = Counter::default();
    node.handle(Message::Gossip { counter: 9 }, context("n1", "n2"));
    node.handle(Message::Gossip { counter: 4 }, context("n1", "n2"));
    assert_eq!(read(&mut node), Some(4));
}
