use glomers::broadcast::{Broadcast, Message as BroadcastMessage};
use glomers::counter::{Counter, Message as CounterMessage};
use glomers::message::{Body, BodyType, Init, Message};
use glomers::server::{Action, Event, Server};

type Envelope = Message<BodyType<BroadcastMessage>>;

fn id(text: &str) -> String {
    text.to_string()
}

fn request(dest: &str, msg_id: u64, msg: BroadcastMessage) -> Envelope {
    Message {
        src: id("c1"),
        dest: id(dest),
        body: Body { msg_id: Some(msg_id), in_reply_to: None, extra: BodyType::Service(msg) },
    }
}

fn sent(action: Action<BroadcastMessage>) -> Vec<Envelope> {
    match action {
        Action::Send(out) => out,
        other => panic!("unexpected {:?}", other),
    }
}

fn deliver(nodes: &mut [Server<Broadcast>], names: &[&str], envelopes: Vec<Envelope>) {
    for envelope in envelopes {
        let to = names.iter().position(|n| *n == envelope.dest).unwrap();
        let answers = sent(nodes[to].run(Event::Line(envelope)));
        assert!(answers.is_empty());
    }
}

fn tick(nodes: &mut [Server<Broadcast>], names: &[&str]) {
    let mut all = Vec::new();
    for node in nodes.iter_mut() {
        all.extend(sent(node.run(Event::Tick)));
    }
    deliver(nodes, names, all);
}

fn read(node: &mut Server<Broadcast>, name: &str) -> Vec<u64> {
    let mut out = sent(node.run(Event::Line(request(name, 9, BroadcastMessage::Read))));
    assert_eq!(out.len(), 1);
    match out.remove(0).body.extra {
        BodyType::Service(BroadcastMessage::ReadOk { mut messages }) => {
            messages.sort();
            messages
        }
        other => panic!("no read_ok: {:?}", other),
    }
}

#[test]
fn a_broadcast_reaches_all_three_nodes_after_two_ticks() {
    let names = ["n1", "n2", "n3"];
    let mut nodes: Vec<Server<Broadcast>> = Vec::new();
    for name in names {
        let mut node = Server::new(Broadcast::default());
        let init = Message {
            src: id("c0"),
            dest: id(name),
            body: Body {
                msg_id: Some(1),
                in_reply_to: None,
                extra: BodyType::Init(Init::Init {
                    node_id: id(name),
                    node_ids: names.iter().map(|n| id(n)).collect(),
                }),
            },
        };
        let out = sent(node.run(Event::Line(init)));
        assert_eq!(out.len(), 1);
        assert_eq!(out[0].body.extra, BodyType::Init(Init::InitOk));
        let out = sent(node.run(Event::Line(request(name, 2, BroadcastMessage::Topology { topology: vec![] }))));
        assert_eq!(out[0].body.extra, BodyType::Service(BroadcastMessage::TopologyOk));
        nodes.push(node);
    }
    let out = sent(nodes[1].run(Event::Line(request("n2", 3, BroadcastMessage::Broadcast { message: 42 }))));
    assert_eq!(out.len(), 1);
    assert_eq!(out[0].body.extra, BodyType::Service(BroadcastMessage::BroadcastOk));
    assert_eq!(out[0].body.in_reply_to, Some(3));
    assert_eq!(out[0].dest, "c1");
    tick(&mut nodes, &names);
    tick(&mut nodes, &names);
    assert_eq!(read(&mut nodes[0], "n1"), vec![42]);
    assert_eq!(read(&mut nodes[2], "n3"), vec![42]);
    assert_eq!(read(&mut nodes[1], "n2"), vec![42]);
}

#[test]
fn every_node_reads_the_union_of_all_broadcasts_after_two_ticks() {
    let names = ["n3", "n1", "n4", "n2"];
    let mut nodes: Vec<Server<Broadcast>> = Vec::new();
    for name in names {
        let mut node = Server::new(Broadcast::default());
        let init = Message {
            src: id("c0"),
            dest: id(name),
            body: Body {
                msg_id: Some(1),
                in_reply_to: None,
                extra: BodyType::Init(Init::Init {
                    node_id: id(name),
                    node_ids: names.iter().map(|n| id(n)).collect(),
                }),
            },
        };
        node.run(Event::Line(init));
        node.run(Event::Line(request(name, 2, BroadcastMessage::Topology { topology: vec![] })));
        nodes.push(node);
    }
    for (at, value) in [(0usize, 10u64), (1, 11), (2, 12), (3, 13), (0, 11)] {
        nodes[at].run(Event::Line(request(names[at], 3, BroadcastMessage::Broadcast { message: value })));
    }
    tick(&mut nodes, &names);
    tick(&mut nodes, &names);
    for (at, name) in names.iter().enumerate() {
        assert_eq!(read(&mut nodes[at], name), vec![10, 11, 12, 13]);
    }
}

#[test]
fn counters_converge_over_servers() {
    let names = ["n1", "n2", "n3"];
    let mut nodes: Vec<Server<Counter>> = Vec::new();
    for name in names {
        let mut node = Server::new(Counter::default());
        let init = Message {
            src: id("c0"),
            dest: id(name),
            body: Body {
                msg_id: Some(1),
                in_reply_to: None,
                extra: BodyType::Init(Init::Init {
                    node_id: id(name),
                    node_ids: names.iter().rev().map(|n| id(n)).collect(),
                }),
            },
        };
        node.run(Event::Line(init));
        nodes.push(node);
    }
    let mut reads = vec![0u64; 3];
    let adds = [(0usize, 4u64), (2, 6), (1, 1), (0, 10), (2, 0)];
    for (round, (at, delta)) in adds.iter().enumerate() {
        let add = Message {
            src: id("c1"),
            dest: id(names[*at]),
            body: Body {
                msg_id: Some(round as u64),
                in_reply_to: None,
                extra: BodyType::Service(CounterMessage::Add { delta: *delta }),
            },
        };
        match nodes[*at].run(Event::Line(add)) {
            Action::Send(out) => {
                assert_eq!(out.len(), 1);
                assert_eq!(out[0].body.extra, BodyType::Service(CounterMessage::AddOk));
                assert_eq!(out[0].body.in_reply_to, Some(round as u64));
            }
            other => panic!("unexpected {:?}", other),
        }
        let mut under_way = Vec::new();
        for node in nodes.iter_mut() {
            match node.run(Event::Tick) {
                Action::Send(out) => under_way.extend(out),
                other => panic!("unexpected {:?}", other),
            }
        }
        for envelope in under_way {
            let to = names.iter().position(|n| *n == envelope.dest).unwrap();
            match nodes[to].run(Event::Line(envelope)) {
                Action::Send(out) => assert!(out.is_empty()),
                other => panic!("unexpected {:?}", other),
            }
        }
        let total: u64 = adds[..=round].iter().map(|(_, d)| d).sum();
        for (n, node) in nodes.iter_mut().enumerate() {
            let read = Message {
                src: id("c1"),
                dest: id(names[n]),
                body: Body { msg_id: Some(99), in_reply_to: None, extra: BodyType::Service(CounterMessage::Read) },
            };
            match node.run(Event::Line(read)) {
                Action::Send(out) => {
                    assert_eq!(out[0].body.extra, BodyType::Service(CounterMessage::ReadOk { value: total }));
                    assert!(total >= reads[n]);
                    reads[n] = total;
                }
                other => panic!("unexpected {:?}", other),
            }
        }
    }
    assert_eq!(reads, vec![21, 21, 21]);
}
