use glomers::kafka::{Kafka, Message};
use glomers::message::{Body, Message as Envelope, Service};
use glomers::server::{Context, Runtime};
use glomers::string_map::StringMap;

fn key(text: &str) -> String {
    text.to_string()
}

fn context() -> Context {
    Context {
        rt: Runtime { node_id: key("n1"), node_ids: vec![key("n1")] },
        msg: Envelope {
            src: key("n1"),
            dest: key("c1"),
            body: Body { msg_id: Some(1), in_reply_to: Some(1), extra: () },
        },
    }
}

fn offsets(pairs: &[(&str, u64)]) -> StringMap<u64> {
    StringMap::from_pairs(pairs.iter().map(|(k, v)| (key(k), *v)).collect())
}

fn send(node: &mut Kafka, k: &str, msg: u64) -> u64 {
    match node.handle(Message::Send { key: key(k), msg }, context()) {
        Some(Message::SendOk { offset }) => offset,
        other => panic!("no send_ok: {:?}", other),
    }
}

fn poll(node: &mut Kafka, from: &[(&str, u64)]) -> StringMap<Vec<[u64; 2]>> {
    match node.handle(Message::Poll { offsets: offsets(from) }, context()) {
        Some(Message::PollOk { msgs }) => msgs,
        other => panic!("no poll_ok: {:?}", other),
    }
}

fn commit(node: &mut Kafka, to: &[(&str, u64)]) {
    match node.handle(Message::CommitOffsets { offsets: offsets(to) }, context()) {
        Some(Message::CommitOffsetsOk) => {}
        other => panic!("no commit_offsets_ok: {:?}", other),
    }
}

fn list(node: &mut Kafka, keys: &[&str]) -> Vec<(String, u64)> {
    let keys = keys.iter().map(|k| key(k)).collect();
    match node.handle(Message::ListCommittedOffsets { keys }, context()) {
        Some(Message::ListCommittedOffsetsOk { offsets }) => {
            let mut pairs = offsets.into_pairs();
            pairs.sort();
            pairs
        }
        other => panic!("no list_committed_offsets_ok: {:?}", other),
    }
}

fn with_commits(pairs: &[(&str, u64)]) -> Kafka {
    Kafka::from_parts(StringMap::new(), offsets(pairs))
}

#[test]
fn send_then_poll_from_an_offset() {
    let mut node = Kafka::default();
    assert_eq!(send(&mut node, "k", 10), 0);
    assert_eq!(send(&mut node, "k", 20), 1);
    let msgs = poll(&mut node, &[("k", 1)]);
    assert_eq!(msgs.len(), 1);
    assert_eq!(msgs.get(&key("k")), Some(&vec![[1, 20]]));
}

#[test]
fn the_first_commit_of_a_key_is_ignored() {
    let mut node = Kafka::default();
    commit(&mut node, &[("k", 5)]);
    assert_eq!(list(&mut node, &["k"]), vec![]);
}

#[test]
fn offsets_of_one_key_are_dense() {
    let mut node = Kafka::default();
    for n in 0..25u64 {
        assert_eq!(send(&mut node, "k", 100 + n), n);
    }
}

#[test]
fn every_key_has_its_own_offsets() {
    let mut node = Kafka::default();
    assert_eq!(send(&mut node, "a", 1), 0);
    assert_eq!(send(&mut node, "b", 2), 0);
    assert_eq!(send(&mut node, "a", 3), 1);
    assert_eq!(send(&mut node, "", 4), 0);
    assert_eq!(send(&mut node, "b", 5), 1);
    assert_eq!(send(&mut node, "a", 6), 2);
    let msgs = poll(&mut node, &[("a", 0), ("b", 0), ("", 0)]);
    assert_eq!(msgs.len(), 3);
    assert_eq!(msgs.get(&key("a")), Some(&vec![[0, 1], [1, 3], [2, 6]]));
    assert_eq!(msgs.get(&key("b")), Some(&vec![[0, 2], [1, 5]]));
    assert_eq!(msgs.get(&key("")), Some(&vec![[0, 4]]));
}

#[test]
fn poll_returns_the_entries_from_the_offset_on_in_order() {
    let mut node = Kafka::default();
    for n in 0..6u64 {
        send(&mut node, "k", n * n);
    }
    for start in 0..6u64 {
        let msgs = poll(&mut node, &[("k", start)]);
        let expected: Vec<[u64; 2]> = (start..6).map(|i| [i, i * i]).collect();
        assert_eq!(msgs.get(&key("k")), Some(&expected));
    }
}

#[test]
fn poll_leaves_out_keys_without_entries() {
    let mut node = Kafka::default();
    send(&mut node, "k", 10);
    send(&mut node, "k", 20);
    let msgs = poll(&mut node, &[("k", 2), ("unknown", 0), ("far", u64::MAX)]);
    assert_eq!(msgs.len(), 0);
    assert!(msgs.is_empty());
    let msgs = poll(&mut node, &[]);
    assert!(msgs.is_empty());
}

#[test]
fn poll_does_not_change_the_logs() {
    let mut node = Kafka::default();
    send(&mut node, "k", 10);
    poll(&mut node, &[("k", 0)]);
    poll(&mut node, &[("k", 0)]);
    assert_eq!(send(&mut node, "k", 20), 1);
    assert_eq!(poll(&mut node, &[("k", 0)]).get(&key("k")), Some(&vec![[0, 10], [1, 20]]));
}

#[test]
fn a_commit_never_lowers_a_committed_offset() {
    let mut node = with_commits(&[("k", 2)]);
    commit(&mut node, &[("k", 5)]);
    assert_eq!(list(&mut node, &["k"]), vec![(key("k"), 5)]);
    commit(&mut node, &[("k", 3)]);
    assert_eq!(list(&mut node, &["k"]), vec![(key("k"), 5)]);
    commit(&mut node, &[("k", 5)]);
    assert_eq!(list(&mut node, &["k"]), vec![(key("k"), 5)]);
    commit(&mut node, &[("k", 6)]);
    assert_eq!(list(&mut node, &["k"]), vec![(key("k"), 6)]);
}

#[test]
fn a_commit_touches_only_keys_that_have_a_committed_offset() {
    let mut node = with_commits(&[("a", 1), ("b", 10)]);
    commit(&mut node, &[("a", 4), ("b", 4), ("c", 4)]);
    assert_eq!(list(&mut node, &["a", "b", "c"]), vec![(key("a"), 4), (key("b"), 10)]);
}

#[test]
fn sending_does_not_commit() {
    let mut node = Kafka::default();
    send(&mut node, "k", 1);
    commit(&mut node, &[("k", 0)]);
    assert_eq!(list(&mut node, &["k"]), vec![]);
}

#[test]
fn list_reports_only_the_keys_asked_for() {
    let mut node = with_commits(&[("a", 1), ("b", 2), ("c", 3)]);
    assert_eq!(list(&mut node, &["c", "a", "zzz", "a"]), vec![(key("a"), 1), (key("c"), 3)]);
    assert_eq!(list(&mut node, &[]), vec![]);
}

#[test]
fn from_parts_keeps_the_logs() {
    let logs = StringMap::from_pairs(vec![(key("k"), vec![7u64, 8, 9])]);
    let mut node = Kafka::from_parts(logs, StringMap::new());
    assert_eq!(send(&mut node, "k", 10), 3);
    assert_eq!(poll(&mut node, &[("k", 2)]).get(&key("k")), Some(&vec![[2, 9], [3, 10]]));
}

#[test]
fn an_answer_that_arrives_as_a_message_is_dropped_by_the_log() {
    let mut node = Kafka::default();
    send(&mut node, "k", 1);
    assert!(node.handle(Message::SendOk { offset: 3 }, context()).is_none());
    assert!(node.handle(Message::CommitOffsetsOk, context()).is_none());
    assert!(node.handle(Message::PollOk { msgs: StringMap::new() }, context()).is_none());
    assert!(node.handle(Message::ListCommittedOffsetsOk { offsets: offsets(&[("k", 1)]) }, context()).is_none());
    assert_eq!(send(&mut node, "k", 2), 1);
    assert_eq!(list(&mut node, &["k"]), vec![]);
}

#[test]
fn the_log_does_not_gossip() {
    let mut node = Kafka::default();
    send(&mut node, "k", 1);
    let rt = Runtime { node_id: key("n1"), node_ids: vec![key("n1"), key("n2")] };
    assert!(node.gossip(&rt).is_empty());
    assert_eq!(node.gossip_interval(), 1000);
}

#[test]
fn clone_of_a_log_holds_the_same_entries() {
    let mut node = with_commits(&[("k", 1)]);
    send(&mut node, "k", 10);
    send(&mut node, "k", 20);
    let mut copy = node.clone();
    assert_eq!(send(&mut node, "k", 30), 2);
    assert_eq!(poll(&mut copy, &[("k", 0)]).get(&key("k")), Some(&vec![[0, 10], [1, 20]]));
    assert_eq!(list(&mut copy, &["k"]), vec![(key("k"), 1)]);
}
