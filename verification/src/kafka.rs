//! The log workload: append-only sequences of numbers, one for each key,
//! and for each key the highest offset that a consumer has committed.
//! Nothing is replicated: every node keeps its own logs.

use crate::message::{BodyType, Service};
use crate::order::ids_view;
use crate::server::{Context, ContextView, Runtime, RuntimeView};
use crate::string_map::{lemma_pairs_dom, pairs_to_map, StringMap};
use vstd::prelude::*;

verus! {

/// The messages of the log workload.
#[derive(Clone, Debug)]
pub enum Message {
    Send { key: String, msg: u64 },
    SendOk { offset: u64 },
    Poll { offsets: StringMap<u64> },
    PollOk { msgs: StringMap<Vec<[u64; 2]>> },
    CommitOffsets { offsets: StringMap<u64> },
    CommitOffsetsOk,
    ListCommittedOffsets { keys: Vec<String> },
    ListCommittedOffsetsOk { offsets: StringMap<u64> },
}

/// The log of `key`: empty as long as nothing was sent to it.
pub open spec fn log_of(logs: Map<Seq<char>, Seq<u64>>, key: Seq<char>) -> Seq<u64> {
    if logs.contains_key(key) {
        logs[key]
    } else {
        Seq::empty()
    }
}

/// The logs after `value` was appended to the log of `key`.
pub open spec fn appended(logs: Map<Seq<char>, Seq<u64>>, key: Seq<char>, value: u64) -> Map<
    Seq<char>,
    Seq<u64>,
> {
    logs.insert(key, log_of(logs, key).push(value))
}

/// The entries of `log` from offset `start` on, each as offset and value,
/// in the order of their offsets.
pub open spec fn entries_from(log: Seq<u64>, start: u64) -> Seq<(u64, u64)> {
    if start < log.len() {
        Seq::new((log.len() - start) as nat, |i: int| ((start + i) as u64, log[start + i]))
    } else {
        Seq::empty()
    }
}

/// What a poll with the start offsets `offsets` returns: for each key asked
/// for that has a log with an entry at or behind its start offset, those
/// entries. Other keys are left out.
pub open spec fn polled(logs: Map<Seq<char>, Seq<u64>>, offsets: Map<Seq<char>, u64>) -> Map<
    Seq<char>,
    Seq<(u64, u64)>,
> {
    Map::new(
        |k: Seq<char>| offsets.contains_key(k) && logs.contains_key(k) && offsets[k] < logs[k].len(),
        |k: Seq<char>| entries_from(logs[k], offsets[k]),
    )
}

/// The committed offsets after a request to commit `offsets`: a key that
/// has a committed offset keeps the larger of the two; a key that has none
/// gets none.
pub open spec fn committed(commits: Map<Seq<char>, u64>, offsets: Map<Seq<char>, u64>) -> Map<
    Seq<char>,
    u64,
> {
    Map::new(
        |k: Seq<char>| commits.contains_key(k),
        |k: Seq<char>|
            if offsets.contains_key(k) && offsets[k] > commits[k] {
                offsets[k]
            } else {
                commits[k]
            },
    )
}

/// The committed offsets of those of `keys` that have one.
pub open spec fn listed(commits: Map<Seq<char>, u64>, keys: Seq<Seq<char>>) -> Map<Seq<char>, u64> {
    commits.restrict(keys.to_set())
}

/// The entries that the vectors of a poll's answer hold.
pub open spec fn records(msgs: Map<Seq<char>, Vec<[u64; 2]>>) -> Map<Seq<char>, Seq<(u64, u64)>> {
    msgs.map_values(|v: Vec<[u64; 2]>| v@.map_values(|e: [u64; 2]| (e[0], e[1])))
}

/// The sequences that the vectors of the logs hold.
pub open spec fn contents(logs: Map<Seq<char>, Vec<u64>>) -> Map<Seq<char>, Seq<u64>> {
    logs.map_values(|v: Vec<u64>| v@)
}

/// Lists of entries with the same keys and the same contents stand for the
/// same logs.
proof fn lemma_same_contents(a: Seq<(Seq<char>, Vec<u64>)>, b: Seq<(Seq<char>, Vec<u64>)>)
    requires
        a.len() == b.len(),
        forall|i: int| 0 <= i < a.len() ==> (#[trigger] b[i]).0 == a[i].0 && b[i].1@ == a[i].1@,
    ensures
        contents(pairs_to_map(a)) == contents(pairs_to_map(b)),
    decreases a.len(),
{
    if a.len() > 0 {
        let a0 = a.drop_last();
        let b0 = b.drop_last();
        assert forall|i: int| 0 <= i < a0.len() implies (#[trigger] b0[i]).0 == a0[i].0 && b0[i].1@
            == a0[i].1@ by {
            assert(b0[i] == b[i] && a0[i] == a[i]);
        }
        lemma_same_contents(a0, b0);
        assert(b[b.len() - 1].0 == a[a.len() - 1].0 && b[b.len() - 1].1@ == a[a.len() - 1].1@);
        assert(contents(pairs_to_map(a)) =~= contents(pairs_to_map(a0)).insert(a.last().0, a.last().1@));
        assert(contents(pairs_to_map(b)) =~= contents(pairs_to_map(b0)).insert(b.last().0, b.last().1@));
    } else {
        assert(contents(pairs_to_map(a)) =~= contents(pairs_to_map(b)));
    }
}

/// The state of the log workload.
#[derive(Debug)]
pub struct Kafka {
    logs: StringMap<Vec<u64>>,
    commits: StringMap<u64>,
}

impl Clone for Kafka {
    /// A workload with the same logs and the same committed offsets.
    fn clone(&self) -> (k: Self)
        ensures
            k.logs() == self.logs(),
            k.commits() == self.commits(),
    {
        let commits = self.commits.clone();
        assert(commits.entries() =~= self.commits.entries());
        let logs = self.logs.clone();
        proof {
            let a = self.logs.entries();
            let b = logs.entries();
            assert forall|i: int| 0 <= i < a.len() implies (#[trigger] b[i]).1@ == a[i].1@ by {
                assert(b[i].0 == a[i].0);
            }
            lemma_same_contents(a, b);
        }
        Kafka { logs, commits }
    }
}

impl Default for Kafka {
    /// No logs, no committed offsets.
    fn default() -> (k: Self)
        ensures
            k.logs() == Map::<Seq<char>, Seq<u64>>::empty(),
            k.commits() == Map::<Seq<char>, u64>::empty(),
    {
        let k = Kafka { logs: StringMap::new(), commits: StringMap::new() };
        assert(k.logs() =~= Map::<Seq<char>, Seq<u64>>::empty());
        k
    }
}

impl Kafka {
    /// The log of each key.
    pub closed spec fn logs(&self) -> Map<Seq<char>, Seq<u64>> {
        contents(self.logs@)
    }

    /// The committed offset of each key that has one.
    pub closed spec fn commits(&self) -> Map<Seq<char>, u64> {
        self.commits@
    }

    /// A workload that holds the logs `logs` and the committed offsets
    /// `commits`.
    pub fn from_parts(logs: StringMap<Vec<u64>>, commits: StringMap<u64>) -> (k: Self)
        ensures
            k.logs() == contents(logs@),
            k.commits() == commits@,
    {
        Kafka { logs, commits }
    }

    /// Appends `value` to the log of `key` and returns its offset.
    fn send(&mut self, key: String, value: u64) -> (offset: u64)
        ensures
            final(self).logs() == appended(old(self).logs(), key@, value),
            final(self).commits() == old(self).commits(),
            offset == log_of(old(self).logs(), key@).len(),
    {
        let mut log = match self.logs.remove(&key) {
            Some(log) => log,
            None => Vec::new(),
        };
        assert(log@ == log_of(old(self).logs(), key@));
        let offset = log.len() as u64;
        log.push(value);
        self.logs.insert(key, log);
        assert(self.logs() =~= appended(old(self).logs(), key@, value));
        offset
    }

    /// The entries of `log` from offset `start` on.
    fn tail(log: &Vec<u64>, start: u64) -> (entries: Vec<[u64; 2]>)
        requires
            start < log@.len(),
        ensures
            entries@.map_values(|e: [u64; 2]| (e[0], e[1])) == entries_from(log@, start),
    {
        let mut entries: Vec<[u64; 2]> = Vec::new();
        let len: usize = log.len();
        assert(start < len);
        let mut i: usize = start as usize;
        while i < len
            invariant
                start <= i <= len == log@.len(),
                entries@.len() == i - start,
                forall|j: int|
                    0 <= j < entries@.len() ==> (#[trigger] entries@[j])[0] == start + j && entries@[j][1]
                        == log@[start + j],
            decreases log@.len() - i,
        {
            entries.push([i as u64, log[i]]);
            i += 1;
        }
        assert(entries@.map_values(|e: [u64; 2]| (e[0], e[1])) =~= entries_from(log@, start));
        entries
    }

    /// Answers a poll.
    fn poll(&self, offsets: &StringMap<u64>) -> (msgs: StringMap<Vec<[u64; 2]>>)
        ensures
            records(msgs@) == polled(self.logs(), offsets@),
    {
        let mut msgs: StringMap<Vec<[u64; 2]>> = StringMap::new();
        let mut n: usize = 0;
        offsets.distinct();
        while n < offsets.len()
            invariant
                n <= offsets.entries().len(),
                forall|k: Seq<char>|
                    msgs@.contains_key(k) <==> (exists|j: int|
                        0 <= j < n && #[trigger] offsets.entries()[j].0 == k) && polled(
                        self.logs(),
                        offsets@,
                    ).contains_key(k),
                forall|k: Seq<char>|
                    msgs@.contains_key(k) ==> (#[trigger] msgs@[k])@.map_values(|e: [u64; 2]| (e[0], e[1]))
                        == entries_from(self.logs()[k], offsets@[k]),
            decreases offsets.entries().len() - n,
        {
            let key = offsets.key_at(n);
            let start = *offsets.value_at(n);
            let ghost before = msgs@;
            match self.logs.get(key) {
                Some(log) => {
                    if log.len() as u64 > start {
                        let entries = Self::tail(log, start);
                        msgs.insert(key.clone(), entries);
                    }
                },
                None => {},
            }
            proof {
                assert forall|k: Seq<char>|
                    msgs@.contains_key(k) <==> (exists|j: int|
                        0 <= j < n + 1 && #[trigger] offsets.entries()[j].0 == k) && polled(
                        self.logs(),
                        offsets@,
                    ).contains_key(k) by {
                    if k == key@ {
                        assert(offsets.entries()[n as int].0 == k);
                    } else {
                        if before.contains_key(k) {
                            let j = choose|j: int| 0 <= j < n && #[trigger] offsets.entries()[j].0 == k;
                            assert(offsets.entries()[j].0 == k);
                        }
                        if exists|j: int| 0 <= j < n + 1 && #[trigger] offsets.entries()[j].0 == k {
                            let j = choose|j: int| 0 <= j < n + 1 && #[trigger] offsets.entries()[j].0 == k;
                            assert(j < n);
                        }
                    }
                }
            }
            n += 1;
        }
        proof {
            lemma_pairs_dom(offsets.entries());
            assert(records(msgs@) =~= polled(self.logs(), offsets@));
        }
        msgs
    }

    /// Raises the committed offset of each key of `offsets` that has one
    /// and lies below what is asked for.
    fn commit(&mut self, offsets: &StringMap<u64>)
        ensures
            final(self).commits() == committed(old(self).commits(), offsets@),
            final(self).logs() == old(self).logs(),
    {
        let mut n: usize = 0;
        offsets.distinct();
        while n < offsets.len()
            invariant
                n <= offsets.entries().len(),
                crate::string_map::distinct_keys(offsets.entries()),
                self.logs() == old(self).logs(),
                self.commits().dom() == old(self).commits().dom(),
                forall|k: Seq<char>| #[trigger]
                    self.commits().contains_key(k) ==> self.commits()[k] == if (exists|j: int|
                        0 <= j < n && #[trigger] offsets.entries()[j].0 == k) {
                        committed(old(self).commits(), offsets@)[k]
                    } else {
                        old(self).commits()[k]
                    },
            decreases offsets.entries().len() - n,
        {
            let key = offsets.key_at(n);
            let offset = *offsets.value_at(n);
            let ghost before = self.commits();
            let raise = match self.commits.get(key) {
                Some(v) => *v < offset,
                None => false,
            };
            if raise {
                self.commits.insert(key.clone(), offset);
            }
            proof {
                assert(self.commits().dom() =~= before.dom());
                assert forall|k: Seq<char>| #[trigger]
                    self.commits().contains_key(k) implies self.commits()[k] == if (exists|j: int|
                    0 <= j < n + 1 && #[trigger] offsets.entries()[j].0 == k) {
                    committed(old(self).commits(), offsets@)[k]
                } else {
                    old(self).commits()[k]
                } by {
                    if k == key@ {
                        assert(offsets.entries()[n as int].0 == k);
                        if exists|j: int| 0 <= j < n && #[trigger] offsets.entries()[j].0 == k {
                            let j = choose|j: int| 0 <= j < n && #[trigger] offsets.entries()[j].0 == k;
                            assert(offsets.entries()[j].0 == offsets.entries()[n as int].0);
                        }
                    } else {
                        assert(before.contains_key(k));
                        if exists|j: int| 0 <= j < n + 1 && #[trigger] offsets.entries()[j].0 == k {
                            let j = choose|j: int| 0 <= j < n + 1 && #[trigger] offsets.entries()[j].0 == k;
                            assert(j < n);
                        }
                        if exists|j: int| 0 <= j < n && #[trigger] offsets.entries()[j].0 == k {
                            let j = choose|j: int| 0 <= j < n && #[trigger] offsets.entries()[j].0 == k;
                            assert(0 <= j < n + 1 && offsets.entries()[j].0 == k);
                        }
                    }
                }
            }
            n += 1;
        }
        proof {
            lemma_pairs_dom(offsets.entries());
            assert forall|k: Seq<char>| #[trigger]
                self.commits().contains_key(k) implies self.commits()[k] == committed(
                old(self).commits(),
                offsets@,
            )[k] by {
                if !(exists|j: int| 0 <= j < n && #[trigger] offsets.entries()[j].0 == k) {
                    assert(!offsets@.contains_key(k));
                }
            }
            assert(self.commits() =~= committed(old(self).commits(), offsets@));
        }
    }

    /// The committed offsets of those of `keys` that have one.
    fn list(&self, keys: &Vec<String>) -> (offsets: StringMap<u64>)
        ensures
            offsets@ == listed(self.commits(), ids_view(keys@)),
    {
        let mut offsets: StringMap<u64> = StringMap::new();
        let mut n: usize = 0;
        while n < keys.len()
            invariant
                n <= keys@.len(),
                offsets@ == listed(self.commits(), ids_view(keys@).take(n as int)),
            decreases keys@.len() - n,
        {
            let key = &keys[n];
            match self.commits.get(key) {
                Some(offset) => {
                    offsets.insert(key.clone(), *offset);
                },
                None => {},
            }
            proof {
                let ids = ids_view(keys@);
                assert(ids.take(n + 1) =~= ids.take(n as int).push(key@));
                ids.take(n as int).lemma_push_to_set_commute(key@);
                assert(offsets@ =~= listed(self.commits(), ids.take(n + 1)));
            }
            n += 1;
        }
        proof {
            assert(ids_view(keys@).take(n as int) =~= ids_view(keys@));
        }
        offsets
    }
}

impl Service for Kafka {
    type Output = Message;

    open spec fn handled(
        pre: Self,
        msg: Message,
        ctx: ContextView,
        post: Self,
        reply: Option<Message>,
    ) -> bool {
        match msg {
            Message::Send { key, msg: value } => {
                &&& post.logs() == appended(pre.logs(), key@, value)
                &&& post.commits() == pre.commits()
                &&& reply == Some(Message::SendOk { offset: log_of(pre.logs(), key@).len() as u64 })
            },
            Message::Poll { offsets } => {
                &&& post == pre
                &&& reply matches Some(Message::PollOk { msgs }) && records(msgs@) == polled(
                    pre.logs(),
                    offsets@,
                )
            },
            Message::CommitOffsets { offsets } => {
                &&& post.logs() == pre.logs()
                &&& post.commits() == committed(pre.commits(), offsets@)
                &&& reply == Some(Message::CommitOffsetsOk)
            },
            Message::ListCommittedOffsets { keys } => {
                &&& post == pre
                &&& reply matches Some(Message::ListCommittedOffsetsOk { offsets }) && offsets@ == listed(
                    pre.commits(),
                    ids_view(keys@),
                )
            },
            _ => post == pre && reply is None,
        }
    }

    open spec fn gossiped(
        pre: Self,
        rt: RuntimeView,
        post: Self,
        out: Seq<crate::message::Message<BodyType<Message>>>,
    ) -> bool {
        post == pre && out.len() == 0
    }

    open spec fn interval(&self) -> u64 {
        1000
    }

    /// Answers a request; a message that is no request is dropped.
    fn handle(&mut self, msg: Message, ctx: Context) -> (reply: Option<Message>) {
        match msg {
            Message::Send { key, msg } => {
                let offset = self.send(key, msg);
                Some(Message::SendOk { offset })
            },
            Message::Poll { offsets } => {
                let msgs = self.poll(&offsets);
                Some(Message::PollOk { msgs })
            },
            Message::CommitOffsets { offsets } => {
                self.commit(&offsets);
                Some(Message::CommitOffsetsOk)
            },
            Message::ListCommittedOffsets { keys } => {
                let offsets = self.list(&keys);
                Some(Message::ListCommittedOffsetsOk { offsets })
            },
            _ => None,
        }
    }

    /// The logs are not replicated: there is nothing to send.
    fn gossip(&mut self, rt: &Runtime) -> (out: Vec<crate::message::Message<BodyType<Message>>>) {
        Vec::new()
    }

    fn gossip_interval(&self) -> (ms: u64) {
        1000
    }
}

/// The logs after the values `values` were sent to `key`, one after the
/// other.
pub open spec fn appended_all(logs: Map<Seq<char>, Seq<u64>>, key: Seq<char>, values: Seq<u64>) -> Map<
    Seq<char>,
    Seq<u64>,
>
    decreases values.len(),
{
    if values.len() == 0 {
        logs
    } else {
        appended(appended_all(logs, key, values.drop_last()), key, values.last())
    }
}

/// Sending appends: after the values `values` were sent to `key`, its log
/// is what it was before, followed by `values`; no other log has changed.
pub proof fn lemma_appended_all(logs: Map<Seq<char>, Seq<u64>>, key: Seq<char>, values: Seq<u64>)
    ensures
        log_of(appended_all(logs, key, values), key) == log_of(logs, key) + values,
        forall|k: Seq<char>| k != key ==> log_of(appended_all(logs, key, values), k) == log_of(logs, k),
    decreases values.len(),
{
    if values.len() == 0 {
        assert(log_of(logs, key) + values =~= log_of(logs, key));
    } else {
        lemma_appended_all(logs, key, values.drop_last());
        assert((log_of(logs, key) + values.drop_last()).push(values.last()) =~= log_of(logs, key) + values);
    }
}

/// Consecutive sends to one key are answered with consecutive offsets:
/// where a node takes in one send after the other, all to `key`, the send
/// numbered `i` is answered with the offset `i` behind the length that the
/// log of `key` had before the first. On a new node these are 0, 1, 2 and
/// so on.
pub proof fn lemma_sends_are_numbered(
    states: Seq<Kafka>,
    key: Seq<char>,
    sends: Seq<Message>,
    ctxs: Seq<ContextView>,
    replies: Seq<Option<Message>>,
    i: int,
)
    requires
        states.len() == sends.len() + 1,
        ctxs.len() == sends.len(),
        replies.len() == sends.len(),
        forall|j: int|
            0 <= j < sends.len() ==> (#[trigger] sends[j] matches Message::Send { key: k, .. } && k@ == key),
        forall|j: int|
            0 <= j < sends.len() ==> Kafka::handled(states[j], #[trigger] sends[j], ctxs[j], states[j + 1], replies[j]),
        0 <= i < sends.len(),
    ensures
        log_of(states[i].logs(), key).len() == log_of(states[0].logs(), key).len() + i,
        replies[i] == Some(Message::SendOk { offset: (log_of(states[0].logs(), key).len() + i) as u64 }),
        log_of(states[i + 1].logs(), key).last() == sends[i]->msg,
    decreases i,
{
    assert(Kafka::handled(states[i], sends[i], ctxs[i], states[i + 1], replies[i]));
    if i > 0 {
        lemma_sends_are_numbered(states, key, sends, ctxs, replies, i - 1);
        assert(Kafka::handled(states[i - 1], sends[i - 1], ctxs[i - 1], states[i - 1 + 1], replies[i - 1]));
    }
}

/// A poll from offset `start` returns exactly the entries at or behind
/// `start`, in the order of their offsets: as many as there are, the one
/// numbered `j` with offset `start + j` and the value that the log holds
/// there.
pub proof fn lemma_poll_exact(logs: Map<Seq<char>, Seq<u64>>, offsets: Map<Seq<char>, u64>, key: Seq<char>)
    requires
        offsets.contains_key(key),
    ensures
        polled(logs, offsets).contains_key(key) <==> offsets[key] < log_of(logs, key).len(),
        polled(logs, offsets).contains_key(key) ==> {
            &&& polled(logs, offsets)[key].len() == log_of(logs, key).len() - offsets[key]
            &&& forall|j: int|
                0 <= j < polled(logs, offsets)[key].len() ==> #[trigger] polled(logs, offsets)[key][j] == (
                    (offsets[key] + j) as u64,
                    log_of(logs, key)[offsets[key] + j],
                )
        },
{
}

/// A log is only ever appended to, and a committed offset only ever
/// rises: whatever message a node takes in, every log begins afterwards
/// with what it held before, so that no offset is used again or moved,
/// and the keys that have a committed offset are the same, none with a
/// lower one.
pub proof fn lemma_logs_and_commits_only_grow(
    pre: Kafka,
    msg: Message,
    ctx: ContextView,
    post: Kafka,
    reply: Option<Message>,
)
    requires
        Kafka::handled(pre, msg, ctx, post, reply),
    ensures
        forall|k: Seq<char>| log_of(pre.logs(), k).is_prefix_of(#[trigger] log_of(post.logs(), k)),
        post.commits().dom() == pre.commits().dom(),
        forall|k: Seq<char>| #[trigger] pre.commits().contains_key(k) ==> post.commits()[k] >= pre.commits()[k],
{
    match msg {
        Message::CommitOffsets { offsets } => {
            lemma_commits_never_fall(pre.commits(), offsets@);
        },
        _ => {},
    }
}

/// The ratchet: a request to commit never lowers a committed offset, and
/// never gives one to a key that had none.
pub proof fn lemma_commits_never_fall(commits: Map<Seq<char>, u64>, offsets: Map<Seq<char>, u64>)
    ensures
        committed(commits, offsets).dom() == commits.dom(),
        forall|k: Seq<char>| #[trigger]
            commits.contains_key(k) ==> committed(commits, offsets)[k] >= commits[k],
        forall|k: Seq<char>| #[trigger]
            commits.contains_key(k) && offsets.contains_key(k) ==> committed(commits, offsets)[k] == if commits[k]
                < offsets[k] {
                offsets[k]
            } else {
                commits[k]
            },
{
    assert(committed(commits, offsets).dom() =~= commits.dom());
}

/// A lower request after a higher one changes nothing: where `key` has a
/// committed offset, committing `first` and then the lower `second` leaves
/// what committing `first` left, which is `first` unless more was committed
/// before.
pub proof fn lemma_commit_ratchet(
    commits: Map<Seq<char>, u64>,
    first: Map<Seq<char>, u64>,
    second: Map<Seq<char>, u64>,
    key: Seq<char>,
)
    requires
        commits.contains_key(key),
        first.contains_key(key),
        second.contains_key(key),
        second[key] < first[key],
    ensures
        committed(committed(commits, first), second)[key] == committed(commits, first)[key],
        commits[key] <= first[key] ==> committed(committed(commits, first), second)[key] == first[key],
{
}

/// Listing reports committed offsets only: each key listed was asked for
/// and has a committed offset, which is what is reported.
pub proof fn lemma_listed_are_committed(commits: Map<Seq<char>, u64>, keys: Seq<Seq<char>>)
    ensures
        forall|k: Seq<char>| #[trigger]
            listed(commits, keys).contains_key(k) <==> commits.contains_key(k) && keys.contains(k),
        forall|k: Seq<char>| #[trigger]
            listed(commits, keys).contains_key(k) ==> listed(commits, keys)[k] == commits[k],
{
}

} // verus!
