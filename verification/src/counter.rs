//! The counter workload: a counter that only grows, spread over all nodes.
//! Every node keeps the sum of what was added at itself and, for each peer,
//! the last sum that the peer reported; the value read is the sum of all.

use crate::message::{others, sent_to, BodyType, Service};
use crate::server::{Context, ContextView, Runtime, RuntimeView};
use crate::string_map::{distinct_keys, lemma_pairs_dom, pairs_to_map, StringMap};
use vstd::prelude::*;

verus! {

/// The messages of the counter workload.
#[derive(Clone, Debug, PartialEq, Eq)]
pub enum Message {
    Gossip { counter: u64 },
    Add { delta: u64 },
    AddOk,
    Read,
    ReadOk { value: u64 },
}

/// The sum of the values of a finite map.
pub open spec fn total(m: Map<Seq<char>, u64>) -> nat
    decreases m.dom().len(),
    when m.dom().finite()
{
    if m.dom().len() == 0 {
        0
    } else {
        let k = m.dom().choose();
        m[k] as nat + total(m.remove(k))
    }
}

/// The value that a node reads: what was added at the node itself and what
/// its peers last reported.
pub open spec fn read_value(local: u64, known: Map<Seq<char>, u64>) -> nat {
    local as nat + total(known)
}

/// The sum does not depend on the key that is taken out first.
pub proof fn lemma_total_remove(m: Map<Seq<char>, u64>, k: Seq<char>)
    requires
        m.dom().finite(),
        m.contains_key(k),
    ensures
        total(m) == m[k] as nat + total(m.remove(k)),
    decreases m.dom().len(),
{
    let c = m.dom().choose();
    if c != k {
        lemma_total_remove(m.remove(c), k);
        lemma_total_remove(m.remove(k), c);
        assert(m.remove(c).remove(k) =~= m.remove(k).remove(c));
    }
}

/// Setting the value at a key replaces what the key contributed to the sum.
pub proof fn lemma_total_insert(m: Map<Seq<char>, u64>, k: Seq<char>, v: u64)
    requires
        m.dom().finite(),
    ensures
        total(m.insert(k, v)) == v as nat + total(m.remove(k)),
{
    lemma_total_remove(m.insert(k, v), k);
    assert(m.insert(k, v).remove(k) =~= m.remove(k));
}

/// The sum of the map that a list with distinct keys stands for grows by
/// the value of each entry added at the end.
proof fn lemma_total_push(s: Seq<(Seq<char>, u64)>)
    requires
        distinct_keys(s),
        s.len() > 0,
    ensures
        total(pairs_to_map(s)) == s.last().1 as nat + total(pairs_to_map(s.drop_last())),
{
    let t = s.drop_last();
    lemma_pairs_dom(t);
    lemma_total_insert(pairs_to_map(t), s.last().0, s.last().1);
    if pairs_to_map(t).contains_key(s.last().0) {
        let i = choose|i: int| 0 <= i < t.len() && #[trigger] t[i].0 == s.last().0;
        assert(s[i].0 == s[s.len() - 1].0);
    }
    assert(pairs_to_map(t).remove(s.last().0) =~= pairs_to_map(t));
}

/// The state of the counter workload.
#[derive(Debug)]
pub struct Counter {
    counter: u64,
    known_counter: StringMap<u64>,
}

impl Clone for Counter {
    /// A workload with the same sum and the same record of its peers.
    fn clone(&self) -> (c: Self)
        ensures
            c.local() == self.local(),
            c.known() == self.known(),
    {
        let known_counter = self.known_counter.clone();
        assert(known_counter.entries() =~= self.known_counter.entries());
        Counter { counter: self.counter, known_counter }
    }
}

impl Default for Counter {
    /// Nothing added, nothing heard.
    fn default() -> (c: Self)
        ensures
            c.local() == 0,
            c.known() == Map::<Seq<char>, u64>::empty(),
    {
        Counter { counter: 0, known_counter: StringMap::new() }
    }
}

impl Counter {
    /// The sum of what was added at this node.
    pub closed spec fn local(&self) -> u64 {
        self.counter
    }

    /// For each peer heard of, the sum that it last reported.
    pub closed spec fn known(&self) -> Map<Seq<char>, u64> {
        self.known_counter@
    }

    /// The value read, where it fits a `u64`.
    fn read(&self) -> (value: Option<u64>)
        ensures
            value == if read_value(self.local(), self.known()) <= u64::MAX {
                Some(read_value(self.local(), self.known()) as u64)
            } else {
                None
            },
    {
        let mut sum: u128 = 0;
        let mut i: usize = 0;
        self.known_counter.distinct();
        let ghost entries = self.known_counter.entries();
        proof {
            assert(entries.take(0) =~= Seq::empty());
            assert(pairs_to_map(entries.take(0)).dom() =~= Set::empty());
        }
        while i < self.known_counter.len()
            invariant
                i <= entries.len(),
                entries == self.known_counter.entries(),
                distinct_keys(entries),
                sum == total(pairs_to_map(entries.take(i as int))),
                sum <= i * 0xffff_ffff_ffff_ffff,
            decreases entries.len() - i,
        {
            let v = *self.known_counter.value_at(i);
            proof {
                let s = entries.take(i + 1);
                assert(s.drop_last() =~= entries.take(i as int));
                assert(s.last() == entries[i as int]);
                lemma_total_push(s);
                assert((i + 1) * 0xffff_ffff_ffff_ffff == i * 0xffff_ffff_ffff_ffff + 0xffff_ffff_ffff_ffff)
                    by (nonlinear_arith);
                assert(i * 0xffff_ffff_ffff_ffff <= 0xffff_ffff_ffff_ffff * 0xffff_ffff_ffff_ffff)
                    by (nonlinear_arith)
                    requires
                        i <= 0xffff_ffff_ffff_ffff,
                ;
            }
            sum = sum + v as u128;
            i += 1;
        }
        proof {
            assert(entries.take(i as int) =~= entries);
            assert(i * 0xffff_ffff_ffff_ffff <= 0xffff_ffff_ffff_ffff * 0xffff_ffff_ffff_ffff)
                by (nonlinear_arith)
                requires
                    i <= 0xffff_ffff_ffff_ffff,
            ;
        }
        let value: u128 = sum + self.counter as u128;
        if value <= u64::MAX as u128 {
            Some(value as u64)
        } else {
            None
        }
    }
}

impl Service for Counter {
    type Output = Message;

    open spec fn handled(
        pre: Self,
        msg: Message,
        ctx: ContextView,
        post: Self,
        reply: Option<Message>,
    ) -> bool {
        match msg {
            Message::Add { delta } => if pre.local() + delta <= u64::MAX {
                &&& post.local() == pre.local() + delta
                &&& post.known() == pre.known()
                &&& reply == Some(Message::AddOk)
            } else {
                post == pre && reply is None
            },
            Message::Read => {
                &&& post == pre
                &&& reply == if read_value(pre.local(), pre.known()) <= u64::MAX {
                    Some(Message::ReadOk { value: read_value(pre.local(), pre.known()) as u64 })
                } else {
                    None
                }
            },
            Message::Gossip { counter } => {
                &&& post.local() == pre.local()
                &&& post.known() == pre.known().insert(ctx.dest, counter)
                &&& reply is None
            },
            _ => post == pre && reply is None,
        }
    }

    open spec fn gossiped(
        pre: Self,
        rt: RuntimeView,
        post: Self,
        out: Seq<crate::message::Message<BodyType<Message>>>,
    ) -> bool {
        &&& post == pre
        &&& if pre.local() == 0 {
            out.len() == 0
        } else {
            sent_to(
                out,
                rt.node_id,
                others(rt.node_id, rt.node_ids),
                |m: Message| m == (Message::Gossip { counter: pre.local() }),
            )
        }
    }

    open spec fn interval(&self) -> u64 {
        150
    }

    /// Answers a request and takes gossip in. A request that cannot be met
    /// within a `u64`, and a message that is neither request nor gossip,
    /// is dropped.
    fn handle(&mut self, msg: Message, ctx: Context) -> (reply: Option<Message>) {
        match msg {
            Message::Add { delta } => {
                if delta <= u64::MAX - self.counter {
                    self.counter = self.counter + delta;
                    Some(Message::AddOk)
                } else {
                    None
                }
            },
            Message::Read => match self.read() {
                Some(value) => Some(Message::ReadOk { value }),
                None => None,
            },
            Message::Gossip { counter } => {
                self.known_counter.insert(ctx.msg.dest.clone(), counter);
                None
            },
            _ => None,
        }
    }

    /// Reports the local sum to every other node, once it is above zero.
    fn gossip(&mut self, rt: &Runtime) -> (out: Vec<crate::message::Message<BodyType<Message>>>) {
        let mut out: Vec<crate::message::Message<BodyType<Message>>> = Vec::new();
        if self.counter == 0 {
            return out;
        }
        let ghost list = rt@.node_ids;
        let ghost payload = |m: Message| m == (Message::Gossip { counter: self.local() });
        let mut i: usize = 0;
        proof {
            assert(list.take(0) =~= Seq::empty());
        }
        while i < rt.node_ids.len()
            invariant
                i <= list.len(),
                list == rt@.node_ids,
                payload == |m: Message| m == (Message::Gossip { counter: self.local() }),
                sent_to(out@, rt@.node_id, others(rt@.node_id, list.take(i as int)), payload),
            decreases list.len() - i,
        {
            let target = &rt.node_ids[i];
            let msg = Message::Gossip { counter: self.counter };
            assert(payload(msg));
            proof {
                assert(list.take(i + 1).drop_last() =~= list.take(i as int));
                assert(list.take(i + 1).last() == target@);
            }
            match rt.send_msg(target, msg) {
                Some(envelope) => {
                    out.push(envelope);
                },
                None => {},
            }
            i += 1;
        }
        proof {
            assert(list.take(i as int) =~= list);
        }
        out
    }

    fn gossip_interval(&self) -> (ms: u64) {
        150
    }
}

/// Adding never lowers the value read: it raises it by what was added.
pub proof fn lemma_add_raises(local: u64, delta: u64, known: Map<Seq<char>, u64>)
    requires
        local + delta <= u64::MAX,
    ensures
        read_value((local + delta) as u64, known) == read_value(local, known) + delta,
{
}

/// A report from a peer never lowers the value read, as long as the peer
/// reports no less than it reported before: the value read grows by the
/// difference.
pub proof fn lemma_report_raises(local: u64, known: Map<Seq<char>, u64>, peer: Seq<char>, counter: u64)
    requires
        known.dom().finite(),
        known.contains_key(peer) ==> known[peer] <= counter,
    ensures
        read_value(local, known.insert(peer, counter)) >= read_value(local, known),
        read_value(local, known.insert(peer, counter)) == read_value(local, known) + counter - (if known.contains_key(
            peer,
        ) {
            known[peer]
        } else {
            0
        }),
{
    lemma_total_insert(known, peer, counter);
    if known.contains_key(peer) {
        lemma_total_remove(known, peer);
    } else {
        assert(known.remove(peer) =~= known);
    }
}

/// The value read never falls: whatever message a node takes in, it reads
/// afterwards no less than before, as long as no peer reports less than it
/// reported before.
pub proof fn lemma_read_never_falls(
    pre: Counter,
    msg: Message,
    ctx: ContextView,
    post: Counter,
    reply: Option<Message>,
)
    requires
        pre.known().dom().finite(),
        Counter::handled(pre, msg, ctx, post, reply),
        msg matches Message::Gossip { counter } ==> (pre.known().contains_key(ctx.dest) ==> pre.known()[ctx.dest]
            <= counter),
    ensures
        post.known().dom().finite(),
        read_value(post.local(), post.known()) >= read_value(pre.local(), pre.known()),
{
    match msg {
        Message::Gossip { counter } => {
            lemma_report_raises(pre.local(), pre.known(), ctx.dest, counter);
        },
        _ => {},
    }
}

/// Keys that stand for nothing do not count: a map sums to the same as any
/// part of it that leaves out zeros only.
pub proof fn lemma_total_without_zeros(part: Map<Seq<char>, u64>, whole: Map<Seq<char>, u64>)
    requires
        whole.dom().finite(),
        forall|k: Seq<char>| #[trigger] part.contains_key(k) ==> whole.contains_key(k) && part[k] == whole[k],
        forall|k: Seq<char>| #[trigger] whole.contains_key(k) && !part.contains_key(k) ==> whole[k] == 0,
    ensures
        part.dom().finite(),
        total(part) == total(whole),
    decreases whole.dom().len(),
{
    if whole.dom().len() == 0 {
        assert(part.dom() =~= whole.dom());
    } else {
        let k = whole.dom().choose();
        lemma_total_remove(whole, k);
        if part.contains_key(k) {
            lemma_total_without_zeros(part.remove(k), whole.remove(k));
            assert(part.dom() =~= part.remove(k).dom().insert(k));
            lemma_total_remove(part, k);
        } else {
            lemma_total_without_zeros(part, whole.remove(k));
        }
    }
}

/// Convergence. Let `sums` hold, for every node of the cluster, the sum of
/// all that was ever added at it. A node `me` whose record of its peers
/// holds the sum of every peer that has one above zero, and nothing else,
/// reads the sum of everything added anywhere. That is the record of a node
/// once every peer has gossiped after its last addition, so all nodes then
/// read the same value.
pub proof fn lemma_converged(sums: Map<Seq<char>, u64>, me: Seq<char>, known: Map<Seq<char>, u64>)
    requires
        sums.dom().finite(),
        sums.contains_key(me),
        forall|p: Seq<char>| #[trigger]
            known.contains_key(p) ==> p != me && sums.contains_key(p) && known[p] == sums[p],
        forall|p: Seq<char>| #[trigger]
            sums.contains_key(p) && p != me && sums[p] > 0 ==> known.contains_key(p),
    ensures
        read_value(sums[me], known) == total(sums),
{
    lemma_total_remove(sums, me);
    lemma_total_without_zeros(known, sums.remove(me));
}

/// Gossip carries the sum across: a node that takes in an envelope of a
/// peer's gossip round records the peer's sum under the peer's identifier,
/// and sends no answer.
pub proof fn lemma_gossip_delivers(
    sender: Counter,
    rt: RuntimeView,
    out: Seq<crate::message::Message<BodyType<Message>>>,
    i: int,
    pre: Counter,
    ctx: ContextView,
    post: Counter,
    reply: Option<Message>,
)
    requires
        Counter::gossiped(sender, rt, sender, out),
        0 <= i < out.len(),
        ctx.dest == out[i].src@,
        out[i].body.extra matches BodyType::Service(m) && Counter::handled(pre, m, ctx, post, reply),
    ensures
        post.known() == pre.known().insert(rt.node_id, sender.local()),
        post.local() == pre.local(),
        reply is None,
{
}

} // verus!
