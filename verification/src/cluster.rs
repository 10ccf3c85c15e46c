//! A cluster of counter nodes, as a model for proofs. The nodes take
//! requests, gossip on their timers, and take in the gossip of their
//! peers; between any two nodes gossip arrives in the order in which it
//! was sent, and none is lost. Whatever the interleaving, no node ever
//! reads less than it read before, and once every node has gossiped after
//! its last addition and all gossip has arrived, every node reads the sum
//! of all that was added anywhere.

use crate::counter::{lemma_converged, lemma_report_raises, read_value, total, Counter, Message};
use crate::message::{others, sent_to, BodyType, Service};
use crate::server::{ContextView, RuntimeView};
use vstd::prelude::*;

verus! {

/// A gossip envelope of the counter workload.
pub type Envelope = crate::message::Message<BodyType<Message>>;

/// A cluster at one moment.
pub struct Cluster {
    /// The identifiers of the nodes.
    pub ids: Set<Seq<char>>,
    /// The workload of each node.
    pub nodes: Map<Seq<char>, Counter>,
    /// For each pair of a sender and a receiver, the sums that were
    /// gossiped and have not arrived yet, the oldest first.
    pub wires: Map<(Seq<char>, Seq<char>), Seq<u64>>,
    /// For each node, its sum when it last gossiped.
    pub reported: Map<Seq<char>, u64>,
    /// For each node, the sum of the additions that it has acknowledged.
    pub added: Map<Seq<char>, nat>,
}

/// What can happen in a cluster.
pub enum Step {
    /// The node `at` takes in `msg`, which is no gossip, and answers
    /// `reply`.
    Request { at: Seq<char>, msg: Message, ctx: ContextView, reply: Option<Message> },
    /// The timer of the node `at` fires, and the node emits `out`.
    Tick { at: Seq<char>, rt: RuntimeView, out: Seq<Envelope> },
    /// The oldest gossip under way from `from` to `to` arrives.
    Deliver { from: Seq<char>, to: Seq<char>, ctx: ContextView, reply: Option<Message> },
}

/// The sums that the envelopes `out` carry from `from` to `to`, in order.
pub open spec fn carried(out: Seq<Envelope>, from: Seq<char>, to: Seq<char>) -> Seq<u64>
    decreases out.len(),
{
    if out.len() == 0 {
        Seq::empty()
    } else {
        let before = carried(out.drop_last(), from, to);
        match out.last().body.extra {
            BodyType::Service(Message::Gossip { counter }) => if out.last().src@ == from && out.last().dest@
                == to {
                before.push(counter)
            } else {
                before
            },
            _ => before,
        }
    }
}

/// Whether `s` never falls from one element to the next.
pub open spec fn rising(s: Seq<u64>) -> bool {
    forall|i: int, j: int| 0 <= i <= j < s.len() ==> s[i] <= s[j]
}

impl Cluster {
    /// The sum of what was added at `n`.
    pub open spec fn local(self, n: Seq<char>) -> u64 {
        self.nodes[n].local()
    }

    /// The sum that `to` has last heard from `from`: zero as long as it
    /// has heard nothing.
    pub open spec fn heard(self, to: Seq<char>, from: Seq<char>) -> u64 {
        if self.nodes[to].known().contains_key(from) {
            self.nodes[to].known()[from]
        } else {
            0
        }
    }

    /// The sums under way from `from` to `to`, the oldest first.
    pub open spec fn wire(self, from: Seq<char>, to: Seq<char>) -> Seq<u64> {
        if self.wires.contains_key((from, to)) {
            self.wires[(from, to)]
        } else {
            Seq::empty()
        }
    }

    /// The sum of `n` when it last gossiped: zero as long as it has not.
    pub open spec fn last_report(self, n: Seq<char>) -> u64 {
        if self.reported.contains_key(n) {
            self.reported[n]
        } else {
            0
        }
    }

    /// The sum of the additions that `n` has acknowledged.
    pub open spec fn acknowledged(self, n: Seq<char>) -> nat {
        if self.added.contains_key(n) {
            self.added[n]
        } else {
            0
        }
    }

    /// The value that `n` reads.
    pub open spec fn read(self, n: Seq<char>) -> nat {
        read_value(self.nodes[n].local(), self.nodes[n].known())
    }

    /// The sum of every node.
    pub open spec fn sums(self) -> Map<Seq<char>, u64> {
        Map::new(|n: Seq<char>| self.ids.contains(n), |n: Seq<char>| self.local(n))
    }

    /// What `to` has heard from `from`, then what is under way, then the
    /// sum of `from` now.
    pub open spec fn trail(self, from: Seq<char>, to: Seq<char>) -> Seq<u64> {
        (seq![self.heard(to, from)] + self.wire(from, to)).push(self.local(from))
    }

    /// A cluster at its start: finitely many nodes, nothing added, nothing
    /// heard, nothing under way.
    pub open spec fn initial(self) -> bool {
        &&& self.ids.finite()
        &&& forall|n: Seq<char>| #[trigger]
            self.ids.contains(n) ==> self.nodes.contains_key(n) && self.nodes[n].local() == 0
                && self.nodes[n].known() == Map::<Seq<char>, u64>::empty()
        &&& forall|from: Seq<char>, to: Seq<char>| (#[trigger] self.wire(from, to)).len() == 0
        &&& forall|n: Seq<char>| #[trigger] self.last_report(n) == 0
        &&& forall|n: Seq<char>| #[trigger] self.acknowledged(n) == 0
    }

    /// Whether `step` leads from the cluster `pre` to the cluster `post`.
    /// What a node does in a step is what its `handle` and `gossip` are
    /// specified to do.
    pub open spec fn next(pre: Self, step: Step, post: Self) -> bool {
        &&& post.ids == pre.ids
        &&& match step {
            Step::Request { at, msg, ctx, reply } => {
                &&& pre.ids.contains(at)
                &&& !(msg is Gossip)
                &&& Counter::handled(pre.nodes[at], msg, ctx, post.nodes[at], reply)
                &&& post.nodes == pre.nodes.insert(at, post.nodes[at])
                &&& post.wires == pre.wires
                &&& post.reported == pre.reported
                &&& post.added == if reply is Some && msg is Add {
                    pre.added.insert(at, (pre.acknowledged(at) + msg->delta) as nat)
                } else {
                    pre.added
                }
            },
            Step::Tick { at, rt, out } => {
                &&& pre.ids.contains(at)
                &&& rt.node_id == at
                &&& rt.node_ids.to_set() == pre.ids
                &&& Counter::gossiped(pre.nodes[at], rt, post.nodes[at], out)
                &&& post.nodes == pre.nodes.insert(at, post.nodes[at])
                &&& forall|from: Seq<char>, to: Seq<char>| #[trigger]
                    post.wire(from, to) == pre.wire(from, to) + carried(out, from, to)
                &&& post.reported == pre.reported.insert(at, pre.local(at))
                &&& post.added == pre.added
            },
            Step::Deliver { from, to, ctx, reply } => {
                &&& pre.ids.contains(from)
                &&& pre.ids.contains(to)
                &&& pre.wire(from, to).len() > 0
                &&& ctx.dest == from
                &&& Counter::handled(
                    pre.nodes[to],
                    Message::Gossip { counter: pre.wire(from, to)[0] },
                    ctx,
                    post.nodes[to],
                    reply,
                )
                &&& post.nodes == pre.nodes.insert(to, post.nodes[to])
                &&& forall|s: Seq<char>, d: Seq<char>| #[trigger]
                    post.wire(s, d) == if s == from && d == to {
                        pre.wire(s, d).drop_first()
                    } else {
                        pre.wire(s, d)
                    }
                &&& post.reported == pre.reported
                &&& post.added == pre.added
            },
        }
    }

    /// What holds of a cluster at every moment.
    ///
    /// For every two nodes, what the one has heard from the other, what
    /// is under way between them and the sum of the sender never fall,
    /// in this order; the newest of what was heard or is under way is
    /// what the sender last reported. A node has heard only from other
    /// nodes of the cluster, and sends nothing to itself. The sum of a
    /// node is the sum of the additions that it has acknowledged.
    pub open spec fn inv(self) -> bool {
        &&& self.ids.finite()
        &&& forall|n: Seq<char>| #[trigger]
            self.ids.contains(n) ==> {
                &&& self.nodes.contains_key(n)
                &&& self.nodes[n].known().dom().finite()
                &&& self.nodes[n].known().dom().subset_of(self.ids.remove(n))
                &&& self.last_report(n) <= self.local(n)
                &&& self.local(n) == self.acknowledged(n)
            }
        &&& forall|from: Seq<char>, to: Seq<char>|
            self.ids.contains(from) && self.ids.contains(to) ==> rising(#[trigger] self.trail(from, to))
        &&& forall|from: Seq<char>, to: Seq<char>|
            self.ids.contains(from) && self.ids.contains(to) && from != to ==> (seq![self.heard(to, from)]
                + #[trigger] self.wire(from, to)).last() == self.last_report(from)
        &&& forall|from: Seq<char>, to: Seq<char>|
            !(self.ids.contains(from) && self.ids.contains(to) && from != to) ==> (#[trigger] self.wire(
                from,
                to,
            )).len() == 0
    }

    /// Whether nothing is under way and every node has gossiped since it
    /// last added.
    pub open spec fn settled(self) -> bool {
        &&& forall|from: Seq<char>, to: Seq<char>| (#[trigger] self.wire(from, to)).len() == 0
        &&& forall|n: Seq<char>| #[trigger] self.ids.contains(n) ==> self.last_report(n) == self.local(n)
    }
}

/// A node is among the targets of another exactly if it is listed and is
/// not the sender.
pub proof fn lemma_others(me: Seq<char>, targets: Seq<Seq<char>>, d: Seq<char>)
    ensures
        others(me, targets).contains(d) <==> targets.contains(d) && d != me,
    decreases targets.len(),
{
    if targets.len() > 0 {
        let init = targets.drop_last();
        let last = targets[targets.len() - 1];
        assert(targets.last() == last);
        lemma_others(me, init, d);
        let all = others(me, targets);
        let before = others(me, init);
        assert(all == if last == me { before } else { before.push(last) });
        if all.contains(d) {
            let i = choose|i: int| 0 <= i < all.len() && all[i] == d;
            if last != me && i == before.len() {
                assert(targets[targets.len() - 1] == d);
            } else {
                assert(before[i] == d);
                assert(before.contains(d));
                let j = choose|j: int| 0 <= j < init.len() && init[j] == d;
                assert(targets[j] == d);
            }
        }
        if targets.contains(d) && d != me {
            let j = choose|j: int| 0 <= j < targets.len() && targets[j] == d;
            if j == targets.len() - 1 {
                assert(all[before.len() as int] == d);
            } else {
                assert(init[j] == d);
                assert(init.contains(d));
                let i = choose|i: int| 0 <= i < before.len() && before[i] == d;
                assert(all[i] == d);
            }
        }
    }
}

/// What a round of gossip puts under way: the sender's sum, to every
/// target at least once, and nothing from or to anyone else.
pub proof fn lemma_carried(out: Seq<Envelope>, me: Seq<char>, dests: Seq<Seq<char>>, sum: u64, from: Seq<
    char,
>, to: Seq<char>)
    requires
        sent_to(out, me, dests, |m: Message| m == (Message::Gossip { counter: sum })),
    ensures
        forall|i: int| 0 <= i < carried(out, from, to).len() ==> carried(out, from, to)[i] == sum,
        from != me || !dests.contains(to) ==> carried(out, from, to).len() == 0,
        from == me && dests.contains(to) ==> carried(out, from, to).len() > 0,
    decreases out.len(),
{
    let payload = |m: Message| m == (Message::Gossip { counter: sum });
    if out.len() > 0 {
        let out0 = out.drop_last();
        let dests0 = dests.drop_last();
        assert(sent_to(out0, me, dests0, payload)) by {
            assert forall|i: int| 0 <= i < out0.len() implies {
                &&& (#[trigger] out0[i]).src@ == me
                &&& out0[i].dest@ == dests0[i]
                &&& out0[i].body.msg_id is None
                &&& out0[i].body.in_reply_to is None
                &&& out0[i].body.extra matches BodyType::Service(m) && payload(m)
            } by {
                assert(out0[i] == out[i]);
            }
        }
        lemma_carried(out0, me, dests0, sum, from, to);
        let e = out[out.len() - 1];
        assert(e == out.last());
        assert(e.body.extra matches BodyType::Service(m) && payload(m));
        assert(e.dest@ == dests[dests.len() - 1]);
        if dests.contains(to) {
            let j = choose|j: int| 0 <= j < dests.len() && dests[j] == to;
            if j < dests.len() - 1 {
                assert(dests0[j] == to);
            }
        }
        if dests0.contains(to) {
            let j = choose|j: int| 0 <= j < dests0.len() && dests0[j] == to;
            assert(dests[j] == to);
        }
    }
}

/// A cluster at its start is as every cluster is.
pub proof fn lemma_initial_inv(c: Cluster)
    requires
        c.initial(),
    ensures
        c.inv(),
{
    assert forall|n: Seq<char>| #[trigger] c.ids.contains(n) implies {
        &&& c.nodes.contains_key(n)
        &&& c.nodes[n].known().dom().finite()
        &&& c.nodes[n].known().dom().subset_of(c.ids.remove(n))
        &&& c.last_report(n) <= c.local(n)
        &&& c.local(n) == c.acknowledged(n)
    } by {
        assert(c.last_report(n) == 0);
        assert(c.acknowledged(n) == 0);
    }
    assert forall|from: Seq<char>, to: Seq<char>|
        c.ids.contains(from) && c.ids.contains(to) implies rising(#[trigger] c.trail(from, to)) by {
        assert(c.wire(from, to).len() == 0);
    }
    assert forall|from: Seq<char>, to: Seq<char>|
        c.ids.contains(from) && c.ids.contains(to) && from != to implies (seq![c.heard(to, from)]
            + #[trigger] c.wire(from, to)).last() == c.last_report(from) by {
        assert(c.wire(from, to).len() == 0);
        assert(c.last_report(from) == 0);
    }
}

proof fn lemma_request_keeps_inv(pre: Cluster, step: Step, post: Cluster)
    requires
        pre.inv(),
        Cluster::next(pre, step, post),
        step is Request,
    ensures
        post.inv(),
{
    let at = step->Request_at;
    let msg = step->Request_msg;
    assert forall|n: Seq<char>| #[trigger] post.ids.contains(n) implies {
        &&& post.nodes.contains_key(n)
        &&& post.nodes[n].known().dom().finite()
        &&& post.nodes[n].known().dom().subset_of(post.ids.remove(n))
        &&& post.last_report(n) <= post.local(n)
        &&& post.local(n) == post.acknowledged(n)
    } by {
        assert(pre.ids.contains(n));
    }
    assert forall|from: Seq<char>, to: Seq<char>|
        post.ids.contains(from) && post.ids.contains(to) implies rising(#[trigger] post.trail(from, to)) by {
        assert(pre.ids.contains(from) && pre.ids.contains(to));
        let old_trail = pre.trail(from, to);
        let new_trail = post.trail(from, to);
        assert(rising(old_trail));
        assert(post.wire(from, to) == pre.wire(from, to));
        assert(post.heard(to, from) == pre.heard(to, from));
        assert(new_trail.len() == old_trail.len());
        assert forall|i: int, j: int| 0 <= i <= j < new_trail.len() implies new_trail[i] <= new_trail[j] by {
            assert(old_trail[i] <= old_trail[j]);
            if i < new_trail.len() - 1 {
                assert(new_trail[i] == old_trail[i]);
            }
            assert(new_trail[j] >= old_trail[j]);
        }
    }
    assert forall|from: Seq<char>, to: Seq<char>|
        post.ids.contains(from) && post.ids.contains(to) && from != to implies (seq![post.heard(to, from)]
            + #[trigger] post.wire(from, to)).last() == post.last_report(from) by {
        assert(post.wire(from, to) == pre.wire(from, to));
        assert(post.heard(to, from) == pre.heard(to, from));
    }
    assert forall|from: Seq<char>, to: Seq<char>|
        !(post.ids.contains(from) && post.ids.contains(to) && from != to) implies (#[trigger] post.wire(
        from,
        to,
    )).len() == 0 by {
        assert(post.wire(from, to) == pre.wire(from, to));
    }
}

proof fn lemma_tick_pair(pre: Cluster, step: Step, post: Cluster, from: Seq<char>, to: Seq<char>)
    requires
        pre.inv(),
        Cluster::next(pre, step, post),
        step is Tick,
        pre.ids.contains(from),
        pre.ids.contains(to),
    ensures
        rising(post.trail(from, to)),
        from != to ==> (seq![post.heard(to, from)] + post.wire(from, to)).last() == post.last_report(from),
{
    let at = step->Tick_at;
    let rt = step->rt;
    let out = step->out;
    let sum = pre.local(at);
    assert(post.nodes[at] == pre.nodes[at]);
    assert(post.nodes =~= pre.nodes);

        let extra = carried(out, from, to);
        assert(post.wire(from, to) == pre.wire(from, to) + extra);
        let old_trail = pre.trail(from, to);
        let new_trail = post.trail(from, to);
        assert(rising(old_trail));
        let old_head = seq![pre.heard(to, from)] + pre.wire(from, to);
        let new_head = seq![post.heard(to, from)] + post.wire(from, to);
        assert(new_head =~= old_head + extra);
        assert(old_trail =~= old_head.push(pre.local(from)));
        assert(new_trail =~= (old_head + extra).push(pre.local(from)));
        if sum == 0 {
            assert(out.len() == 0);
            assert(extra.len() == 0);
        } else {
            lemma_carried(out, at, others(at, rt.node_ids), sum, from, to);
            lemma_others(at, rt.node_ids, to);
            assert(rt.node_ids.to_set().contains(to));
        }
        assert forall|i: int| 0 <= i < extra.len() implies extra[i] == pre.local(from) by {
            if sum == 0 {
            } else {
                assert(from == at);
            }
        }
        assert forall|i: int, j: int| 0 <= i <= j < new_trail.len() implies new_trail[i] <= new_trail[j] by {
            let last = old_trail.len() - 1;
            assert(old_trail[last] == pre.local(from));
            if j < old_head.len() {
                assert(new_trail[i] == old_trail[i] && new_trail[j] == old_trail[j]);
            } else {
                assert(new_trail[j] == pre.local(from));
                if i < old_head.len() {
                    assert(new_trail[i] == old_trail[i]);
                    assert(old_trail[i] <= old_trail[last]);
                } else {
                    assert(new_trail[i] == pre.local(from));
                }
            }
        }
        if from != to {
            assert(old_head.last() == pre.last_report(from));
            if from == at {
                assert(post.last_report(from) == sum);
                if sum == 0 {
                    assert(pre.last_report(from) <= pre.local(from));
                    assert(new_head =~= old_head);
                } else {
                    assert(extra.len() > 0);
                    assert(new_head.last() == extra[extra.len() - 1]);
                }
            } else {
                assert(extra.len() == 0);
                assert(new_head =~= old_head);
                assert(post.last_report(from) == pre.last_report(from));
            }
        }
    }

proof fn lemma_tick_keeps_inv(pre: Cluster, step: Step, post: Cluster)
    requires
        pre.inv(),
        Cluster::next(pre, step, post),
        step is Tick,
    ensures
        post.inv(),
{
    let at = step->Tick_at;
    let rt = step->rt;
    let out = step->out;
    let sum = pre.local(at);
    assert(post.nodes[at] == pre.nodes[at]);
    assert(post.nodes =~= pre.nodes);
    assert forall|n: Seq<char>| #[trigger] post.ids.contains(n) implies {
        &&& post.nodes.contains_key(n)
        &&& post.nodes[n].known().dom().finite()
        &&& post.nodes[n].known().dom().subset_of(post.ids.remove(n))
        &&& post.last_report(n) <= post.local(n)
        &&& post.local(n) == post.acknowledged(n)
    } by {
        assert(pre.ids.contains(n));
    }
    assert forall|from: Seq<char>, to: Seq<char>|
        post.ids.contains(from) && post.ids.contains(to) implies rising(#[trigger] post.trail(from, to)) by {
        lemma_tick_pair(pre, step, post, from, to);
    }
    assert forall|from: Seq<char>, to: Seq<char>|
        post.ids.contains(from) && post.ids.contains(to) && from != to implies (seq![post.heard(to, from)]
            + #[trigger] post.wire(from, to)).last() == post.last_report(from) by {
        lemma_tick_pair(pre, step, post, from, to);
    }
    assert forall|from: Seq<char>, to: Seq<char>|
        !(post.ids.contains(from) && post.ids.contains(to) && from != to) implies (#[trigger] post.wire(
        from,
        to,
    )).len() == 0 by {
        let extra = carried(out, from, to);
        assert(post.wire(from, to) == pre.wire(from, to) + extra);
        assert(pre.wire(from, to).len() == 0);
        if sum == 0 {
            assert(out.len() == 0);
        } else {
            lemma_carried(out, at, others(at, rt.node_ids), sum, from, to);
            lemma_others(at, rt.node_ids, to);
            if rt.node_ids.contains(to) {
                assert(rt.node_ids.to_set().contains(to));
            }
        }
    }
}

proof fn lemma_deliver_keeps_inv(pre: Cluster, step: Step, post: Cluster)
    requires
        pre.inv(),
        Cluster::next(pre, step, post),
        step is Deliver,
    ensures
        post.inv(),
        forall|n: Seq<char>| pre.ids.contains(n) ==> post.read(n) >= pre.read(n),
{
    let from = step->from;
    let to = step->to;
    let head = pre.wire(from, to)[0];
    assert(from != to) by {
        if from == to {
            assert(pre.wire(from, to).len() == 0);
        }
    }
    assert(post.nodes[to].known() == pre.nodes[to].known().insert(from, head));
    assert(post.nodes[to].local() == pre.nodes[to].local());
    assert(pre.ids.contains(to));
    assert forall|n: Seq<char>| #[trigger] post.ids.contains(n) implies {
        &&& post.nodes.contains_key(n)
        &&& post.nodes[n].known().dom().finite()
        &&& post.nodes[n].known().dom().subset_of(post.ids.remove(n))
        &&& post.last_report(n) <= post.local(n)
        &&& post.local(n) == post.acknowledged(n)
    } by {
        assert(pre.ids.contains(n));
    }
    assert forall|s: Seq<char>, d: Seq<char>|
        post.ids.contains(s) && post.ids.contains(d) implies rising(#[trigger] post.trail(s, d)) && (s != d
        ==> (seq![post.heard(d, s)] + post.wire(s, d)).last() == post.last_report(s)) by {
        let old_trail = pre.trail(s, d);
        let new_trail = post.trail(s, d);
        assert(rising(old_trail));
        let old_head = seq![pre.heard(d, s)] + pre.wire(s, d);
        let new_head = seq![post.heard(d, s)] + post.wire(s, d);
        if s == from && d == to {
            assert(post.wire(s, d) == pre.wire(s, d).drop_first());
            assert(post.heard(d, s) == head);
            assert(new_head =~= old_head.drop_first());
            assert(new_trail =~= old_trail.drop_first());
            assert forall|i: int, j: int| 0 <= i <= j < new_trail.len() implies new_trail[i]
                <= new_trail[j] by {
                assert(old_trail[i + 1] <= old_trail[j + 1]);
            }
            assert(old_head.last() == pre.last_report(s));
        } else {
            assert(post.wire(s, d) == pre.wire(s, d));
            assert(post.heard(d, s) == pre.heard(d, s));
            assert(new_trail =~= old_trail);
            assert(new_head =~= old_head);
            if s != d {
                assert(old_head.last() == pre.last_report(s));
            }
        }
    }
    assert forall|s: Seq<char>, d: Seq<char>|
        !(post.ids.contains(s) && post.ids.contains(d) && s != d) implies (#[trigger] post.wire(
        s,
        d,
    )).len() == 0 by {
        assert(pre.wire(s, d).len() == 0);
    }
    assert forall|n: Seq<char>| pre.ids.contains(n) implies post.read(n) >= pre.read(n) by {
        if n == to {
            let trail = pre.trail(from, to);
            assert(rising(trail));
            assert(trail[0] == pre.heard(to, from));
            assert(trail[1] == head);
            assert(trail[0] <= trail[1]);
            lemma_report_raises(pre.nodes[to].local(), pre.nodes[to].known(), from, head);
        }
    }
}

/// Every step leaves a cluster as every cluster is.
pub proof fn lemma_step_keeps_inv(pre: Cluster, step: Step, post: Cluster)
    requires
        pre.inv(),
        Cluster::next(pre, step, post),
    ensures
        post.inv(),
{
    match step {
        Step::Request { .. } => lemma_request_keeps_inv(pre, step, post),
        Step::Tick { .. } => lemma_tick_keeps_inv(pre, step, post),
        Step::Deliver { .. } => lemma_deliver_keeps_inv(pre, step, post),
    }
}

/// No step lowers what a node reads.
pub proof fn lemma_step_never_lowers_a_read(pre: Cluster, step: Step, post: Cluster, n: Seq<char>)
    requires
        pre.inv(),
        Cluster::next(pre, step, post),
        pre.ids.contains(n),
    ensures
        post.read(n) >= pre.read(n),
{
    match step {
        Step::Request { at, msg, ctx, reply } => {},
        Step::Tick { at, .. } => {
            assert(post.nodes[at] == pre.nodes[at]);
        },
        Step::Deliver { .. } => lemma_deliver_keeps_inv(pre, step, post),
    }
}

/// In a settled cluster every node reads the same: the sum of the sums of
/// all nodes, which is the sum of all additions that any node has
/// acknowledged.
pub proof fn lemma_settled_nodes_agree(c: Cluster, n: Seq<char>)
    requires
        c.inv(),
        c.settled(),
        c.ids.contains(n),
    ensures
        c.read(n) == total(c.sums()),
        forall|m: Seq<char>| c.ids.contains(m) ==> #[trigger] c.sums()[m] == c.acknowledged(m),
{
    let sums = c.sums();
    let known = c.nodes[n].known();
    assert(sums.dom() =~= c.ids);
    assert forall|p: Seq<char>| #[trigger] known.contains_key(p) implies p != n && sums.contains_key(p)
        && known[p] == sums[p] by {
        assert(c.ids.remove(n).contains(p));
        assert(c.wire(p, n).len() == 0);
        assert((seq![c.heard(n, p)] + c.wire(p, n)).last() == c.last_report(p));
        assert(seq![c.heard(n, p)] + c.wire(p, n) =~= seq![c.heard(n, p)]);
    }
    assert forall|p: Seq<char>| #[trigger] sums.contains_key(p) && p != n && sums[p] > 0 implies known.contains_key(
        p,
    ) by {
        assert(c.wire(p, n).len() == 0);
        assert((seq![c.heard(n, p)] + c.wire(p, n)).last() == c.last_report(p));
        assert(seq![c.heard(n, p)] + c.wire(p, n) =~= seq![c.heard(n, p)]);
    }
    lemma_converged(sums, n, known);
}

/// Whether `states` is a run of a cluster under the steps `steps`: it
/// begins with a cluster at its start, and every later state follows from
/// the one before it by the step of that number.
pub open spec fn is_run(states: Seq<Cluster>, steps: Seq<Step>) -> bool {
    &&& states.len() == steps.len() + 1
    &&& states[0].initial()
    &&& forall|i: int| 0 <= i < steps.len() ==> Cluster::next(states[i], #[trigger] steps[i], states[i + 1])
}

/// Every state of a run is as every cluster is, and has the nodes that
/// the run began with.
pub proof fn lemma_run_inv(states: Seq<Cluster>, steps: Seq<Step>, i: int)
    requires
        is_run(states, steps),
        0 <= i < states.len(),
    ensures
        states[i].inv(),
        states[i].ids == states[0].ids,
    decreases i,
{
    if i == 0 {
        lemma_initial_inv(states[0]);
    } else {
        lemma_run_inv(states, steps, i - 1);
        assert(Cluster::next(states[i - 1], steps[i - 1], states[i - 1 + 1]));
        lemma_step_keeps_inv(states[i - 1], steps[i - 1], states[i]);
    }
}

/// Reads never fall: in every run, whatever the order of requests, ticks
/// and deliveries, a node reads at a later moment no less than at an
/// earlier one.
pub proof fn lemma_reads_never_fall(states: Seq<Cluster>, steps: Seq<Step>, i: int, j: int, n: Seq<char>)
    requires
        is_run(states, steps),
        0 <= i <= j < states.len(),
        states[0].ids.contains(n),
    ensures
        states[j].read(n) >= states[i].read(n),
    decreases j - i,
{
    if i < j {
        lemma_reads_never_fall(states, steps, i, j - 1, n);
        lemma_run_inv(states, steps, j - 1);
        assert(Cluster::next(states[j - 1], steps[j - 1], states[j - 1 + 1]));
        lemma_step_never_lowers_a_read(states[j - 1], steps[j - 1], states[j], n);
    }
}

/// Convergence: where a run ends settled, with nothing under way and
/// every node having gossiped since it last added, any two nodes read the
/// same value, and that value is the sum of all the additions that the
/// nodes have acknowledged in the run.
pub proof fn lemma_reads_converge(states: Seq<Cluster>, steps: Seq<Step>, n: Seq<char>, m: Seq<char>)
    requires
        is_run(states, steps),
        states.last().settled(),
        states[0].ids.contains(n),
        states[0].ids.contains(m),
    ensures
        states.last().read(n) == states.last().read(m),
        states.last().read(n) == total(states.last().sums()),
        forall|k: Seq<char>|
            states[0].ids.contains(k) ==> #[trigger] states.last().sums()[k] == states.last().acknowledged(k),
{
    let end = states.len() - 1;
    lemma_run_inv(states, steps, end);
    lemma_settled_nodes_agree(states[end], n);
    lemma_settled_nodes_agree(states[end], m);
}

} // verus!
