//! The broadcast workload: every node collects the values broadcast
//! anywhere. Values spread by gossip over a star: the node with the least
//! identifier is the hub, and every other node talks to the hub alone.

use crate::message::{others, sent_to, BodyType, Service};
use crate::order::{clone_ids, lemma_str_lt_total, sorted, str_le};
use crate::server::{Context, ContextView, Runtime, RuntimeView};
use crate::string_map::StringSet;
use std::collections::HashSet;
use vstd::prelude::*;

verus! {

/// The messages of the broadcast workload.
#[derive(Debug, PartialEq, Eq)]
pub enum Message {
    Broadcast { message: u64 },
    BroadcastOk,
    Gossip { values: HashSet<u64> },
    Read,
    ReadOk { messages: Vec<u64> },
    Topology { topology: Vec<(String, Vec<String>)> },
    TopologyOk,
}

/// The neighbours of `node_id` in the star over `node_ids`: the first of
/// `node_ids` is the hub and has all that follow it as neighbours; any
/// other node has the hub alone.
pub open spec fn star(node_id: Seq<char>, node_ids: Seq<Seq<char>>) -> Set<Seq<char>> {
    if node_ids.len() == 0 {
        Set::empty()
    } else if node_id == node_ids[0] {
        node_ids.skip(1).to_set()
    } else {
        set![node_ids[0]]
    }
}

/// The values that a node has seen after it took `msg` in, where it had
/// seen `values` before: a broadcast adds its value, gossip adds all that it
/// carries, and nothing else changes what was seen.
pub open spec fn absorbed(values: Set<u64>, msg: Message) -> Set<u64> {
    match msg {
        Message::Broadcast { message } => values.insert(message),
        Message::Gossip { values: carried } => values.union(carried@),
        _ => values,
    }
}

/// The values seen after the messages `msgs` were taken in, one after the
/// other.
pub open spec fn absorbed_all(values: Set<u64>, msgs: Seq<Message>) -> Set<u64>
    decreases msgs.len(),
{
    if msgs.len() == 0 {
        values
    } else {
        absorbed(absorbed_all(values, msgs.drop_last()), msgs.last())
    }
}

/// The values that the messages `msgs` carry: each value broadcast and each
/// value gossiped.
pub open spec fn carried(msgs: Seq<Message>) -> Set<u64> {
    Set::new(|v: u64| exists|i: int| 0 <= i < msgs.len() && absorbed(Set::empty(), #[trigger] msgs[i]).contains(v))
}

/// Taking messages in is a union: what a node has seen afterwards is what
/// it had seen before together with every value that the messages carry.
/// Nothing is ever lost.
pub proof fn lemma_absorbed_all_is_union(values: Set<u64>, msgs: Seq<Message>)
    ensures
        absorbed_all(values, msgs) == values.union(carried(msgs)),
    decreases msgs.len(),
{
    if msgs.len() == 0 {
        assert(values.union(carried(msgs)) =~= values);
    } else {
        let init = msgs.drop_last();
        lemma_absorbed_all_is_union(values, init);
        assert forall|v: u64| carried(msgs).contains(v) <==> carried(init).contains(v) || absorbed(
            Set::empty(),
            msgs.last(),
        ).contains(v) by {
            if carried(msgs).contains(v) {
                let i = choose|i: int|
                    0 <= i < msgs.len() && absorbed(Set::empty(), #[trigger] msgs[i]).contains(v);
                if i < init.len() {
                    assert(absorbed(Set::empty(), init[i]).contains(v));
                }
            }
            if carried(init).contains(v) {
                let i = choose|i: int|
                    0 <= i < init.len() && absorbed(Set::empty(), #[trigger] init[i]).contains(v);
                assert(absorbed(Set::empty(), msgs[i]).contains(v));
            }
            if absorbed(Set::empty(), msgs.last()).contains(v) {
                assert(absorbed(Set::empty(), msgs[msgs.len() - 1]).contains(v));
            }
        }
        assert(absorbed_all(values, msgs) =~= values.union(carried(msgs)));
    }
}

/// Merging is idempotent and blind to order: two runs of deliveries that
/// carry the same values, in whatever order and however often, leave a node
/// with the same set of values.
pub proof fn lemma_merge_order_is_immaterial(values: Set<u64>, a: Seq<Message>, b: Seq<Message>)
    requires
        carried(a) == carried(b),
    ensures
        absorbed_all(values, a) == absorbed_all(values, b),
{
    lemma_absorbed_all_is_union(values, a);
    lemma_absorbed_all_is_union(values, b);
}

/// Taking the same message in a second time changes nothing.
pub proof fn lemma_merge_is_idempotent(values: Set<u64>, msg: Message)
    ensures
        absorbed(absorbed(values, msg), msg) == absorbed(values, msg),
{
    assert(absorbed(absorbed(values, msg), msg) =~= absorbed(values, msg));
}

/// The star over a sorted list of distinct identifiers: the hub is the
/// least identifier and has every other node as neighbour; every other
/// node has the hub as its one neighbour. Where there are three nodes or
/// more, the hub is the only node whose neighbours are all the others.
pub proof fn lemma_star_topology(node_ids: Seq<Seq<char>>)
    requires
        node_ids.len() >= 1,
        sorted(node_ids),
        node_ids.no_duplicates(),
    ensures
        forall|i: int| 0 <= i < node_ids.len() ==> str_le(node_ids[0], #[trigger] node_ids[i]),
        star(node_ids[0], node_ids) == node_ids.to_set().remove(node_ids[0]),
        forall|i: int| 1 <= i < node_ids.len() ==> star(#[trigger] node_ids[i], node_ids) == set![node_ids[0]],
        node_ids.len() >= 3 ==> forall|i: int|
            1 <= i < node_ids.len() ==> star(#[trigger] node_ids[i], node_ids) != node_ids.to_set().remove(
                node_ids[i],
            ),
{
    let hub = node_ids[0];
    assert forall|i: int| 0 <= i < node_ids.len() implies str_le(hub, #[trigger] node_ids[i]) by {
        if i == 0 {
            crate::order::lemma_str_lt_irreflexive(hub);
        }
    }
    let rest = node_ids.skip(1);
    assert forall|x: Seq<char>| rest.to_set().contains(x) <==> node_ids.to_set().remove(hub).contains(
        x,
    ) by {
        if rest.to_set().contains(x) {
            let j = choose|j: int| 0 <= j < rest.len() && rest[j] == x;
            assert(node_ids[j + 1] == x);
        }
        if node_ids.to_set().remove(hub).contains(x) {
            let j = choose|j: int| 0 <= j < node_ids.len() && node_ids[j] == x;
            assert(rest[j - 1] == x);
        }
    }
    assert(star(hub, node_ids) =~= node_ids.to_set().remove(hub));
    if node_ids.len() >= 3 {
        assert forall|i: int| 1 <= i < node_ids.len() implies star(#[trigger] node_ids[i], node_ids)
            != node_ids.to_set().remove(node_ids[i]) by {
            let other = if i == 1 { 2int } else { 1int };
            assert(node_ids.to_set().contains(node_ids[other]));
            assert(node_ids.to_set().remove(node_ids[i]).contains(node_ids[other]));
            assert(!set![hub].contains(node_ids[other]));
        }
    }
}

/// The hub is the same on every node: two sorted lists of the same
/// distinct identifiers begin with the same one.
pub proof fn lemma_hub_is_unique(a: Seq<Seq<char>>, b: Seq<Seq<char>>)
    requires
        a.len() >= 1,
        sorted(a),
        sorted(b),
        a.to_set() == b.to_set(),
    ensures
        b.len() >= 1,
        a[0] == b[0],
{
    assert(a.to_set().contains(a[0]));
    assert(b.contains(a[0]));
    let i = choose|i: int| 0 <= i < b.len() && b[i] == a[0];
    assert(b.to_set().contains(b[0]));
    assert(a.contains(b[0]));
    let j = choose|j: int| 0 <= j < a.len() && a[j] == b[0];
    if i > 0 {
        assert(str_le(b[0], b[i]));
    } else {
        crate::order::lemma_str_lt_irreflexive(b[0]);
    }
    if j > 0 {
        assert(str_le(a[0], a[j]));
    } else {
        crate::order::lemma_str_lt_irreflexive(a[0]);
    }
    lemma_str_lt_total(a[0], b[0]);
}

/// The state of the broadcast workload.
#[derive(Debug)]
pub struct Broadcast {
    values: HashSet<u64>,
    neighbours: StringSet,
}

impl Default for Broadcast {
    /// No value seen, no neighbour.
    fn default() -> (b: Self)
        ensures
            b.values() == Set::<u64>::empty(),
            b.neighbours() == Set::<Seq<char>>::empty(),
            b.neighbour_list() == Seq::<Seq<char>>::empty(),
    {
        let b = Broadcast { values: HashSet::new(), neighbours: StringSet::new() };
        assert(b.neighbour_list() =~= Seq::<Seq<char>>::empty());
        b
    }
}

/// A set with the elements of `values`.
fn copy_of(values: &HashSet<u64>) -> (copy: HashSet<u64>)
    ensures
        copy@ == values@,
{
    let mut copy: HashSet<u64> = HashSet::new();
    for v in it: values.iter()
        invariant
            it.seq().unref().to_set() == values@,
            copy@ == it.seq().unref().take(it.index() as int).to_set(),
            it.index() == it.seq().len() ==> copy@ == values@,
    {
        copy.insert(*v);
        proof {
            let all = it.seq().unref();
            let done = it.index() as int;
            assert(all.take(done + 1) =~= all.take(done).push(*v));
            all.take(done).lemma_push_to_set_commute(*v);
            assert(all.take(all.len() as int) =~= all);
        }
    }
    copy
}

/// The elements of `values`, each once, in no particular order.
fn list_of(values: &HashSet<u64>) -> (list: Vec<u64>)
    ensures
        list@.no_duplicates(),
        list@.to_set() == values@,
{
    let mut list: Vec<u64> = Vec::new();
    for v in it: values.iter()
        invariant
            it.seq().unref().to_set() == values@,
            it.seq().no_duplicates(),
            list@ == it.seq().unref().take(it.index() as int),
            it.index() == it.seq().len() ==> list@ == it.seq().unref(),
    {
        list.push(*v);
        proof {
            let all = it.seq().unref();
            assert(list@ =~= all.take(it.index() + 1));
            assert(all.take(all.len() as int) =~= all);
        }
    }
    list
}

/// Whether two topologies name the same nodes with the same neighbours, in
/// the same order.
pub open spec fn same_topology(a: Seq<(String, Vec<String>)>, b: Seq<(String, Vec<String>)>) -> bool {
    &&& a.len() == b.len()
    &&& forall|i: int| 0 <= i < a.len() ==> (#[trigger] a[i]).0 == b[i].0 && a[i].1@ == b[i].1@
}

impl Clone for Message {
    /// A message of the same kind that carries the same values.
    fn clone(&self) -> (m: Self)
        ensures
            match *self {
                Message::Broadcast { message } => m == Message::Broadcast { message },
                Message::BroadcastOk => m == Message::BroadcastOk,
                Message::Gossip { values } => m matches Message::Gossip { values: v } && v@ == values@,
                Message::Read => m == Message::Read,
                Message::ReadOk { messages } => m matches Message::ReadOk { messages: v } && v@
                    == messages@,
                Message::Topology { topology } => m matches Message::Topology { topology: t }
                    && same_topology(t@, topology@),
                Message::TopologyOk => m == Message::TopologyOk,
            },
    {
        match self {
            Message::Broadcast { message } => Message::Broadcast { message: *message },
            Message::BroadcastOk => Message::BroadcastOk,
            Message::Gossip { values } => Message::Gossip { values: copy_of(values) },
            Message::Read => Message::Read,
            Message::ReadOk { messages } => Message::ReadOk { messages: messages.clone() },
            Message::Topology { topology } => {
                let mut copy: Vec<(String, Vec<String>)> = Vec::new();
                let mut i: usize = 0;
                while i < topology.len()
                    invariant
                        i <= topology@.len(),
                        same_topology(copy@, topology@.take(i as int)),
                    decreases topology@.len() - i,
                {
                    copy.push((topology[i].0.clone(), clone_ids(&topology[i].1)));
                    i += 1;
                }
                proof {
                    assert(topology@.take(i as int) =~= topology@);
                }
                Message::Topology { topology: copy }
            },
            Message::TopologyOk => Message::TopologyOk,
        }
    }
}

impl Clone for Broadcast {
    /// A workload that has seen the same values and has the same
    /// neighbours.
    fn clone(&self) -> (b: Self)
        ensures
            b.values() == self.values(),
            b.neighbour_list() == self.neighbour_list(),
    {
        let neighbours = self.neighbours.clone();
        Broadcast { values: copy_of(&self.values), neighbours }
    }
}

impl Broadcast {
    /// The values seen so far.
    pub closed spec fn values(&self) -> Set<u64> {
        self.values@
    }

    /// The nodes that this node gossips to.
    pub closed spec fn neighbours(&self) -> Set<Seq<char>> {
        self.neighbours@
    }

    /// The neighbours in the order in which `gossip` writes to them: each
    /// once.
    pub closed spec fn neighbour_list(&self) -> Seq<Seq<char>> {
        self.neighbours.elements()
    }

    /// The neighbour list holds exactly the neighbours.
    pub proof fn lemma_neighbour_list(&self)
        ensures
            self.neighbour_list().to_set() == self.neighbours(),
    {
    }

    /// Takes in every value of `values`.
    fn merge(&mut self, values: &HashSet<u64>)
        ensures
            final(self).values() == old(self).values().union(values@),
            final(self).neighbours == old(self).neighbours,
    {
        for v in it: values.iter()
            invariant
                it.seq().unref().to_set() == values@,
                self.neighbours == old(self).neighbours,
                self.values@ == old(self).values@.union(
                    it.seq().unref().take(it.index() as int).to_set(),
                ),
                it.index() == it.seq().len() ==> self.values@ == old(self).values@.union(values@),
        {
            self.values.insert(*v);
            proof {
                let all = it.seq().unref();
                let done = it.index() as int;
                assert(all.take(done + 1) =~= all.take(done).push(*v));
                all.take(done).lemma_push_to_set_commute(*v);
                assert(self.values@ =~= old(self).values@.union(all.take(done + 1).to_set()));
                assert(all.take(all.len() as int) =~= all);
            }
        }
    }

    /// The neighbours of `rt.node_id` in the star over `rt.node_ids`.
    fn star_of(rt: &Runtime) -> (neighbours: StringSet)
        ensures
            neighbours@ == star(rt@.node_id, rt@.node_ids),
    {
        let mut neighbours = StringSet::new();
        if rt.node_ids.len() == 0 {
            return neighbours;
        }
        let ghost ids = rt@.node_ids;
        assert(ids[0] == rt.node_ids@[0]@);
        if rt.node_id == rt.node_ids[0] {
            let mut i: usize = 1;
            proof {
                assert(ids.skip(1).take(0) =~= Seq::empty());
                assert(ids.skip(1).take(0).to_set() =~= Set::empty());
            }
            while i < rt.node_ids.len()
                invariant
                    1 <= i <= rt.node_ids@.len(),
                    ids == rt@.node_ids,
                    neighbours@ == ids.skip(1).take(i - 1).to_set(),
                decreases rt.node_ids@.len() - i,
            {
                neighbours.insert(rt.node_ids[i].clone());
                proof {
                    assert(ids[i as int] == rt.node_ids@[i as int]@);
                    assert(ids.skip(1).take(i as int) =~= ids.skip(1).take(i - 1).push(ids[i as int]));
                    ids.skip(1).take(i - 1).lemma_push_to_set_commute(ids[i as int]);
                }
                i += 1;
            }
            proof {
                assert(ids.skip(1).take(i - 1) =~= ids.skip(1));
            }
        } else {
            neighbours.insert(rt.node_ids[0].clone());
            assert(neighbours@ =~= set![ids[0]]);
        }
        neighbours
    }
}

impl Service for Broadcast {
    type Output = Message;

    open spec fn handled(
        pre: Self,
        msg: Message,
        ctx: ContextView,
        post: Self,
        reply: Option<Message>,
    ) -> bool {
        match msg {
            Message::Broadcast { .. } => {
                &&& post.values() == absorbed(pre.values(), msg)
                &&& post.neighbour_list() == pre.neighbour_list()
                &&& reply == Some(Message::BroadcastOk)
            },
            Message::Read => {
                &&& post == pre
                &&& reply matches Some(Message::ReadOk { messages }) && messages@.no_duplicates()
                    && messages@.to_set() == pre.values()
            },
            Message::Topology { .. } => {
                &&& post.values() == pre.values()
                &&& post.neighbours() == star(ctx.rt.node_id, ctx.rt.node_ids)
                &&& post.neighbour_list().no_duplicates()
                &&& reply == Some(Message::TopologyOk)
            },
            Message::Gossip { .. } => {
                &&& post.values() == absorbed(pre.values(), msg)
                &&& post.neighbour_list() == pre.neighbour_list()
                &&& reply is None
            },
            _ => post == pre && reply is None,
        }
    }

    open spec fn gossiped(
        pre: Self,
        rt: RuntimeView,
        post: Self,
        out: Seq<crate::message::Message<BodyType<Message>>>,
    ) -> bool {
        &&& post == pre
        &&& if pre.values() == Set::<u64>::empty() {
            out.len() == 0
        } else {
            sent_to(
                out,
                rt.node_id,
                others(rt.node_id, pre.neighbour_list()),
                |m: Message| m matches Message::Gossip { values } && values@ == pre.values(),
            )
        }
    }

    open spec fn interval(&self) -> u64 {
        150
    }

    /// Answers a request and takes gossip in; a message that is neither is
    /// dropped.
    fn handle(&mut self, msg: Message, ctx: Context) -> (reply: Option<Message>) {
        match msg {
            Message::Broadcast { message } => {
                self.values.insert(message);
                Some(Message::BroadcastOk)
            },
            Message::Read => Some(Message::ReadOk { messages: list_of(&self.values) }),
            Message::Topology { .. } => {
                self.neighbours = Self::star_of(&ctx.rt);
                self.neighbours.distinct();
                Some(Message::TopologyOk)
            },
            Message::Gossip { values } => {
                self.merge(&values);
                None
            },
            _ => None,
        }
    }

    /// Sends all values seen so far to every neighbour, once there are any.
    fn gossip(&mut self, rt: &Runtime) -> (out: Vec<crate::message::Message<BodyType<Message>>>) {
        let mut out: Vec<crate::message::Message<BodyType<Message>>> = Vec::new();
        if self.values.is_empty() {
            return out;
        }
        let ghost list = self.neighbour_list();
        let ghost payload = |m: Message| m matches Message::Gossip { values } && values@ == self.values();
        let mut i: usize = 0;
        proof {
            assert(list.take(0) =~= Seq::empty());
        }
        while i < self.neighbours.len()
            invariant
                i <= list.len(),
                list == self.neighbour_list(),
                payload == |m: Message| m matches Message::Gossip { values } && values@ == self.values(),
                sent_to(out@, rt@.node_id, others(rt@.node_id, list.take(i as int)), payload),
            decreases list.len() - i,
        {
            let target = self.neighbours.get(i);
            let msg = Message::Gossip { values: copy_of(&self.values) };
            assert(payload(msg));
            proof {
                assert(list.take(i + 1).drop_last() =~= list.take(i as int));
                assert(list.take(i + 1).last() == target@);
            }
            match rt.send_msg(target, msg) {
                Some(envelope) => {
                    out.push(envelope);
                },
                None => {},
            }
            i += 1;
        }
        proof {
            assert(list.take(i as int) =~= list);
        }
        out
    }

    fn gossip_interval(&self) -> (ms: u64) {
        150
    }
}

/// Gossip carries everything across: a node that takes in an envelope of a
/// peer's gossip round has then seen all that the peer had seen, keeps all
/// that it had seen itself, and sends no answer.
pub proof fn lemma_gossip_delivers(
    sender: Broadcast,
    rt: RuntimeView,
    out: Seq<crate::message::Message<BodyType<Message>>>,
    i: int,
    pre: Broadcast,
    ctx: ContextView,
    post: Broadcast,
    reply: Option<Message>,
)
    requires
        Broadcast::gossiped(sender, rt, sender, out),
        0 <= i < out.len(),
        out[i].body.extra matches BodyType::Service(m) && Broadcast::handled(pre, m, ctx, post, reply),
    ensures
        post.values() == pre.values().union(sender.values()),
        reply is None,
{
}

/// A topology request builds the star: on a node that knows the sorted
/// list of the distinct identifiers of all nodes, itself among them, the
/// neighbours are afterwards all other nodes if the node has the least
/// identifier, and the node with the least identifier alone if not.
pub proof fn lemma_topology_builds_star(
    pre: Broadcast,
    msg: Message,
    ctx: ContextView,
    post: Broadcast,
    reply: Option<Message>,
)
    requires
        msg is Topology,
        Broadcast::handled(pre, msg, ctx, post, reply),
        sorted(ctx.rt.node_ids),
        ctx.rt.node_ids.no_duplicates(),
        ctx.rt.node_ids.contains(ctx.rt.node_id),
    ensures
        reply == Some(Message::TopologyOk),
        post.neighbours() == if ctx.rt.node_id == ctx.rt.node_ids[0] {
            ctx.rt.node_ids.to_set().remove(ctx.rt.node_id)
        } else {
            set![ctx.rt.node_ids[0]]
        },
{
    lemma_star_topology(ctx.rt.node_ids);
}

/// No neighbour is listed twice, whatever message a node takes in, so
/// that a round of gossip writes to each neighbour once.
pub proof fn lemma_neighbours_stay_distinct(
    pre: Broadcast,
    msg: Message,
    ctx: ContextView,
    post: Broadcast,
    reply: Option<Message>,
)
    requires
        Broadcast::handled(pre, msg, ctx, post, reply),
        pre.neighbour_list().no_duplicates(),
    ensures
        post.neighbour_list().no_duplicates(),
{
}

/// The values seen only grow: whatever message a node takes in, it has
/// seen afterwards all that it had seen before.
pub proof fn lemma_values_only_grow(
    pre: Broadcast,
    msg: Message,
    ctx: ContextView,
    post: Broadcast,
    reply: Option<Message>,
)
    requires
        Broadcast::handled(pre, msg, ctx, post, reply),
    ensures
        pre.values().subset_of(post.values()),
        post.values() == absorbed(pre.values(), msg),
{
}

/// A read after the messages `msgs` returns what the node had seen before
/// together with every value that `msgs` carry, each exactly once.
pub proof fn lemma_read_after(
    start: Set<u64>,
    msgs: Seq<Message>,
    pre: Broadcast,
    ctx: ContextView,
    post: Broadcast,
    reply: Option<Message>,
)
    requires
        pre.values() == absorbed_all(start, msgs),
        Broadcast::handled(pre, Message::Read, ctx, post, reply),
    ensures
        reply matches Some(Message::ReadOk { messages }) && messages@.no_duplicates() && messages@.to_set()
            == start.union(carried(msgs)),
{
    lemma_absorbed_all_is_union(start, msgs);
}

} // verus!
