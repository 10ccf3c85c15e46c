//! The envelope that nodes exchange, the bootstrap handshake, and the
//! contract that every workload meets.

use crate::server::{Context, ContextView, Runtime, RuntimeView};
use vstd::prelude::*;

verus! {

/// A key-value read and its answer.
#[derive(Clone, Debug, PartialEq, Eq)]
pub enum Rpc {
    Read { key: String },
    ReadOk { value: Option<String> },
}

/// The bootstrap handshake: a node learns its own identifier and those of
/// all nodes, and acknowledges.
#[derive(Clone, Debug, PartialEq, Eq)]
pub enum Init {
    Init { node_id: String, node_ids: Vec<String> },
    InitOk,
}

/// What a body carries: a message of the workload, a key-value call, or a
/// part of the handshake.
#[derive(Clone, Debug, PartialEq, Eq)]
pub enum BodyType<M> {
    Service(M),
    Rpc(Rpc),
    Init(Init),
}

/// The body of an envelope. `msg_id` is set by a sender that wants an
/// answer, `in_reply_to` by the node that answers.
#[derive(Clone, Debug, PartialEq, Eq)]
pub struct Body<P> {
    pub msg_id: Option<u64>,
    pub in_reply_to: Option<u64>,
    pub extra: P,
}

/// An envelope: who sent it, whom it is for, and its body.
#[derive(Clone, Debug, PartialEq, Eq)]
pub struct Message<P> {
    pub src: String,
    pub dest: String,
    pub body: Body<P>,
}

/// Those of `targets` that the node `me` sends to: all but itself, in their
/// order.
pub open spec fn others(me: Seq<char>, targets: Seq<Seq<char>>) -> Seq<Seq<char>>
    decreases targets.len(),
{
    if targets.len() == 0 {
        Seq::empty()
    } else if targets.last() == me {
        others(me, targets.drop_last())
    } else {
        others(me, targets.drop_last()).push(targets.last())
    }
}

/// Whether `out` is one envelope for each of `dests`, in their order, each
/// sent by `me` without correlation fields and carrying a message of the
/// workload that `payload` accepts.
pub open spec fn sent_to<M>(
    out: Seq<Message<BodyType<M>>>,
    me: Seq<char>,
    dests: Seq<Seq<char>>,
    payload: spec_fn(M) -> bool,
) -> bool {
    &&& out.len() == dests.len()
    &&& forall|i: int|
        0 <= i < out.len() ==> {
            &&& (#[trigger] out[i]).src@ == me
            &&& out[i].dest@ == dests[i]
            &&& out[i].body.msg_id is None
            &&& out[i].body.in_reply_to is None
            &&& out[i].body.extra matches BodyType::Service(m) && payload(m)
        }
}

/// A workload: a state machine that answers the messages of its kind and
/// may gossip with its peers on a timer.
pub trait Service: Sized {
    /// The messages of this workload, requests and replies alike.
    type Output;

    /// Whether `handle`, called in state `pre` with `msg` and `ctx`, may
    /// leave the workload in state `post` and answer `reply`.
    spec fn handled(
        pre: Self,
        msg: Self::Output,
        ctx: ContextView,
        post: Self,
        reply: Option<Self::Output>,
    ) -> bool;

    /// Whether `gossip`, called in state `pre` on the runtime `rt`, may
    /// leave the workload in state `post` and emit the envelopes `out`.
    spec fn gossiped(
        pre: Self,
        rt: RuntimeView,
        post: Self,
        out: Seq<Message<BodyType<Self::Output>>>,
    ) -> bool;

    /// The time between two calls of `gossip`, in milliseconds.
    spec fn interval(&self) -> u64;

    /// Takes one message in. `None` means that the message was absorbed and
    /// nothing is to be sent back.
    fn handle(&mut self, msg: Self::Output, ctx: Context) -> (reply: Option<Self::Output>)
        ensures
            Self::handled(*old(self), msg, ctx@, *final(self), reply),
    ;

    /// Called on every tick of the timer: the envelopes to send to peers,
    /// in the order in which they are to be written.
    fn gossip(&mut self, rt: &Runtime) -> (out: Vec<Message<BodyType<Self::Output>>>)
        ensures
            Self::gossiped(*old(self), rt@, *final(self), out@),
    ;

    /// The time between two calls of `gossip`, in milliseconds.
    fn gossip_interval(&self) -> (ms: u64)
        ensures
            ms == self.interval(),
    ;
}

} // verus!
