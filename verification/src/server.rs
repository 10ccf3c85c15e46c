//! The node runtime and the dispatcher that routes every event of a node's
//! life to the handshake or to the workload.

use crate::message::{Body, BodyType, Init, Message, Service};
use crate::order::{clone_ids, ids_view, sort, sorted};
use vstd::prelude::*;

verus! {

/// What a node knows of the cluster: its own identifier and, in ascending
/// order, the identifiers of all nodes.
#[derive(Debug, PartialEq, Eq)]
pub struct Runtime {
    pub node_id: String,
    pub node_ids: Vec<String>,
}

/// A runtime, as contracts see it.
pub struct RuntimeView {
    pub node_id: Seq<char>,
    pub node_ids: Seq<Seq<char>>,
}

impl View for Runtime {
    type V = RuntimeView;

    open spec fn view(&self) -> RuntimeView {
        RuntimeView { node_id: self.node_id@, node_ids: ids_view(self.node_ids@) }
    }
}

impl Clone for Runtime {
    /// A runtime with the same identifiers.
    fn clone(&self) -> (r: Self)
        ensures
            r.node_id == self.node_id,
            r.node_ids@ == self.node_ids@,
            r@ == self@,
    {
        let node_ids = clone_ids(&self.node_ids);
        Runtime { node_id: self.node_id.clone(), node_ids }
    }
}

/// What a workload sees of the message it handles, besides the payload: a
/// snapshot of the runtime and the envelope, its addresses already turned
/// round for the answer.
#[derive(Debug, PartialEq, Eq)]
pub struct Context {
    pub rt: Runtime,
    pub msg: Message<()>,
}

/// A context, as contracts see it.
pub struct ContextView {
    pub rt: RuntimeView,
    pub src: Seq<char>,
    pub dest: Seq<char>,
    pub msg_id: Option<u64>,
    pub in_reply_to: Option<u64>,
}

impl View for Context {
    type V = ContextView;

    open spec fn view(&self) -> ContextView {
        ContextView {
            rt: self.rt@,
            src: self.msg.src@,
            dest: self.msg.dest@,
            msg_id: self.msg.body.msg_id,
            in_reply_to: self.msg.body.in_reply_to,
        }
    }
}

impl Context {
    /// A context for `msg`, with a snapshot of `rt`.
    pub fn new(rt: &Runtime, msg: Message<()>) -> (ctx: Self)
        ensures
            ctx.rt@ == rt@,
            ctx.msg == msg,
    {
        Self { rt: rt.clone(), msg }
    }
}

impl Runtime {
    /// The envelope that carries `msg` from this node to `node_id`: no
    /// correlation fields, this node as the source. A node sends nothing to
    /// itself.
    pub open spec fn outgoing<M>(self, node_id: String, msg: M) -> Option<Message<BodyType<M>>> {
        if node_id@ == self.node_id@ {
            None
        } else {
            Some(
                Message {
                    src: self.node_id,
                    dest: node_id,
                    body: Body { msg_id: None, in_reply_to: None, extra: BodyType::Service(msg) },
                },
            )
        }
    }

    /// Addresses `msg` to the peer `node_id`. Returns the envelope to put
    /// on the outbound queue, or `None` where `node_id` is this node.
    pub fn send_msg<M>(&self, node_id: &String, msg: M) -> (out: Option<Message<BodyType<M>>>)
        ensures
            out == self.outgoing(*node_id, msg),
    {
        if *node_id == self.node_id {
            return None;
        }
        Some(
            Message {
                src: self.node_id.clone(),
                dest: node_id.clone(),
                body: Body { msg_id: None, in_reply_to: None, extra: BodyType::Service(msg) },
            },
        )
    }
}

/// Where a node stands in its life.
#[derive(Clone, Copy, Debug, PartialEq, Eq, Structural)]
pub enum Lifecycle {
    /// No handshake yet: the node does not know who it is.
    Uninitialized,
    /// The handshake is done; messages are handled and gossip is sent.
    Running,
    /// Shutdown was asked for: nothing new is taken in, and what is queued
    /// for output is being written.
    Draining,
    /// All output is written.
    Terminated,
}

/// What can happen to a node.
#[derive(Debug)]
pub enum Event<M> {
    /// The gossip timer fired.
    Tick,
    /// A line came in and was decoded to this envelope.
    Line(Message<BodyType<M>>),
    /// A line came in that is no envelope, or reading failed for once.
    Malformed,
    /// The input is at its end.
    EndOfInput,
    /// Shutdown was signalled from outside.
    Interrupt,
    /// The writer has written all that was queued and has closed.
    Drained,
}

/// What the caller does after an event.
#[derive(Debug)]
pub enum Action<M> {
    /// Queue these envelopes for output, in this order, and wait for the
    /// next event.
    Send(Vec<Message<BodyType<M>>>),
    /// Read no more and stop the timer; tell the writer to write what is
    /// queued and close, and report `Drained` when it has.
    Drain,
    /// Leave, with success.
    Exit,
}

/// The envelope of the answer to `msg`: addresses turned round, no message
/// identifier of its own, `in_reply_to` as given.
pub open spec fn answer<P, Q>(msg: Message<P>, in_reply_to: Option<u64>, payload: Q) -> Message<Q> {
    Message {
        src: msg.dest,
        dest: msg.src,
        body: Body { msg_id: None, in_reply_to, extra: payload },
    }
}

/// What an answer to `msg` refers to: the identifier of `msg` where it has
/// one, else what `msg` itself referred to.
pub open spec fn correlation<P>(msg: Message<P>) -> Option<u64> {
    if msg.body.msg_id is Some {
        msg.body.msg_id
    } else {
        msg.body.in_reply_to
    }
}

/// What the workload is shown of the runtime `rt` and the envelope `msg`.
pub open spec fn context_of<P>(rt: RuntimeView, msg: Message<P>) -> ContextView {
    ContextView {
        rt,
        src: msg.dest@,
        dest: msg.src@,
        msg_id: msg.body.msg_id,
        in_reply_to: correlation(msg),
    }
}

/// A node: the runtime, the workload, and where the node stands in its life.
pub struct Server<S: Service> {
    runtime: Runtime,
    service: S,
    state: Lifecycle,
}

impl<S: Service> Server<S> {
    /// The runtime.
    pub closed spec fn runtime(&self) -> Runtime {
        self.runtime
    }

    /// The workload.
    pub closed spec fn service(&self) -> S {
        self.service
    }

    /// Where the node stands in its life.
    pub closed spec fn state(&self) -> Lifecycle {
        self.state
    }

    /// Whether `handle`, called on node `pre` with `msg`, may leave the
    /// node as `post` and answer `reply`.
    ///
    /// A node that is shutting down takes nothing in. The first `Init`
    /// sets the identifiers, sorted, and is answered by `InitOk` without
    /// correlation fields; a later one is ignored. A message of the
    /// workload goes to the workload once the handshake is done, and its
    /// answer, if any, refers to the identifier of `msg`. Everything else
    /// is dropped.
    pub open spec fn handled(
        pre: Self,
        msg: Message<BodyType<S::Output>>,
        post: Self,
        reply: Option<Message<BodyType<S::Output>>>,
    ) -> bool {
        match (pre.state(), msg.body.extra) {
            (Lifecycle::Uninitialized, BodyType::Init(Init::Init { node_id, node_ids })) => {
                &&& post.state() == Lifecycle::Running
                &&& post.service() == pre.service()
                &&& post.runtime()@.node_id == node_id@
                &&& sorted(post.runtime()@.node_ids)
                &&& post.runtime()@.node_ids.to_multiset() == ids_view(node_ids@).to_multiset()
                &&& reply == Some(answer(msg, None, BodyType::<S::Output>::Init(Init::InitOk)))
            },
            (Lifecycle::Running, BodyType::Service(m)) => {
                &&& post.state() == pre.state()
                &&& post.runtime() == pre.runtime()
                &&& match reply {
                    None => S::handled(
                        pre.service(),
                        m,
                        context_of(pre.runtime()@, msg),
                        post.service(),
                        None,
                    ),
                    Some(e) => {
                        &&& e.body.extra matches BodyType::Service(r)
                        &&& e == answer(msg, correlation(msg), BodyType::Service(r))
                        &&& S::handled(
                            pre.service(),
                            m,
                            context_of(pre.runtime()@, msg),
                            post.service(),
                            Some(r),
                        )
                    },
                }
            },
            _ => post == pre && reply is None,
        }
    }

    /// Whether `gossip`, called on node `pre`, may leave the node as `post`
    /// and emit `out`: a running node lets its workload gossip, any other
    /// node emits nothing.
    pub open spec fn gossiped(pre: Self, post: Self, out: Seq<Message<BodyType<S::Output>>>) -> bool {
        if pre.state() == Lifecycle::Running {
            &&& post.state() == pre.state()
            &&& post.runtime() == pre.runtime()
            &&& S::gossiped(pre.service(), pre.runtime()@, post.service(), out)
        } else {
            post == pre && out.len() == 0
        }
    }

    /// Where the node stands after `shutdown`: a node that has not
    /// finished is draining.
    pub open spec fn after_shutdown(state: Lifecycle) -> Lifecycle {
        if state == Lifecycle::Terminated {
            Lifecycle::Terminated
        } else {
            Lifecycle::Draining
        }
    }

    /// Whether `run`, called on node `pre` with `event`, may leave the
    /// node as `post` and ask for `action`.
    pub open spec fn ran(pre: Self, event: Event<S::Output>, post: Self, action: Action<S::Output>) -> bool {
        if pre.state() == Lifecycle::Terminated {
            post == pre && action is Exit
        } else {
            match event {
                Event::Tick => {
                    &&& action matches Action::Send(out) && Self::gossiped(pre, post, out@)
                },
                Event::Line(msg) => {
                    &&& action matches Action::Send(out) && out@.len() <= 1 && Self::handled(
                        pre,
                        msg,
                        post,
                        if out@.len() == 0 {
                            None
                        } else {
                            Some(out@[0])
                        },
                    )
                },
                Event::Malformed => {
                    &&& post == pre
                    &&& action matches Action::Send(out) && out@.len() == 0
                },
                Event::EndOfInput | Event::Interrupt => {
                    &&& post.state() == Lifecycle::Draining
                    &&& post.runtime() == pre.runtime()
                    &&& post.service() == pre.service()
                    &&& action is Drain
                },
                Event::Drained => {
                    &&& post.state() == Lifecycle::Terminated
                    &&& post.runtime() == pre.runtime()
                    &&& post.service() == pre.service()
                    &&& action is Exit
                },
            }
        }
    }

    /// A node that runs `service` and has not yet been told who it is.
    pub fn new(service: S) -> (server: Self)
        ensures
            server.state() == Lifecycle::Uninitialized,
            server.service() == service,
            server.runtime()@.node_id == Seq::<char>::empty(),
            server.runtime()@.node_ids == Seq::<Seq<char>>::empty(),
    {
        let server = Server {
            runtime: Runtime { node_id: String::new(), node_ids: Vec::new() },
            service,
            state: Lifecycle::Uninitialized,
        };
        assert(server.runtime@.node_ids =~= Seq::<Seq<char>>::empty());
        server
    }

    /// Where the node stands in its life.
    pub fn lifecycle(&self) -> (state: Lifecycle)
        ensures
            state == self.state(),
    {
        self.state
    }

    /// The runtime.
    pub fn rt(&self) -> (rt: &Runtime)
        ensures
            *rt == self.runtime(),
    {
        &self.runtime
    }

    /// The workload.
    pub fn workload(&self) -> (service: &S)
        ensures
            *service == self.service(),
    {
        &self.service
    }

    /// Asks the node to shut down: from now on it takes nothing in and
    /// sends no gossip.
    pub fn shutdown(&mut self)
        ensures
            final(self).state() == Self::after_shutdown(old(self).state()),
            final(self).runtime() == old(self).runtime(),
            final(self).service() == old(self).service(),
    {
        match self.state {
            Lifecycle::Terminated => {},
            _ => {
                self.state = Lifecycle::Draining;
            },
        }
    }

    /// Takes one envelope in and returns the answer to queue for output,
    /// if there is one.
    pub fn handle(&mut self, msg: Message<BodyType<S::Output>>) -> (reply: Option<
        Message<BodyType<S::Output>>,
    >)
        ensures
            Self::handled(*old(self), msg, *final(self), reply),
    {
        let Message { src, dest, body } = msg;
        let Body { msg_id, in_reply_to, extra } = body;
        let in_reply_to = match msg_id {
            Some(id) => Some(id),
            None => in_reply_to,
        };
        match extra {
            BodyType::Init(Init::Init { node_id, node_ids }) => {
                match self.state {
                    Lifecycle::Uninitialized => {
                        let mut node_ids = node_ids;
                        sort(&mut node_ids);
                        self.runtime = Runtime { node_id, node_ids };
                        self.state = Lifecycle::Running;
                        Some(
                            Message {
                                src: dest,
                                dest: src,
                                body: Body {
                                    msg_id: None,
                                    in_reply_to: None,
                                    extra: BodyType::Init(Init::InitOk),
                                },
                            },
                        )
                    },
                    _ => None,
                }
            },
            BodyType::Service(m) => {
                match self.state {
                    Lifecycle::Running => {
                        let ctx = Context::new(
                            &self.runtime,
                            Message {
                                src: dest.clone(),
                                dest: src.clone(),
                                body: Body { msg_id, in_reply_to, extra: () },
                            },
                        );
                        match self.service.handle(m, ctx) {
                            Some(r) => Some(
                                Message {
                                    src: dest,
                                    dest: src,
                                    body: Body { msg_id: None, in_reply_to, extra: BodyType::Service(r) },
                                },
                            ),
                            None => None,
                        }
                    },
                    _ => None,
                }
            },
            _ => None,
        }
    }

    /// Called on every tick of the timer: the envelopes to queue for
    /// output, in order.
    pub fn gossip(&mut self) -> (out: Vec<Message<BodyType<S::Output>>>)
        ensures
            Self::gossiped(*old(self), *final(self), out@),
    {
        match self.state {
            Lifecycle::Running => self.service.gossip(&self.runtime),
            _ => Vec::new(),
        }
    }

    /// Runs the node through one event and says what to do next.
    pub fn run(&mut self, event: Event<S::Output>) -> (action: Action<S::Output>)
        ensures
            Self::ran(*old(self), event, *final(self), action),
    {
        if let Lifecycle::Terminated = self.state {
            return Action::Exit;
        }
        match event {
            Event::Tick => Action::Send(self.gossip()),
            Event::Line(msg) => {
                let mut out: Vec<Message<BodyType<S::Output>>> = Vec::new();
                match self.handle(msg) {
                    Some(reply) => {
                        out.push(reply);
                    },
                    None => {},
                }
                Action::Send(out)
            },
            Event::Malformed => Action::Send(Vec::new()),
            Event::EndOfInput | Event::Interrupt => {
                self.shutdown();
                Action::Drain
            },
            Event::Drained => {
                self.state = Lifecycle::Terminated;
                Action::Exit
            },
        }
    }
}

/// The identifiers that a node knows are sorted at every moment of its
/// life: no event disturbs their order, and a new node knows none.
pub proof fn lemma_ids_stay_sorted<S: Service>(
    pre: Server<S>,
    event: Event<S::Output>,
    post: Server<S>,
    action: Action<S::Output>,
)
    requires
        Server::ran(pre, event, post, action),
        sorted(pre.runtime()@.node_ids),
    ensures
        sorted(post.runtime()@.node_ids),
{
}

/// A node that is shutting down or has finished emits nothing: whatever
/// comes in, no envelope is queued.
pub proof fn lemma_silent_after_shutdown<S: Service>(
    pre: Server<S>,
    event: Event<S::Output>,
    post: Server<S>,
    action: Action<S::Output>,
)
    requires
        Server::ran(pre, event, post, action),
        pre.state() == Lifecycle::Draining || pre.state() == Lifecycle::Terminated,
    ensures
        action matches Action::Send(out) ==> out@.len() == 0,
        post.state() == Lifecycle::Draining || post.state() == Lifecycle::Terminated,
        post.service() == pre.service(),
        post.runtime() == pre.runtime(),
{
}

} // verus!
