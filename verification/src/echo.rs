//! The echo workload: every request is answered with its own text.

use crate::message::{BodyType, Service};
use crate::server::{Context, ContextView, Runtime, RuntimeView};
use vstd::prelude::*;

verus! {

/// The messages of the echo workload.
#[derive(Clone, Debug, PartialEq, Eq)]
pub enum Message {
    Echo { echo: String },
    EchoOk { echo: String },
}

/// The echo workload. It has no state.
#[derive(Clone, Debug)]
pub struct Echo {}

impl Default for Echo {
    fn default() -> (e: Self)
        ensures
            e == (Echo {}),
    {
        Echo {}
    }
}

impl Service for Echo {
    type Output = Message;

    open spec fn handled(
        pre: Self,
        msg: Message,
        ctx: ContextView,
        post: Self,
        reply: Option<Message>,
    ) -> bool {
        match msg {
            Message::Echo { echo } => reply == Some(Message::EchoOk { echo }),
            _ => reply is None,
        }
    }

    open spec fn gossiped(
        pre: Self,
        rt: RuntimeView,
        post: Self,
        out: Seq<crate::message::Message<BodyType<Message>>>,
    ) -> bool {
        out.len() == 0
    }

    open spec fn interval(&self) -> u64 {
        1000
    }

    /// Answers a request with its text; a message that is no request is
    /// dropped.
    fn handle(&mut self, msg: Message, ctx: Context) -> (reply: Option<Message>) {
        match msg {
            Message::Echo { echo } => Some(Message::EchoOk { echo }),
            _ => None,
        }
    }

    /// There is nothing to spread.
    fn gossip(&mut self, rt: &Runtime) -> (out: Vec<crate::message::Message<BodyType<Message>>>) {
        Vec::new()
    }

    fn gossip_interval(&self) -> (ms: u64) {
        1000
    }
}

} // verus!
