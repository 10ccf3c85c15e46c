//! The workload that hands out identifiers: every request is answered with
//! a fresh ULID.

use crate::message::{BodyType, Service};
use crate::server::{Context, ContextView, Runtime, RuntimeView};
use crate::services::generate::{generate_ulid_string, ID_LEN};
use vstd::prelude::*;

verus! {

/// The messages of this workload.
#[derive(Clone, Debug, PartialEq, Eq)]
pub enum Message {
    Generate,
    GenerateOk { id: String },
}

/// The workload. It has no state.
#[derive(Clone, Debug)]
pub struct Generate {}

impl Default for Generate {
    fn default() -> (g: Self)
        ensures
            g == (Generate {}),
    {
        Generate {}
    }
}

impl Generate {
    /// The answer to `msg` where `id` is the identifier drawn for it: a
    /// request is answered with `id`, anything else is dropped.
    pub open spec fn answer(msg: Message, id: String) -> Option<Message> {
        match msg {
            Message::Generate => Some(Message::GenerateOk { id }),
            _ => None,
        }
    }

    /// The answer to `msg` where `id` is the identifier drawn for it.
    pub fn reply_with(msg: Message, id: String) -> (reply: Option<Message>)
        ensures
            reply == Self::answer(msg, id),
    {
        match msg {
            Message::Generate => Some(Message::GenerateOk { id }),
            _ => None,
        }
    }
}

impl Service for Generate {
    type Output = Message;

    open spec fn handled(
        pre: Self,
        msg: Message,
        ctx: ContextView,
        post: Self,
        reply: Option<Message>,
    ) -> bool {
        match msg {
            Message::Generate => reply matches Some(Message::GenerateOk { id }) && id@.len() == ID_LEN,
            _ => reply is None,
        }
    }

    open spec fn gossiped(
        pre: Self,
        rt: RuntimeView,
        post: Self,
        out: Seq<crate::message::Message<BodyType<Message>>>,
    ) -> bool {
        out.len() == 0
    }

    open spec fn interval(&self) -> u64 {
        1000
    }

    /// Answers a request with a fresh identifier of 26 characters; a
    /// message that is no request is dropped.
    fn handle(&mut self, msg: Message, ctx: Context) -> (reply: Option<Message>) {
        match msg {
            Message::Generate => Self::reply_with(msg, generate_ulid_string()),
            _ => None,
        }
    }

    /// There is nothing to spread.
    fn gossip(&mut self, rt: &Runtime) -> (out: Vec<crate::message::Message<BodyType<Message>>>) {
        Vec::new()
    }

    fn gossip_interval(&self) -> (ms: u64) {
        1000
    }
}

} // verus!
