//! How a node serves a client: what it answers at once, and what it
//! hands to the consensus module first.

use crate::network::message::{Message, MessageView, Response, ResponseView};
use crate::raft::node::{NodeRole, RaftNode};
use crate::storage::append_only_log::{CommandView, delete_record, set_record};
use crate::storage::storage::Storage;
use vstd::prelude::*;
use vstd::string::StringExecFns;

verus! {

/// What becomes of a client's request.
#[derive(Debug)]
pub enum Served {
    /// The answer, to be sent at once.
    Reply(Response),
    /// The write stands in the leader's log at this index. The answer is
    /// the one that the storage engine gives when the entry is applied.
    Proposed(u64),
}

/// The answer to a request with a key or a value that the store does not
/// accept.
pub open spec fn invalid_text() -> Seq<char> {
    "invalid key or value"@
}

/// The answer of a node that is no leader and knows of none.
pub open spec fn not_leader_text() -> Seq<char> {
    "not leader"@
}

/// The record that the consensus log holds for a write.
pub open spec fn proposal_of(message: MessageView) -> Seq<char> {
    match message {
        MessageView::Put(key, value) => CommandView::Put(key, value).record(),
        MessageView::Delete(key) => CommandView::Delete(key).record(),
        MessageView::Get(_) => Seq::empty(),
    }
}

/// The answer that a request gets at once, if it gets one: an error for
/// a request that breaks the limits on keys and values; from a node that
/// is no leader, the leader's address, or an error where none is known;
/// from the leader, what a read finds. A write that reaches the leader
/// gets its answer later.
pub open spec fn immediate_reply(
    role: NodeRole,
    mem: Map<Seq<char>, Seq<char>>,
    message: MessageView,
    leader_address: Option<Seq<char>>,
) -> Option<ResponseView> {
    if !message.valid() {
        Some(ResponseView::Error(invalid_text()))
    } else if role != NodeRole::Leader {
        match leader_address {
            Some(address) => Some(ResponseView::Redirect(address)),
            None => Some(ResponseView::Error(not_leader_text())),
        }
    } else {
        match message {
            MessageView::Get(key) => Some(
                ResponseView::Value(
                    if mem.contains_key(key) {
                        Some(mem[key])
                    } else {
                        None
                    },
                ),
            ),
            _ => None,
        }
    }
}

/// Serves one request of a client. `leader_address` is the address of
/// the leader that the node last heard of, where the caller knows it.
///
/// Where the request gets its answer at once, the node stays as it is.
/// Otherwise the request is a write that reached the leader: its record
/// is appended to the leader's log, and the commit rule is applied.
pub fn handle_client(
    node: &mut RaftNode,
    storage: &Storage,
    message: Message,
    leader_address: Option<String>,
) -> (served: Served)
    requires
        old(node).wf(),
        storage.wf(),
    ensures
        final(node).wf(),
        match immediate_reply(
            old(node)@.role,
            storage@.mem,
            message@,
            match leader_address {
                Some(address) => Some(address@),
                None => None,
            },
        ) {
            Some(reply) => {
                &&& served matches Served::Reply(response)
                &&& response@ == reply
                &&& final(node)@ == old(node)@
            },
            None => {
                let proposed = old(node)@.with_proposal(proposal_of(message@));
                &&& served == Served::Proposed(proposed.state.log.len() as u64)
                &&& proposed.is_commit_target(final(node)@.state.commit_index as int)
                &&& final(node)@ == proposed.with_commit_index(
                    final(node)@.state.commit_index as int,
                )
            },
        },
{
    if !message.is_valid() {
        return Served::Reply(Response::Error(String::from_str("invalid key or value")));
    }
    if node.role() != NodeRole::Leader {
        return match leader_address {
            Some(address) => Served::Reply(Response::Redirect(address)),
            None => Served::Reply(Response::Error(String::from_str("not leader"))),
        };
    }
    let record = match message {
        Message::Get(key) => {
            return Served::Reply(Response::Value(storage.get_in_memory(key.as_str())));
        },
        Message::Put(key, value) => set_record(key.as_str(), value.as_str()),
        Message::Delete(key) => delete_record(key.as_str()),
    };
    match node.propose(record) {
        Some(index) => Served::Proposed(index),
        None => Served::Reply(Response::Error(String::from_str("not leader"))),
    }
}

} // verus!
