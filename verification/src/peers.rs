//! What a server does with a datagram on its server-to-server socket:
//! answer questions, adopt announced leaders, note answers to its own
//! election questions, and note that the leader is alive.

use vstd::prelude::*;
use crate::wire::{ServerMessage, MessageView, decode_spec, deserialize_message};

verus! {

/// Message kinds on the server-to-server socket.
pub const BROADCAST_QUESTION: i32 = 0;
pub const INFORMATION: i32 = 1;
pub const LEADER_ANNOUNCEMENT: i32 = 2;
pub const ACKNOWLEDGEMENT: i32 = 3;
pub const ALIVE_QUESTION: i32 = 4;
pub const ALIVE_ANSWER: i32 = 5;

/// What to send back to the server socket of a peer.
pub enum PeerReply {
    Nothing,
    /// Send `message` to peer `server`.
    Send { server: i32, message: ServerMessage },
}

/// The outcome of one server-to-server datagram.
pub struct PeerStep {
    /// The leader after the datagram.
    pub leader: i32,
    /// Whether the datagram shows that the leader is alive.
    pub leader_alive: bool,
    /// The server that answered this server's election question, if the
    /// datagram is such an answer.
    pub answered_by: Option<i32>,
    pub reply: PeerReply,
}

/// The reply to a peer's message `m` of kind `kind`.
pub open spec fn reply_view(my_index: i32, leader: i32, client: Seq<char>, kind: i32) -> MessageView {
    MessageView { sender: my_index, client, data: Seq::empty(), cur_leader: leader, msg_type: kind }
}

/// Whether `buf` reads as a message from one of the servers `0 .. server_count`.
pub open spec fn from_known_server(buf: Seq<u8>, server_count: i32) -> bool {
    decode_spec(buf) is Ok && 0 <= decode_spec(buf)->Ok_0.sender < server_count
}

/// The leader after a server-to-server datagram `buf` arrives while
/// `leader` leads: the sender of an announcement becomes the leader.
pub open spec fn leader_after(buf: Seq<u8>, server_count: i32, leader: i32) -> i32 {
    if from_known_server(buf, server_count) && decode_spec(buf)->Ok_0.msg_type == LEADER_ANNOUNCEMENT {
        decode_spec(buf)->Ok_0.sender
    } else {
        leader
    }
}

/// Handles the datagram at the front of `buf` for server `my_index` of
/// `server_count` while `leader` leads. A question (an election question
/// among them) is answered with the current leader; an answer is
/// reported; an announcement makes its sender the leader and is
/// acknowledged; an alive question is answered that the leader is here;
/// alive questions and answers both show that the leader is alive.
/// Anything that does not read as a message from one of the servers is
/// dropped, so every reply goes to one of them.
pub fn handle_server_message(buf: &[u8], my_index: i32, server_count: i32, leader: i32) -> (r: PeerStep)
    ensures
        r.leader == leader_after(buf@, server_count, leader),
        r.reply matches PeerReply::Send { server, .. } ==> 0 <= server < server_count,
        r.answered_by matches Some(p) ==> 0 <= p < server_count,
        !from_known_server(buf@, server_count) ==> !r.leader_alive && r.answered_by is None
            && r.reply is Nothing,
        from_known_server(buf@, server_count) ==> ({
            let m = decode_spec(buf@)->Ok_0;
            &&& r.answered_by == (if m.msg_type == INFORMATION {
                Some(m.sender)
            } else {
                None::<i32>
            })
            &&& r.leader_alive == (m.msg_type == ALIVE_QUESTION || m.msg_type == ALIVE_ANSWER)
            &&& if m.msg_type == BROADCAST_QUESTION {
                r.reply matches PeerReply::Send { server, message } && server == m.sender
                    && message@ == reply_view(my_index, leader, m.client, INFORMATION)
            } else if m.msg_type == LEADER_ANNOUNCEMENT {
                r.reply matches PeerReply::Send { server, message } && server == m.sender
                    && message@ == reply_view(my_index, leader, m.client, ACKNOWLEDGEMENT)
            } else if m.msg_type == ALIVE_QUESTION {
                r.reply matches PeerReply::Send { server, message } && server == m.sender
                    && message@ == reply_view(my_index, leader, m.client, ALIVE_ANSWER)
            } else {
                r.reply is Nothing
            }
        }),
{
    let m = match deserialize_message(buf) {
        Ok(m) => m,
        Err(_) => {
            return PeerStep { leader, leader_alive: false, answered_by: None, reply: PeerReply::Nothing };
        },
    };
    if m.sender < 0 || m.sender >= server_count {
        return PeerStep { leader, leader_alive: false, answered_by: None, reply: PeerReply::Nothing };
    }
    let kind = m.msg_type;
    if kind == BROADCAST_QUESTION || kind == LEADER_ANNOUNCEMENT || kind == ALIVE_QUESTION {
        let answer_kind = if kind == BROADCAST_QUESTION {
            INFORMATION
        } else if kind == LEADER_ANNOUNCEMENT {
            ACKNOWLEDGEMENT
        } else {
            ALIVE_ANSWER
        };
        let message = ServerMessage {
            sender: my_index,
            client: m.client,
            data: Vec::new(),
            cur_leader: leader,
            msg_type: answer_kind,
        };
        PeerStep {
            leader: if kind == LEADER_ANNOUNCEMENT { m.sender } else { leader },
            leader_alive: kind == ALIVE_QUESTION,
            answered_by: None,
            reply: PeerReply::Send { server: m.sender, message },
        }
    } else if kind == ALIVE_ANSWER {
        PeerStep { leader, leader_alive: true, answered_by: None, reply: PeerReply::Nothing }
    } else if kind == INFORMATION {
        PeerStep {
            leader,
            leader_alive: false,
            answered_by: Some(m.sender),
            reply: PeerReply::Nothing,
        }
    } else {
        PeerStep { leader, leader_alive: false, answered_by: None, reply: PeerReply::Nothing }
    }
}

/// Law (announcements): an announcement from one of the servers makes
/// its sender the leader of every server that receives it; nothing else
/// changes the leader.
pub proof fn lemma_announcement_sets_leader(buf: Seq<u8>, server_count: i32, leader: i32)
    ensures
        (from_known_server(buf, server_count) && decode_spec(buf)->Ok_0.msg_type == LEADER_ANNOUNCEMENT)
            ==> leader_after(buf, server_count, leader) == decode_spec(buf)->Ok_0.sender,
        !(from_known_server(buf, server_count) && decode_spec(buf)->Ok_0.msg_type == LEADER_ANNOUNCEMENT)
            ==> leader_after(buf, server_count, leader) == leader,
{
}

/// Law (known servers only): whatever arrives, a leader that is one of the
/// servers stays one of them.
pub proof fn lemma_leader_stays_known(buf: Seq<u8>, server_count: i32, leader: i32)
    requires
        0 <= leader < server_count,
    ensures
        0 <= leader_after(buf, server_count, leader) < server_count,
{
}

} // verus!
