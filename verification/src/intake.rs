//! What a server does with a datagram that arrives on its client socket:
//! answer `list` and `ping`, take an image when it leads, or check on the
//! leader first when it does not, and answer other servers' checks on it.

use vstd::prelude::*;
use vstd::slice::{slice_subrange, slice_to_vec};
use crate::wire::{
    ServerMessage, MessageView, decode_spec, encode_spec, deserialize_message, is_serialized_message,
    lemma_decode_encode,
};
use vstd::utf8::encode_utf8;
use crate::commands::{utf8_lossy, lowercase, is_command_word, is_valid_message, decode_lossy};
use crate::text::{trim, spells, push_str, string_from_chars};
use crate::roster::{ProcessedLog, client_list_reply, handle_list_command};

verus! {

/// A decision of the client-socket handler, for the caller to carry out.
pub enum IntakeAction {
    /// Send `text` to the client at `to`.
    SendClientList { to: String, text: String },
    /// A ping was recorded; nothing is sent.
    Ping,
    /// Store these image bytes (and have them encrypted).
    SaveImage { data: Vec<u8> },
    /// The image was taken before; nothing is stored.
    AlreadyProcessed,
    /// Send `probe` to the client socket of server `leader` and report
    /// whether it answered.
    CheckLeader { leader: i32, probe: ServerMessage },
    /// The leader did not answer: run an election and report its winner.
    Elect,
    /// Send `response` to the client socket of server `server`.
    AnswerServer { server: i32, response: ServerMessage },
    /// Nothing to do.
    Ignore,
}

/// An image held back while the leader is checked.
pub struct PendingImage {
    pub client: String,
    pub size: usize,
    pub data: Vec<u8>,
    /// The leader being checked.
    pub leader: i32,
}

/// The state of a server's client-socket handler.
pub struct Intake {
    pub my_index: i32,
    pub server_count: i32,
    pub processed: ProcessedLog,
    pub pending: Option<PendingImage>,
    /// Leader checks that went unanswered in a row.
    pub missed_checks: u32,
}

/// Unanswered leader checks in a row after which the leader is presumed dead.
pub const MISSES_BEFORE_ELECTION: u32 = 5;

/// Seconds between two checks of the leader, and how long each waits.
pub const CHECK_INTERVAL_SECS: u64 = 2;

/// One leader check: the misses in a row after it, and whether it calls
/// for an election. An answer clears the count; the fifth miss in a row
/// calls for an election and starts the count again.
pub open spec fn check_step(missed: u32, alive: bool) -> (u32, bool) {
    if alive {
        (0, false)
    } else if missed + 1 >= MISSES_BEFORE_ELECTION {
        (0, true)
    } else {
        ((missed + 1) as u32, false)
    }
}

/// The misses in a row after the outcomes `o` (`true`: answered), from none.
pub open spec fn misses_after(o: Seq<bool>) -> u32
    decreases o.len(),
{
    if o.len() == 0 {
        0
    } else {
        check_step(misses_after(o.drop_last()), o.last()).0
    }
}

/// Whether the `i`-th check of the outcomes `o` calls for an election.
pub open spec fn elects_at(o: Seq<bool>, i: int) -> bool {
    check_step(misses_after(o.take(i)), o[i]).1
}

proof fn lemma_misses_after(o: Seq<bool>)
    ensures
        misses_after(o) < MISSES_BEFORE_ELECTION,
        misses_after(o) <= o.len(),
        forall|j: int| o.len() - misses_after(o) <= j < o.len() ==> !o[j],
    decreases o.len(),
{
    if o.len() > 0 {
        lemma_misses_after(o.drop_last());
        assert forall|j: int| o.len() - misses_after(o) <= j < o.len() implies !o[j] by {
            if j < o.len() - 1 {
                assert(o.drop_last()[j] == o[j]);
            }
        }
    }
}

/// Law (five misses): a check calls for an election only when it and the
/// four checks before it all went unanswered.
pub proof fn lemma_election_needs_five_misses(o: Seq<bool>, i: int)
    requires
        0 <= i < o.len(),
        elects_at(o, i),
    ensures
        i >= 4,
        forall|j: int| i - 4 <= j <= i ==> !o[j],
{
    let p = o.take(i);
    lemma_misses_after(p);
    assert forall|j: int| i - 4 <= j <= i implies !o[j] by {
        if j < i {
            assert(p[j] == o[j]);
        }
    }
}

/// Law (every fifth miss): while the leader never answers, exactly every
/// fifth check calls for an election.
pub proof fn lemma_silent_leader_every_fifth(o: Seq<bool>, i: int)
    requires
        0 <= i < o.len(),
        forall|j: int| 0 <= j < o.len() ==> !o[j],
    ensures
        misses_after(o.take(i)) == i % 5,
        elects_at(o, i) == (i % 5 == 4),
    decreases i,
{
    if i > 0 {
        lemma_silent_leader_every_fifth(o, i - 1);
        assert(o.take(i).drop_last() =~= o.take(i - 1));
        assert(o.take(i).last() == o[i - 1]);
    } else {
        assert(o.take(0).len() == 0);
    }
}

/// Law (an answer clears the count): after an answered check no misses
/// are counted.
pub proof fn lemma_answer_clears(o: Seq<bool>)
    requires
        o.len() > 0,
        o.last(),
    ensures
        misses_after(o) == 0,
{
}

/// Whether a datagram comes from a server: it reads as a server message
/// and, read as text, is not one of the command words.
pub open spec fn is_server_datagram(frame: Seq<u8>) -> bool {
    decode_spec(frame) is Ok && !is_command_word(lowercase(trim(utf8_lossy(frame))))
}

/// The probe sent to the leader on behalf of an image from `client`.
pub open spec fn probe_view(my_index: i32, leader: i32, client: Seq<char>, frame: Seq<u8>) -> MessageView {
    MessageView { sender: my_index, client, data: frame, cur_leader: leader, msg_type: 3 }
}

/// The answer to a server message from `client`'s request.
pub open spec fn answer_view(my_index: i32, leader: i32, client: Seq<char>) -> MessageView {
    MessageView { sender: my_index, client, data: Seq::empty(), cur_leader: leader, msg_type: 3 }
}

/// Law (a check reaches the leader): the probe that server `me` sends to
/// check on its leader, as written on the wire, is taken by the server that
/// receives it as a message from `me`, to be answered and not stored,
/// whenever the probe's bytes read as text are no command word.
pub proof fn lemma_probe_is_answered(me: i32, leader: i32, client: Seq<char>, frame: Seq<u8>)
    requires
        encode_utf8(client).len() <= u64::MAX,
        frame.len() <= u64::MAX,
        !is_command_word(lowercase(trim(utf8_lossy(encode_spec(probe_view(me, leader, client, frame)))))),
    ensures
        is_server_datagram(encode_spec(probe_view(me, leader, client, frame))),
        decode_spec(encode_spec(probe_view(me, leader, client, frame)))->Ok_0 == probe_view(
            me,
            leader,
            client,
            frame,
        ),
{
    let b = encode_spec(probe_view(me, leader, client, frame));
    lemma_decode_encode(probe_view(me, leader, client, frame), Seq::empty());
    assert(b + Seq::<u8>::empty() =~= b);
}

/// The pending image's values, with the leader being checked.
pub open spec fn pending_view(p: Option<PendingImage>) -> Option<(Seq<char>, usize, Seq<u8>, i32)> {
    match p {
        Some(img) => Some((img.client@, img.size, img.data@, img.leader)),
        None => None,
    }
}

fn clone_string(s: &String) -> (r: String)
    ensures
        r@ == s@,
{
    s.clone()
}

impl Intake {
    /// A handler for server `my_index` of `server_count`, with nothing taken yet.
    pub fn new(my_index: i32, server_count: i32) -> (r: Self)
        ensures
            r.my_index == my_index,
            r.server_count == server_count,
            r.processed@ == Seq::<(Seq<char>, usize)>::empty(),
            r.pending is None,
            r.missed_checks == 0,
    {
        Intake {
            my_index,
            server_count,
            processed: ProcessedLog::new(),
            pending: None,
            missed_checks: 0,
        }
    }

    /// Takes the image `(client, size, data)` unless it was taken before.
    fn save_image(&mut self, client: &String, size: usize, data: Vec<u8>) -> (a: IntakeAction)
        ensures
            final(self).my_index == old(self).my_index,
            final(self).server_count == old(self).server_count,
            final(self).pending == old(self).pending,
            final(self).missed_checks == old(self).missed_checks,
            old(self).processed@.contains((client@, size)) ==> a is AlreadyProcessed
                && final(self).processed@ == old(self).processed@,
            !old(self).processed@.contains((client@, size)) ==> (a matches IntakeAction::SaveImage {
                data: d,
            } && d@ == data@) && final(self).processed@ == old(self).processed@.push(
                (client@, size),
            ),
    {
        if self.processed.record(client, size) {
            IntakeAction::SaveImage { data }
        } else {
            IntakeAction::AlreadyProcessed
        }
    }

    /// Handles the datagram of `amt` bytes from `src` that now fills the
    /// front of the receive buffer `buf`, while `leader` is the current
    /// leader. Only the datagram is read; the rest of `buf` is ignored. A
    /// message from another server (a check that this server, as leader, is
    /// alive) is answered to that server and leaves the record as it was.
    pub fn on_datagram(&mut self, buf: &[u8], amt: usize, src: &String, leader: i32) -> (a: IntakeAction)
        requires
            amt <= buf@.len(),
        ensures
            final(self).my_index == old(self).my_index,
            final(self).server_count == old(self).server_count,
            final(self).missed_checks == old(self).missed_checks,
            ({
                let frame = buf@.take(amt as int);
                let me = old(self).my_index;
                let before = old(self).processed@;
                let after = final(self).processed@;
                let taken = before.contains((src@, amt));
                let recorded = if taken { before } else { before.push((src@, amt)) };
                if is_server_datagram(frame) {
                    let m = decode_spec(frame)->Ok_0;
                    &&& after == before
                    &&& pending_view(final(self).pending) == pending_view(old(self).pending)
                    &&& if 0 <= m.sender < old(self).server_count {
                        a matches IntakeAction::AnswerServer { server, response }
                            && server == m.sender && response@ == answer_view(me, leader, m.client)
                    } else {
                        a is Ignore
                    }
                } else if utf8_lossy(frame) == "list"@ {
                    &&& after == recorded
                    &&& pending_view(final(self).pending) == pending_view(old(self).pending)
                    &&& a matches IntakeAction::SendClientList { to, text } && to@ == src@
                        && client_list_reply(after, text@)
                } else if utf8_lossy(frame) == "ping"@ {
                    &&& after == recorded
                    &&& pending_view(final(self).pending) == pending_view(old(self).pending)
                    &&& a is Ping
                } else if leader == me {
                    &&& after == recorded
                    &&& pending_view(final(self).pending) == pending_view(old(self).pending)
                    &&& taken ==> a is AlreadyProcessed
                    &&& !taken ==> (a matches IntakeAction::SaveImage { data } && data@ == frame)
                } else {
                    &&& after == before
                    &&& pending_view(final(self).pending) == Some((src@, amt, frame, leader))
                    &&& a matches IntakeAction::CheckLeader { leader: l, probe } && l == leader
                        && probe@ == probe_view(me, leader, src@, frame)
                }
            }),
    {
        let frame_slice = slice_subrange(buf, 0, amt);
        let from_server = is_serialized_message(frame_slice) && !is_valid_message(frame_slice);
        if !from_server {
            let command = decode_lossy(frame_slice);
            if spells(&command, "list") {
                self.processed.record(src, amt);
                let text = handle_list_command(&self.processed);
                return IntakeAction::SendClientList { to: clone_string(src), text };
            }
            if spells(&command, "ping") {
                self.processed.record(src, amt);
                return IntakeAction::Ping;
            }
            let frame = slice_to_vec(frame_slice);
            assert(frame@ =~= buf@.take(amt as int));
            if leader == self.my_index {
                return self.save_image(src, amt, frame);
            }
            let probe = ServerMessage {
                sender: self.my_index,
                client: clone_string(src),
                data: slice_to_vec(frame_slice),
                cur_leader: leader,
                msg_type: 3,
            };
            self.pending = Some(PendingImage { client: clone_string(src), size: amt, data: frame, leader });
            IntakeAction::CheckLeader { leader, probe }
        } else {
            let m = match deserialize_message(frame_slice) {
                Ok(m) => m,
                Err(_) => {
                    return IntakeAction::Ignore;
                },
            };
            if 0 <= m.sender && m.sender < self.server_count {
                let response = ServerMessage {
                    sender: self.my_index,
                    client: m.client,
                    data: Vec::new(),
                    cur_leader: leader,
                    msg_type: 3,
                };
                IntakeAction::AnswerServer { server: m.sender, response }
            } else {
                IntakeAction::Ignore
            }
        }
    }

    /// Handles the outcome of a leader check. An answer clears the count of
    /// misses and leaves the held image to the leader. A miss is counted:
    /// the fifth in a row calls for an election, an earlier one for another
    /// check of the same leader (after `CHECK_INTERVAL_SECS`).
    pub fn on_leader_checked(&mut self, alive: bool) -> (a: IntakeAction)
        ensures
            final(self).my_index == old(self).my_index,
            final(self).server_count == old(self).server_count,
            final(self).processed@ == old(self).processed@,
            alive ==> a is Ignore && final(self).pending is None && final(self).missed_checks == 0,
            !alive ==> pending_view(final(self).pending) == pending_view(old(self).pending),
            !alive && old(self).pending is None ==> a is Ignore && final(self).missed_checks
                == old(self).missed_checks,
            !alive && old(self).pending is Some ==> {
                let step = check_step(old(self).missed_checks, false);
                let p = pending_view(old(self).pending)->Some_0;
                &&& final(self).missed_checks == step.0
                &&& step.1 ==> a is Elect
                &&& !step.1 ==> (a matches IntakeAction::CheckLeader { leader, probe }
                    && leader == p.3 && probe@ == probe_view(old(self).my_index, p.3, p.0, p.2))
            },
    {
        if alive {
            self.pending = None;
            self.missed_checks = 0;
            return IntakeAction::Ignore;
        }
        match &self.pending {
            None => IntakeAction::Ignore,
            Some(p) => {
                if self.missed_checks >= MISSES_BEFORE_ELECTION - 1 {
                    self.missed_checks = 0;
                    IntakeAction::Elect
                } else {
                    let probe = ServerMessage {
                        sender: self.my_index,
                        client: clone_string(&p.client),
                        data: p.data.clone(),
                        cur_leader: p.leader,
                        msg_type: 3,
                    };
                    assert(probe.data@ =~= p.data@);
                    let leader = p.leader;
                    self.missed_checks = self.missed_checks + 1;
                    IntakeAction::CheckLeader { leader, probe }
                }
            },
        }
    }

    /// Handles the winner of an election: the held image is taken when this
    /// server won, and dropped otherwise.
    pub fn on_new_leader(&mut self, leader: i32) -> (a: IntakeAction)
        ensures
            final(self).my_index == old(self).my_index,
            final(self).server_count == old(self).server_count,
            final(self).pending is None,
            final(self).missed_checks == old(self).missed_checks,
            match pending_view(old(self).pending) {
                Some((client, size, data, _)) => if leader == old(self).my_index {
                    if old(self).processed@.contains((client, size)) {
                        a is AlreadyProcessed && final(self).processed@ == old(self).processed@
                    } else {
                        (a matches IntakeAction::SaveImage { data: d } && d@ == data)
                            && final(self).processed@ == old(self).processed@.push((client, size))
                    }
                } else {
                    a is Ignore && final(self).processed@ == old(self).processed@
                },
                None => a is Ignore && final(self).processed@ == old(self).processed@,
            },
    {
        let pending = self.pending.take();
        match pending {
            Some(img) => {
                if leader == self.my_index {
                    self.save_image(&img.client, img.size, img.data)
                } else {
                    IntakeAction::Ignore
                }
            },
            None => IntakeAction::Ignore,
        }
    }
}

/// Whether the leader answered a probe: `None` when no reply came within the
/// wait, `Some(bytes)` with the reply's buffer otherwise. A reply that does
/// not read as a message gives `None` (the caller treats it as fatal).
pub fn leader_probe_result(reply: Option<&[u8]>) -> (r: Option<bool>)
    ensures
        match reply {
            None => r == Some(false),
            Some(b) => if decode_spec(b@) is Ok {
                r == Some(true)
            } else {
                r is None
            },
        },
{
    match reply {
        None => Some(false),
        Some(b) => if is_serialized_message(b) {
            Some(true)
        } else {
            None
        },
    }
}

/// The file a received image is stored in, named after the time of arrival.
pub fn image_file_name(timestamp: &str) -> (r: String)
    ensures
        r@ == "received_"@ + timestamp@ + ".jpg"@,
{
    let mut out: Vec<char> = Vec::new();
    push_str(&mut out, "received_");
    push_str(&mut out, timestamp);
    push_str(&mut out, ".jpg");
    string_from_chars(out.as_slice())
}

} // verus!
