//! Leader election by the bully algorithm. A server that finds the leader
//! dead asks each higher server, in turn, whether it is alive. When none
//! answers, it takes the lead and announces itself to every other server;
//! otherwise the highest server that answered leads.

use vstd::prelude::*;
use crate::wire::{ServerMessage, MessageView};
use crate::peers::{BROADCAST_QUESTION, LEADER_ANNOUNCEMENT};

verus! {

/// The leader chosen by server `my` once the servers `my + 1 .. upto` have
/// been asked, `answered` telling which of them answered: the highest one
/// that answered, or `my` itself when none did.
pub open spec fn bully_winner(my: int, upto: int, answered: Map<int, bool>) -> int
    decreases upto - my,
{
    if upto <= my + 1 {
        my
    } else if answered.contains_key(upto - 1) && answered[upto - 1] {
        upto - 1
    } else {
        bully_winner(my, upto - 1, answered)
    }
}

/// An election run by server `my_index` among servers `0 .. server_count`.
pub struct Election {
    pub my_index: i32,
    pub server_count: i32,
    /// The next server to ask.
    pub next: i32,
    /// The leader so far.
    pub leader: i32,
    /// Which of the servers asked so far answered.
    pub answers: Ghost<Map<int, bool>>,
}

/// A message from `my_index` with no client and no data.
pub open spec fn bare_message(my_index: i32, kind: i32) -> MessageView {
    MessageView {
        sender: my_index,
        client: Seq::empty(),
        data: Seq::empty(),
        cur_leader: my_index,
        msg_type: kind,
    }
}

fn bare(my_index: i32, kind: i32) -> (m: ServerMessage)
    ensures
        m@ == bare_message(my_index, kind),
{
    let m = ServerMessage {
        sender: my_index,
        client: String::new(),
        data: Vec::new(),
        cur_leader: my_index,
        msg_type: kind,
    };
    assert(m@.client =~= Seq::<char>::empty());
    assert(m@.data =~= Seq::<u8>::empty());
    m
}

impl Election {
    /// Every server between this one and `next` has been asked, and `leader`
    /// is the bully winner over their answers.
    pub open spec fn consistent(&self) -> bool {
        &&& 0 <= self.my_index < self.next <= self.server_count
        &&& forall|j: int| self.my_index < j < self.next ==> #[trigger] self.answers@.contains_key(j)
        &&& self.leader == bully_winner(self.my_index as int, self.next as int, self.answers@)
    }

    /// Begins an election by `my_index` among `server_count` servers.
    pub fn start(my_index: i32, server_count: i32) -> (e: Self)
        requires
            0 <= my_index < server_count,
        ensures
            e.my_index == my_index,
            e.server_count == server_count,
            e.next == my_index + 1,
            e.leader == my_index,
            e.answers@ == Map::<int, bool>::empty(),
            e.consistent(),
    {
        Election {
            my_index,
            server_count,
            next: my_index + 1,
            leader: my_index,
            answers: Ghost(Map::empty()),
        }
    }

    /// The question sent to each higher server: are you alive?
    pub fn question(&self) -> (m: ServerMessage)
        ensures
            m@ == bare_message(self.my_index, BROADCAST_QUESTION),
    {
        bare(self.my_index, BROADCAST_QUESTION)
    }

    /// The announcement a winner sends to every other server.
    pub fn announcement(&self) -> (m: ServerMessage)
        ensures
            m@ == bare_message(self.my_index, LEADER_ANNOUNCEMENT),
    {
        bare(self.my_index, LEADER_ANNOUNCEMENT)
    }

    /// The next higher server to ask, or `None` when all have been asked.
    pub fn next_peer(&self) -> (r: Option<i32>)
        ensures
            r == (if self.next < self.server_count {
                Some(self.next)
            } else {
                None::<i32>
            }),
    {
        if self.next < self.server_count {
            Some(self.next)
        } else {
            None
        }
    }

    /// Records whether the server just asked (`next`) answered.
    pub fn record_answer(&mut self, answered: bool)
        requires
            old(self).consistent(),
            old(self).next < old(self).server_count,
        ensures
            final(self).consistent(),
            final(self).my_index == old(self).my_index,
            final(self).server_count == old(self).server_count,
            final(self).next == old(self).next + 1,
            final(self).answers@ == old(self).answers@.insert(old(self).next as int, answered),
            final(self).leader == (if answered {
                old(self).next
            } else {
                old(self).leader
            }),
    {
        let ghost asked = self.next as int;
        self.answers = Ghost(self.answers@.insert(asked, answered));
        if answered {
            self.leader = self.next;
        }
        self.next = self.next + 1;
        proof {
            lemma_winner_ignores_later(
                self.my_index as int,
                asked,
                old(self).answers@,
                self.answers@,
            );
        }
    }

    /// The servers the announcement goes to: every server but this one, in
    /// ascending order.
    pub fn announce_to(&self) -> (v: Vec<i32>)
        requires
            0 <= self.my_index < self.server_count,
        ensures
            v@.len() == self.server_count - 1,
            forall|k: int| 0 <= k < v@.len() ==> #[trigger] v@[k] == (if k < self.my_index {
                k
            } else {
                k + 1
            }),
    {
        let mut v: Vec<i32> = Vec::new();
        let mut j: i32 = 0;
        while j < self.server_count
            invariant
                0 <= self.my_index < self.server_count,
                0 <= j <= self.server_count,
                v@.len() == (if j <= self.my_index { j as int } else { j - 1 }),
                forall|k: int| 0 <= k < v@.len() ==> #[trigger] v@[k] == (if k < self.my_index {
                    k
                } else {
                    k + 1
                }),
            decreases self.server_count - j,
        {
            if j != self.my_index {
                v.push(j);
            }
            j = j + 1;
        }
        v
    }

    /// Whether this server takes the lead: no higher server answered.
    pub fn takes_lead(&self) -> (r: bool)
        ensures
            r == (self.leader == self.my_index),
    {
        self.leader == self.my_index
    }
}

proof fn lemma_winner_ignores_later(my: int, upto: int, a: Map<int, bool>, b: Map<int, bool>)
    requires
        forall|j: int| my < j < upto ==> (#[trigger] a.contains_key(j)) == b.contains_key(j)
            && (a.contains_key(j) ==> a[j] == b[j]),
    ensures
        bully_winner(my, upto, a) == bully_winner(my, upto, b),
    decreases upto - my,
{
    if upto > my + 1 {
        assert(a.contains_key(upto - 1) == b.contains_key(upto - 1));
        lemma_winner_ignores_later(my, upto - 1, a, b);
    }
}

/// The winner is `my` or the highest answering server below `upto`.
proof fn lemma_winner_is_highest_answer(my: int, upto: int, ans: Map<int, bool>)
    ensures
        bully_winner(my, upto, ans) == my || (my < bully_winner(my, upto, ans) < upto
            && ans.contains_key(bully_winner(my, upto, ans)) && ans[bully_winner(my, upto, ans)]),
        forall|j: int|
            my < j < upto && bully_winner(my, upto, ans) < j ==> !(#[trigger] ans.contains_key(j)
                && ans[j]),
        bully_winner(my, upto, ans) >= my,
    decreases upto - my,
{
    if upto > my + 1 {
        lemma_winner_is_highest_answer(my, upto - 1, ans);
    }
}

/// Law (bully): when every server in `alive` (all below `n`) answers and no
/// other server does, the election run by any live server `i` ends with the
/// highest live server as leader, and `i` takes the lead exactly when it is
/// that server.
pub proof fn lemma_highest_live_server_leads(i: int, n: int, alive: Set<int>, ans: Map<int, bool>)
    requires
        alive.contains(i),
        forall|j: int| #[trigger] alive.contains(j) ==> 0 <= j < n,
        forall|j: int| i < j < n ==> #[trigger] ans.contains_key(j) && ans[j] == alive.contains(j),
    ensures
        alive.contains(bully_winner(i, n, ans)),
        forall|j: int| #[trigger] alive.contains(j) ==> j <= bully_winner(i, n, ans),
        (bully_winner(i, n, ans) == i) == (forall|j: int| #[trigger] alive.contains(j) ==> j <= i),
{
    lemma_winner_is_highest_answer(i, n, ans);
    let w = bully_winner(i, n, ans);
    assert forall|j: int| #[trigger] alive.contains(j) implies j <= w by {
        if j > w && j > i {
            assert(ans.contains_key(j) && ans[j]);
        }
    }
    if w != i {
        assert(ans[w] == alive.contains(w));
    }
}

} // verus!
