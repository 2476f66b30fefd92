use vstd::prelude::*;

use crate::text::str_eq;

verus! {

// ---------------------------------------------------------------------------
// Ping and pong.
// ---------------------------------------------------------------------------

/// One step of a ping connection: from whether the game is on and the text of
/// the next message, whether the game is on afterwards and whether to answer
/// `pong`. The game starts with `serve`; from then on each `ping` is answered.
pub open spec fn ping_transition(serving: bool, text: Seq<char>) -> (bool, bool) {
    let on = serving || text == "serve"@;
    (on, on && text == "ping"@)
}

/// Handles one text message of a ping connection.
pub fn ping_step(serving: bool, text: &str) -> (res: (bool, bool))
    ensures
        res == ping_transition(serving, text@),
{
    let on = serving || str_eq(text, "serve");
    let pong = on && str_eq(text, "ping");
    (on, pong)
}

/// The answers to a sequence of text messages, starting with the game off:
/// for each message whether `pong` is sent back.
pub open spec fn ping_answers(msgs: Seq<Seq<char>>) -> Seq<bool>
    decreases msgs.len(),
{
    if msgs.len() == 0 {
        Seq::empty()
    } else {
        ping_answers(msgs.drop_last()).push(
            ping_transition(ping_serving(msgs.drop_last()), msgs.last()).1,
        )
    }
}

/// Whether the game is on after a sequence of messages.
pub open spec fn ping_serving(msgs: Seq<Seq<char>>) -> bool
    decreases msgs.len(),
{
    if msgs.len() == 0 {
        false
    } else {
        ping_transition(ping_serving(msgs.drop_last()), msgs.last()).0
    }
}

/// A `ping` is answered exactly when a `serve` came before it.
pub proof fn lemma_ping_answered_after_serve(msgs: Seq<Seq<char>>)
    ensures
        ping_answers(msgs).len() == msgs.len(),
        ping_serving(msgs) == exists|j: int| 0 <= j < msgs.len() && #[trigger] msgs[j] == "serve"@,
        forall|i: int|
            0 <= i < msgs.len() ==> (#[trigger] ping_answers(msgs)[i] == (msgs[i] == "ping"@
                && exists|j: int| 0 <= j < i && #[trigger] msgs[j] == "serve"@)),
    decreases msgs.len(),
{
    reveal_strlit("ping");
    reveal_strlit("serve");
    if msgs.len() > 0 {
        let prev = msgs.drop_last();
        lemma_ping_answered_after_serve(prev);
        assert("ping"@ != "serve"@) by {
            assert("ping"@[0] != "serve"@[0]);
        }
        let n = msgs.len() - 1;
        assert forall|i: int| 0 <= i < msgs.len() implies (#[trigger] ping_answers(msgs)[i] == (
        msgs[i] == "ping"@ && exists|j: int| 0 <= j < i && #[trigger] msgs[j] == "serve"@)) by {
            if i < n {
                assert(ping_answers(msgs)[i] == ping_answers(prev)[i]);
                assert(prev[i] == msgs[i]);
                if exists|j: int| 0 <= j < i && #[trigger] msgs[j] == "serve"@ {
                    let j = choose|j: int| 0 <= j < i && #[trigger] msgs[j] == "serve"@;
                    assert(prev[j] == msgs[j]);
                }
                if exists|j: int| 0 <= j < i && #[trigger] prev[j] == "serve"@ {
                    let j = choose|j: int| 0 <= j < i && #[trigger] prev[j] == "serve"@;
                    assert(prev[j] == msgs[j]);
                }
            } else {
                if exists|j: int| 0 <= j < i && #[trigger] msgs[j] == "serve"@ {
                    let j = choose|j: int| 0 <= j < i && #[trigger] msgs[j] == "serve"@;
                    assert(prev[j] == msgs[j]);
                }
                if exists|j: int| 0 <= j < prev.len() && #[trigger] prev[j] == "serve"@ {
                    let j = choose|j: int| 0 <= j < prev.len() && #[trigger] prev[j] == "serve"@;
                    assert(prev[j] == msgs[j]);
                }
            }
        }
        if exists|j: int| 0 <= j < msgs.len() && #[trigger] msgs[j] == "serve"@ {
            let j = choose|j: int| 0 <= j < msgs.len() && #[trigger] msgs[j] == "serve"@;
            if j < n {
                assert(prev[j] == msgs[j]);
            }
        }
        if exists|j: int| 0 <= j < prev.len() && #[trigger] prev[j] == "serve"@ {
            let j = choose|j: int| 0 <= j < prev.len() && #[trigger] prev[j] == "serve"@;
            assert(prev[j] == msgs[j]);
        }
    }
}

// ---------------------------------------------------------------------------
// Chat rooms.
// ---------------------------------------------------------------------------

/// The users present in one chat room; no name occurs twice.
pub struct RoomState {
    users: Vec<String>,
}

impl View for RoomState {
    type V = Set<Seq<char>>;

    closed spec fn view(&self) -> Set<Seq<char>> {
        Set::new(|u: Seq<char>| exists|i: int| 0 <= i < self.users@.len() && #[trigger] self.users@[i]@ == u)
    }
}

impl RoomState {
    #[verifier::type_invariant]
    spec fn names_distinct(self) -> bool {
        forall|i: int, j: int|
            0 <= i < j < self.users@.len() ==> #[trigger] self.users@[i]@ != #[trigger] self.users@[j]@
    }

    /// An empty room.
    pub fn new() -> (room: RoomState)
        ensures
            room@ == Set::<Seq<char>>::empty(),
    {
        let room = RoomState { users: Vec::new() };
        assert(room@ =~= Set::<Seq<char>>::empty());
        room
    }

    fn position(&self, user: &str) -> (res: Option<usize>)
        ensures
            match res {
                Some(i) => i < self.users@.len() && self.users@[i as int]@ == user@,
                None => forall|i: int| 0 <= i < self.users@.len() ==> #[trigger] self.users@[i]@ != user@,
            },
    {
        let mut i: usize = 0;
        while i < self.users.len()
            invariant
                i <= self.users@.len(),
                forall|j: int| 0 <= j < i ==> #[trigger] self.users@[j]@ != user@,
            decreases self.users@.len() - i,
        {
            if str_eq(self.users[i].as_str(), user) {
                return Some(i);
            }
            i = i + 1;
        }
        None
    }

    /// Whether `user` is in the room.
    pub fn contains(&self, user: &str) -> (res: bool)
        ensures
            res == self@.contains(user@),
    {
        match self.position(user) {
            Some(i) => {
                assert(self@.contains(user@));
                true
            },
            None => false,
        }
    }

    /// Lets `user` in unless the name is taken; tells whether it was let in.
    pub fn join(&mut self, user: &str) -> (joined: bool)
        ensures
            joined == !old(self)@.contains(user@),
            final(self)@ == old(self)@.insert(user@),
    {
        proof {
            use_type_invariant(&*self);
        }
        match self.position(user) {
            Some(i) => {
                assert(self@.contains(user@));
                assert(self@.insert(user@) =~= self@);
                false
            },
            None => {
                let ghost old_view = self@;
                assert(!old_view.contains(user@));
                let mut users: Vec<String> = Vec::new();
                std::mem::swap(&mut users, &mut self.users);
                let ghost before = users@;
                users.push(user.to_owned());
                assert forall|a: int, b: int|
                    0 <= a < b < users@.len() implies #[trigger] users@[a]@ != #[trigger] users@[b]@ by {
                    if b < before.len() {
                        assert(users@[a] == before[a] && users@[b] == before[b]);
                    } else {
                        assert(users@[a] == before[a]);
                    }
                }
                self.users = users;
                assert(self@ =~= old_view.insert(user@)) by {
                    assert forall|u: Seq<char>| #[trigger] self@.contains(u) <==> old_view.insert(user@).contains(u) by {
                        if old_view.contains(u) {
                            let i = choose|i: int| 0 <= i < before.len() && #[trigger] before[i]@ == u;
                            assert(self.users@[i] == before[i]);
                        }
                        if self@.contains(u) {
                            let i = choose|i: int| 0 <= i < self.users@.len() && #[trigger] self.users@[i]@ == u;
                            if i < before.len() {
                                assert(self.users@[i] == before[i]);
                            }
                        }
                        if u == user@ {
                            assert(self.users@[before.len() as int]@ == u);
                        }
                    }
                }
                true
            },
        }
    }

    /// Lets `user` out of the room.
    pub fn leave(&mut self, user: &str)
        ensures
            final(self)@ == old(self)@.remove(user@),
    {
        proof {
            use_type_invariant(&*self);
        }
        match self.position(user) {
            None => {
                assert(self@.remove(user@) =~= self@);
            },
            Some(k) => {
                let ghost old_view = self@;
                let mut users: Vec<String> = Vec::new();
                std::mem::swap(&mut users, &mut self.users);
                let ghost before = users@;
                users.remove(k);
                assert forall|a: int, b: int|
                    0 <= a < b < users@.len() implies #[trigger] users@[a]@ != #[trigger] users@[b]@ by {
                    let oa = if a < k { a } else { a + 1 };
                    let ob = if b < k { b } else { b + 1 };
                    assert(users@[a] == before[oa] && users@[b] == before[ob]);
                }
                self.users = users;
                assert(self@ =~= old_view.remove(user@)) by {
                    assert forall|u: Seq<char>| #[trigger] self@.contains(u) <==> old_view.remove(user@).contains(u) by {
                        if self@.contains(u) {
                            let i = choose|i: int| 0 <= i < self.users@.len() && #[trigger] self.users@[i]@ == u;
                            let oi = if i < k { i } else { i + 1 };
                            assert(self.users@[i] == before[oi]);
                            assert(oi != k);
                        }
                        if old_view.remove(user@).contains(u) {
                            let i = choose|i: int| 0 <= i < before.len() && #[trigger] before[i]@ == u;
                            assert(i != k);
                            let ni = if i < k { i } else { i - 1 };
                            assert(self.users@[ni] == before[i]);
                        }
                    }
                }
            },
        }
    }
}

/// A user who joins a room that they were not in and then leaves it leaves
/// the room as it was; joining under a name that is taken changes nothing.
pub proof fn lemma_leave_undoes_join(room: Set<Seq<char>>, user: Seq<char>)
    ensures
        !room.contains(user) ==> room.insert(user).remove(user) == room,
        room.contains(user) ==> room.insert(user) == room,
{
    assert(!room.contains(user) ==> room.insert(user).remove(user) =~= room);
    assert(room.contains(user) ==> room.insert(user) =~= room);
}

/// Chat messages longer than 128 bytes are dropped.
pub open spec fn chat_message_fits(msg: Seq<char>) -> bool {
    vstd::utf8::encode_utf8(msg).len() <= 128
}

/// Whether a chat message is short enough to be passed on.
pub fn accepts_chat_message(msg: &str) -> (res: bool)
    ensures
        res == chat_message_fits(msg@),
{
    msg.as_bytes().len() <= 128
}

} // verus!
