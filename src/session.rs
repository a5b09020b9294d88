use crate::request::{concatenate_parts, merged, parts_view, Chat, ChatView, Part, PartView, Role};
use std::collections::VecDeque;
use vstd::prelude::*;
use vstd::string::StringExecFns;

verus! {

/// The mathematical value of a [`Session`].
pub struct SessionView {
    /// The stored turns, oldest first.
    pub turns: Seq<ChatView>,
    /// The most turns that are kept.
    pub limit: nat,
    /// How many turns were ever appended as new turns.
    pub chat_no: nat,
    /// Whether the next reply is kept.
    pub remember_reply: bool,
}

/// No two neighbouring turns share a speaker.
pub open spec fn speakers_alternate(turns: Seq<ChatView>) -> bool {
    forall|i: int, j: int|
        0 <= i && j == i + 1 && j < turns.len() ==> (#[trigger] turns[i]).role != (
        #[trigger] turns[j]).role
}

impl SessionView {
    /// The history's invariant: it holds at most `limit` turns, with speakers alternating.
    pub open spec fn wf(self) -> bool {
        &&& self.turns.len() <= self.limit
        &&& speakers_alternate(self.turns)
    }

    /// The merge-or-append rule: a turn of the last turn's speaker is merged into it;
    /// any other is appended, counted, and the oldest turn is dropped if the limit is passed.
    pub open spec fn add(self, chat: ChatView) -> SessionView {
        let n = self.turns.len();
        if n > 0 && self.turns[n - 1].role == chat.role {
            SessionView {
                turns: self.turns.update(
                    n - 1,
                    ChatView { role: chat.role, parts: merged(self.turns[n - 1].parts, chat.parts) },
                ),
                ..self
            }
        } else {
            let t = self.turns.push(chat);
            SessionView {
                turns: if t.len() > self.limit {
                    t.drop_first()
                } else {
                    t
                },
                chat_no: self.chat_no + 1,
                ..self
            }
        }
    }

    /// The history without its last turn, and without the turn before it too when that one is
    /// the user's.
    pub open spec fn forget_last(self) -> SessionView {
        let t = if self.turns.len() > 0 {
            self.turns.drop_last()
        } else {
            self.turns
        };
        SessionView {
            turns: if t.len() > 0 && t.last().role == Role::user {
                t.drop_last()
            } else {
                t
            },
            ..self
        }
    }
}

/// The text fragments of `parts`, each followed by `sep`.
pub open spec fn texts_joined(parts: Seq<PartView>, sep: Seq<char>) -> Seq<char>
    decreases parts.len(),
{
    if parts.len() == 0 {
        seq![]
    } else {
        texts_joined(parts.drop_last(), sep) + match parts.last() {
            PartView::Text(t) => t + sep,
            _ => seq![],
        }
    }
}

/// A bounded conversation history that merges consecutive turns of one speaker.
#[derive(Debug, Clone)]
pub struct Session {
    history: VecDeque<Chat>,
    history_limit: usize,
    chat_no: usize,
    remember_reply: bool,
}

impl View for Session {
    type V = SessionView;

    closed spec fn view(&self) -> SessionView {
        SessionView {
            turns: self.history@.map_values(|c: Chat| c@),
            limit: self.history_limit as nat,
            chat_no: self.chat_no as nat,
            remember_reply: self.remember_reply,
        }
    }
}

/// Relies on `VecDeque::get_mut`: a mutable reference to the element at `i`, or `None` when
/// `i` is out of bounds.
#[verifier::external_body]
fn deque_get_mut<T>(d: &mut VecDeque<T>, i: usize) -> (r: Option<&mut T>)
    ensures
        r.is_some() == (i < old(d)@.len()),
        r.is_none() ==> final(d)@ == old(d)@,
        r.is_some() ==> *r.unwrap() == old(d)@[i as int] && final(d)@ == old(d)@.update(
            i as int,
            *final(r.unwrap()),
        ),
{
    d.get_mut(i)
}

/// Whatever turn is added, the history keeps its speakers alternating and holds at most
/// `limit` turns.
pub proof fn lemma_add_keeps_wf(s: SessionView, chat: ChatView)
    requires
        s.wf(),
    ensures
        s.add(chat).wf(),
        speakers_alternate(s.add(chat).turns),
        s.add(chat).turns.len() <= s.limit,
{
    let n = s.turns.len();
    if n > 0 && s.turns[n - 1].role == chat.role {
        let t = s.add(chat).turns;
        assert forall|i: int, j: int| 0 <= i && j == i + 1 && j < t.len() implies (
        #[trigger] t[i]).role != (#[trigger] t[j]).role by {
            assert(s.turns[i].role != s.turns[j].role);
        }
    } else {
        let t = s.turns.push(chat);
        assert forall|i: int, j: int| 0 <= i && j == i + 1 && j < t.len() implies (
        #[trigger] t[i]).role != (#[trigger] t[j]).role by {
            if j < t.len() - 1 {
                assert(s.turns[i].role != s.turns[j].role);
            }
        }
        if t.len() > s.limit {
            let u = t.drop_first();
            assert forall|i: int, j: int| 0 <= i && j == i + 1 && j < u.len() implies (
            #[trigger] u[i]).role != (#[trigger] u[j]).role by {
                assert(t[i + 1].role != t[j + 1].role);
            }
        }
    }
}

impl Session {
    /// An empty history that keeps at most `history_limit` turns of user and model together;
    /// `new(2)` keeps one question and one reply.
    pub fn new(history_limit: usize) -> (r: Session)
        ensures
            r@.turns == Seq::<ChatView>::empty(),
            r@.limit == history_limit,
            r@.chat_no == 0,
            r@.remember_reply,
            r@.wf(),
    {
        let r = Session {
            history: VecDeque::new(),
            history_limit,
            chat_no: 0,
            remember_reply: true,
        };
        assert(r@.turns =~= Seq::<ChatView>::empty());
        r
    }

    pub fn set_remember_reply(&mut self, remember: bool) -> (r: &mut Self)
        ensures
            r@ == (SessionView { remember_reply: remember, ..old(self)@ }),
            *final(self) == *final(r),
    {
        self.remember_reply = remember;
        self
    }

    pub fn get_history_limit(&self) -> (r: usize)
        ensures
            r == self@.limit,
    {
        self.history_limit
    }

    pub fn get_history_as_vecdeque(&self) -> (r: &VecDeque<Chat>)
        ensures
            r@.map_values(|c: Chat| c@) == self@.turns,
    {
        &self.history
    }

    /// How many turns of user and model were appended; half of it is the number of exchanges.
    pub fn get_chat_no(&self) -> (r: usize)
        ensures
            r == self@.chat_no,
    {
        self.chat_no
    }

    pub fn get_history_length(&self) -> (r: usize)
        ensures
            r == self@.turns.len(),
    {
        self.history.len()
    }

    pub fn get_remember_reply(&self) -> (r: bool)
        ensures
            r == self@.remember_reply,
    {
        self.remember_reply
    }

    /// Stores `chat` by the merge-or-append rule of [`SessionView::add`].
    fn add_chat(&mut self, chat: Chat)
        requires
            old(self)@.wf(),
            old(self)@.chat_no < usize::MAX,
        ensures
            final(self)@ == old(self)@.add(chat@),
            final(self)@.wf(),
    {
        let ghost pre = self@;
        proof {
            lemma_add_keeps_wf(pre, chat@);
        }
        let n = self.history.len();
        if n > 0 && self.history[n - 1].role == chat.role {
            let mut last = self.history.pop_back().unwrap();
            concatenate_parts(&mut last.parts, chat.parts);
            self.history.push_back(last);
            assert(self@.turns =~= pre.add(chat@).turns);
        } else {
            self.history.push_back(chat);
            self.chat_no = self.chat_no + 1;
            assert(self@.turns =~= pre.turns.push(chat@));
            if self.history.len() > self.history_limit {
                self.history.pop_front();
                assert(self@.turns =~= pre.turns.push(chat@).drop_first());
            }
        }
    }

    /// Adds a user turn; a second user turn in a row is merged into the first.
    pub fn ask(&mut self, parts: Vec<Part>) -> (r: &mut Self)
        requires
            old(self)@.wf(),
            old(self)@.chat_no < usize::MAX,
        ensures
            r@ == old(self)@.add(ChatView { role: Role::user, parts: parts_view(parts@) }),
            r@.wf(),
            *final(self) == *final(r),
    {
        self.add_chat(Chat::new(Role::user, parts));
        self
    }

    /// Adds a user turn of one text fragment; merged like [`Session::ask`].
    pub fn ask_string(&mut self, prompt: String) -> (r: &mut Self)
        requires
            old(self)@.wf(),
            old(self)@.chat_no < usize::MAX,
        ensures
            r@ == old(self)@.add(
                ChatView { role: Role::user, parts: seq![PartView::Text(prompt@)] },
            ),
            r@.wf(),
            *final(self) == *final(r),
    {
        let mut parts: Vec<Part> = Vec::new();
        parts.push(Part::text(prompt));
        assert(parts_view(parts@) =~= seq![PartView::Text(prompt@)]);
        self.add_chat(Chat::new(Role::user, parts));
        self
    }

    /// Adds a model turn; a second model turn in a row is merged into the first.
    pub fn reply(&mut self, parts: Vec<Part>) -> (r: &mut Self)
        requires
            old(self)@.wf(),
            old(self)@.chat_no < usize::MAX,
        ensures
            r@ == old(self)@.add(ChatView { role: Role::model, parts: parts_view(parts@) }),
            r@.wf(),
            *final(self) == *final(r),
    {
        self.add_chat(Chat::new(Role::model, parts));
        self
    }

    /// Adds a model turn of one text fragment; merged like [`Session::reply`].
    pub fn reply_string(&mut self, prompt: String) -> (r: &mut Self)
        requires
            old(self)@.wf(),
            old(self)@.chat_no < usize::MAX,
        ensures
            r@ == old(self)@.add(
                ChatView { role: Role::model, parts: seq![PartView::Text(prompt@)] },
            ),
            r@.wf(),
            *final(self) == *final(r),
    {
        let mut parts: Vec<Part> = Vec::new();
        parts.push(Part::text(prompt));
        assert(parts_view(parts@) =~= seq![PartView::Text(prompt@)]);
        self.add_chat(Chat::new(Role::model, parts));
        self
    }

    /// Takes in the remote reply. When replies are remembered it is added as a model turn and
    /// the fragments of the last stored turn, the reply merged with any model turn before it,
    /// come back. Otherwise the last turn is dropped, undoing the question that was asked, and
    /// `None` comes back.
    pub fn update(&mut self, reply_parts: Vec<Part>) -> (r: Option<&Vec<Part>>)
        requires
            old(self)@.wf(),
            old(self)@.chat_no < usize::MAX,
        ensures
            r.is_some() == (old(self)@.remember_reply && final(self)@.turns.len() > 0),
            r.is_some() ==> parts_view(r.unwrap()@) == final(self)@.turns.last().parts,
            old(self)@.remember_reply ==> final(self)@ == old(self)@.add(
                ChatView { role: Role::model, parts: parts_view(reply_parts@) },
            ),
            !old(self)@.remember_reply ==> final(self)@ == (SessionView {
                turns: if old(self)@.turns.len() > 0 {
                    old(self)@.turns.drop_last()
                } else {
                    old(self)@.turns
                },
                ..old(self)@
            }),
            final(self)@.wf(),
    {
        if self.remember_reply {
            self.add_chat(Chat::new(Role::model, reply_parts));
            let n = self.history.len();
            if n > 0 {
                Some(&self.history[n - 1].parts)
            } else {
                None
            }
        } else {
            let ghost pre = self@;
            self.history.pop_back();
            proof {
                if pre.turns.len() > 0 {
                    assert(self@.turns =~= pre.turns.drop_last());
                    assert forall|i: int, j: int|
                        0 <= i && j == i + 1 && j < self@.turns.len() implies (
                    #[trigger] self@.turns[i]).role != (#[trigger] self@.turns[j]).role by {
                        assert(pre.turns[i].role != pre.turns[j].role);
                    }
                }
            }
            None
        }
    }

    /// Removes the last turn, and then the user's turn before it, if there is one; a dangling
    /// question alone is removed by itself.
    pub fn forget_last_conversation(&mut self) -> (r: &mut Self)
        requires
            old(self)@.wf(),
        ensures
            r@ == old(self)@.forget_last(),
            r@.wf(),
            *final(self) == *final(r),
    {
        let ghost pre = self@;
        self.history.pop_back();
        let ghost mid = self@;
        proof {
            if pre.turns.len() > 0 {
                assert(mid.turns =~= pre.turns.drop_last());
            }
        }
        let n = self.history.len();
        if n > 0 && self.history[n - 1].role == Role::user {
            self.history.pop_back();
            proof {
                assert(self@.turns =~= mid.turns.drop_last());
            }
        }
        proof {
            assert forall|i: int, j: int| 0 <= i && j == i + 1 && j < self@.turns.len() implies (
            #[trigger] self@.turns[i]).role != (#[trigger] self@.turns[j]).role by {
                assert(pre.turns[i].role != pre.turns[j].role);
            }
        }
        self
    }

    /// The fragments of the last turn, if there is one.
    pub fn get_last_message(&self) -> (r: Option<&Vec<Part>>)
        ensures
            r.is_some() == (self@.turns.len() > 0),
            r.is_some() ==> parts_view(r.unwrap()@) == self@.turns.last().parts,
    {
        let n = self.history.len();
        if n > 0 {
            Some(&self.history[n - 1].parts)
        } else {
            None
        }
    }

    /// The text fragments of the last turn, each followed by `seperator`; `None` when the
    /// history is empty.
    pub fn get_last_message_text(&self, seperator: &str) -> (r: Option<String>)
        ensures
            r.is_some() == (self@.turns.len() > 0),
            r.is_some() ==> r.unwrap()@ == texts_joined(self@.turns.last().parts, seperator@),
    {
        match self.get_last_message() {
            Some(parts) => {
                let mut concatenated_string = String::new();
                let mut i: usize = 0;
                while i < parts.len()
                    invariant
                        i <= parts@.len(),
                        concatenated_string@ == texts_joined(
                            parts_view(parts@.subrange(0, i as int)),
                            seperator@,
                        ),
                    decreases parts@.len() - i,
                {
                    proof {
                        assert(parts_view(parts@.subrange(0, i + 1)).drop_last() =~= parts_view(
                            parts@.subrange(0, i as int),
                        ));
                    }
                    match &parts[i] {
                        Part::text(text) => {
                            concatenated_string.append(text.as_str());
                            concatenated_string.append(seperator);
                        },
                        _ => {},
                    }
                    i = i + 1;
                }
                assert(parts@.subrange(0, i as int) =~= parts@);
                Some(concatenated_string)
            },
            None => None,
        }
    }

    /// The fragments of the `chat_previous_no`-th turn from the end, for changing in place:
    /// 1 is the last turn, 2 the one before it. `None` when there is no such turn.
    pub fn get_parts_mut(&mut self, chat_previous_no: usize) -> (r: Option<&mut Vec<Part>>)
        ensures
            r.is_some() == (1 <= chat_previous_no <= old(self)@.turns.len()),
            r.is_none() ==> final(self)@ == old(self)@,
            r.is_some() ==> {
                let k = old(self)@.turns.len() - chat_previous_no;
                &&& parts_view(r.unwrap()@) == old(self)@.turns[k].parts
                &&& final(self)@.turns.len() == old(self)@.turns.len()
                &&& final(self)@.turns[k] == (ChatView {
                    role: old(self)@.turns[k].role,
                    parts: parts_view(final(r.unwrap())@),
                })
                &&& forall|j: int|
                    0 <= j < old(self)@.turns.len() && j != k ==> #[trigger] final(self)@.turns[j]
                        == old(self)@.turns[j]
                &&& final(self)@.limit == old(self)@.limit
                &&& final(self)@.chat_no == old(self)@.chat_no
                &&& final(self)@.remember_reply == old(self)@.remember_reply
            },
    {
        let n = self.history.len();
        if 1 <= chat_previous_no && chat_previous_no <= n {
            let chat = deque_get_mut(&mut self.history, n - chat_previous_no).unwrap();
            Some(&mut chat.parts)
        } else {
            None
        }
    }

    /// The fragments of the last turn, for changing in place; `None` when the history is empty.
    pub fn get_last_message_mut(&mut self) -> (r: Option<&mut Vec<Part>>)
        ensures
            r.is_some() == (old(self)@.turns.len() > 0),
            r.is_none() ==> final(self)@ == old(self)@,
            r.is_some() ==> {
                let k = old(self)@.turns.len() - 1;
                &&& parts_view(r.unwrap()@) == old(self)@.turns[k].parts
                &&& final(self)@.turns.len() == old(self)@.turns.len()
                &&& final(self)@.turns[k] == (ChatView {
                    role: old(self)@.turns[k].role,
                    parts: parts_view(final(r.unwrap())@),
                })
                &&& forall|j: int|
                    0 <= j < k ==> #[trigger] final(self)@.turns[j] == old(self)@.turns[j]
                &&& final(self)@.limit == old(self)@.limit
                &&& final(self)@.chat_no == old(self)@.chat_no
                &&& final(self)@.remember_reply == old(self)@.remember_reply
            },
    {
        self.get_parts_mut(1)
    }

    /// The stored turns, oldest first.
    pub fn get_history(&self) -> (r: Vec<&Chat>)
        ensures
            r@.len() == self@.turns.len(),
            forall|i: int| 0 <= i < r@.len() ==> (#[trigger] r@[i])@ == self@.turns[i],
    {
        let mut r: Vec<&Chat> = Vec::new();
        let mut i: usize = 0;
        while i < self.history.len()
            invariant
                i <= self@.turns.len(),
                r@.len() == i,
                forall|j: int| 0 <= j < i ==> (#[trigger] r@[j])@ == self@.turns[j],
            decreases self@.turns.len() - i,
        {
            r.push(&self.history[i]);
            i = i + 1;
        }
        r
    }
}

impl Default for Session {
    /// An empty history that keeps no turn and does not remember replies.
    fn default() -> (r: Session)
        ensures
            r@.turns == Seq::<ChatView>::empty(),
            r@.limit == 0,
            r@.chat_no == 0,
            !r@.remember_reply,
    {
        let r = Session {
            history: VecDeque::new(),
            history_limit: 0,
            chat_no: 0,
            remember_reply: false,
        };
        assert(r@.turns =~= Seq::<ChatView>::empty());
        r
    }
}

impl Session {
    /// A history rebuilt from stored turns; `None` when they break the invariant, by holding
    /// more than `history_limit` turns or two neighbouring turns of one speaker.
    pub fn from_history(
        history: VecDeque<Chat>,
        history_limit: usize,
        chat_no: usize,
        remember_reply: bool,
    ) -> (r: Option<Session>)
        ensures
            r.is_some() == (history@.len() <= history_limit && speakers_alternate(
                history@.map_values(|c: Chat| c@),
            )),
            r.is_some() ==> r.unwrap()@ == (SessionView {
                turns: history@.map_values(|c: Chat| c@),
                limit: history_limit as nat,
                chat_no: chat_no as nat,
                remember_reply,
            }),
    {
        let ghost turns = history@.map_values(|c: Chat| c@);
        let n = history.len();
        if n > history_limit {
            return None;
        }
        let mut i: usize = 1;
        while i < n
            invariant
                1 <= i,
                n == history@.len(),
                turns == history@.map_values(|c: Chat| c@),
                forall|a: int, b: int|
                    0 <= a && b == a + 1 && b < i && b < n ==> (#[trigger] turns[a]).role != (
                    #[trigger] turns[b]).role,
            decreases n - i,
        {
            if history[i - 1].role == history[i].role {
                assert(turns[i - 1].role == turns[i as int].role);
                return None;
            }
            i = i + 1;
        }
        Some(Session { history, history_limit, chat_no, remember_reply })
    }
}

} // verus!