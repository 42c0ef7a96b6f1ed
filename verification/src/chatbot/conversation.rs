//! What the chatbot remembers of each conversation.

use vstd::prelude::*;
use vstd::string::StringExecFns;
use crate::chatbot::entity::{entity_views, Entity, EntityView};
use crate::chatbot::intent::Intent;

verus! {

/// One exchange: what the user wrote, what was understood, what was replied.
#[derive(Debug)]
pub struct ConversationTurn {
    pub user_input: String,
    pub bot_response: String,
    pub intent: Intent,
    pub entities: Vec<Entity>,
}

/// A conversation: its exchanges in order, and what is known from them, as
/// values under keys in the order in which the keys first came up.
#[derive(Debug)]
pub struct ConversationContext {
    pub session_id: String,
    pub conversation_history: Vec<ConversationTurn>,
    pub context_data: Vec<(String, String)>,
}

/// An exchange with its texts as sequences of characters.
pub struct TurnView {
    pub user_input: Seq<char>,
    pub bot_response: Seq<char>,
    pub intent: Intent,
    pub entities: Seq<EntityView>,
}

/// A conversation with its texts as sequences of characters.
pub struct ContextView {
    pub session_id: Seq<char>,
    pub history: Seq<TurnView>,
    pub data: Seq<(Seq<char>, Seq<char>)>,
}

impl View for ConversationTurn {
    type V = TurnView;

    open spec fn view(&self) -> TurnView {
        TurnView {
            user_input: self.user_input@,
            bot_response: self.bot_response@,
            intent: self.intent,
            entities: entity_views(self.entities@),
        }
    }
}

impl View for ConversationContext {
    type V = ContextView;

    open spec fn view(&self) -> ContextView {
        ContextView {
            session_id: self.session_id@,
            history: Seq::new(
                self.conversation_history@.len(),
                |i: int| self.conversation_history@[i]@,
            ),
            data: Seq::new(
                self.context_data@.len(),
                |i: int| (self.context_data@[i].0@, self.context_data@[i].1@),
            ),
        }
    }
}

/// The values under their keys after `value` is put under `key`: in place of
/// the first value under that key, or at the end where the key is new.
pub open spec fn put(data: Seq<(Seq<char>, Seq<char>)>, key: Seq<char>, value: Seq<char>) -> Seq<
    (Seq<char>, Seq<char>),
>
    decreases data.len(),
{
    if data.len() == 0 {
        seq![(key, value)]
    } else if data[0].0 == key {
        data.update(0, (key, value))
    } else {
        seq![data[0]] + put(data.drop_first(), key, value)
    }
}

/// The first value under `key`, if there is one.
pub open spec fn lookup(data: Seq<(Seq<char>, Seq<char>)>, key: Seq<char>) -> Option<Seq<char>>
    decreases data.len(),
{
    if data.len() == 0 {
        None
    } else if data[0].0 == key {
        Some(data[0].1)
    } else {
        lookup(data.drop_first(), key)
    }
}

/// The index of the first conversation with the identifier `id`, if there is
/// one.
pub open spec fn position_of(sessions: Seq<ContextView>, id: Seq<char>) -> Option<int>
    decreases sessions.len(),
{
    if sessions.len() == 0 {
        None
    } else if sessions.last().session_id == id && position_of(sessions.drop_last(), id) is None {
        Some(sessions.len() - 1)
    } else {
        position_of(sessions.drop_last(), id)
    }
}

/// Where `position_of` finds a conversation, it is the first with that
/// identifier; where it finds none, there is none.
pub proof fn lemma_position_of(sessions: Seq<ContextView>, id: Seq<char>)
    ensures
        match position_of(sessions, id) {
            Some(at) => {
                &&& 0 <= at < sessions.len()
                &&& sessions[at].session_id == id
                &&& forall|i: int| 0 <= i < at ==> (#[trigger] sessions[i]).session_id != id
            },
            None => forall|i: int| 0 <= i < sessions.len() ==> (#[trigger] sessions[i]).session_id != id,
        },
    decreases sessions.len(),
{
    if sessions.len() > 0 {
        let front = sessions.drop_last();
        lemma_position_of(front, id);
        match position_of(front, id) {
            Some(at) => {
                assert(front[at] == sessions[at]);
                assert forall|i: int| 0 <= i < at implies (#[trigger] sessions[i]).session_id != id by {
                    assert(front[i] == sessions[i]);
                }
            },
            None => {
                assert forall|i: int| 0 <= i < sessions.len() - 1 implies (
                #[trigger] sessions[i]).session_id != id by {
                    assert(front[i] == sessions[i]);
                }
            },
        }
    }
}

impl ConversationContext {
    /// A conversation without exchanges.
    pub fn new(session_id: String) -> (context: Self)
        ensures
            context@ == (ContextView {
                session_id: session_id@,
                history: Seq::empty(),
                data: Seq::empty(),
            }),
    {
        let context = ConversationContext {
            session_id,
            conversation_history: Vec::new(),
            context_data: Vec::new(),
        };
        assert(context@.history =~= Seq::empty());
        assert(context@.data =~= Seq::empty());
        context
    }

    /// Puts `value` under `key`, in place of any earlier value under it.
    pub fn set_context(&mut self, key: String, value: String)
        ensures
            final(self)@.session_id == old(self)@.session_id,
            final(self)@.history == old(self)@.history,
            final(self)@.data == put(old(self)@.data, key@, value@),
    {
        let ghost before = self@.data;
        let mut i: usize = 0;
        proof {
            assert(before.skip(0) =~= before);
            assert(before.take(0) + put(before, key@, value@) =~= put(before, key@, value@));
        }
        while i < self.context_data.len()
            invariant
                i <= self.context_data@.len(),
                *self == *old(self),
                before == self@.data,
                put(before, key@, value@) == before.take(i as int) + put(
                    before.skip(i as int),
                    key@,
                    value@,
                ),
            decreases self.context_data@.len() - i,
        {
            proof {
                assert(before.skip(i as int)[0] == before[i as int]);
                assert(before.skip(i as int).drop_first() =~= before.skip(i + 1));
            }
            if self.context_data[i].0 == key {
                proof {
                    assert(before.take(i as int) + before.skip(i as int).update(0, (key@, value@))
                        =~= before.update(i as int, (key@, value@)));
                }
                self.context_data.set(i, (key, value));
                proof {
                    assert(self@.data =~= before.update(i as int, (key@, value@)));
                    assert(self@.history =~= old(self)@.history);
                }
                return ;
            }
            proof {
                assert(before.take(i as int) + (seq![before[i as int]] + put(
                    before.skip(i + 1),
                    key@,
                    value@,
                )) =~= before.take(i + 1) + put(before.skip(i + 1), key@, value@));
            }
            i = i + 1;
        }
        proof {
            assert(before.skip(i as int) =~= Seq::empty());
            assert(before.take(i as int) =~= before);
            assert(before + seq![(key@, value@)] =~= before.push((key@, value@)));
        }
        self.context_data.push((key, value));
        proof {
            assert(self@.data =~= before.push((key@, value@)));
            assert(self@.history =~= old(self)@.history);
        }
    }

    /// The value under `key`, if there is one.
    pub fn get_context(&self, key: &str) -> (value: Option<&String>)
        ensures
            match value {
                Some(text) => lookup(self@.data, key@) == Some(text@),
                None => lookup(self@.data, key@) is None,
            },
    {
        let ghost data = self@.data;
        let wanted: String = String::from_str(key);
        let mut i: usize = 0;
        proof {
            assert(data.skip(0) =~= data);
        }
        while i < self.context_data.len()
            invariant
                i <= self.context_data@.len(),
                data == self@.data,
                wanted@ == key@,
                lookup(data, key@) == lookup(data.skip(i as int), key@),
            decreases self.context_data@.len() - i,
        {
            proof {
                assert(data.skip(i as int)[0] == data[i as int]);
                assert(data.skip(i as int).drop_first() =~= data.skip(i + 1));
            }
            if self.context_data[i].0 == wanted {
                return Some(&self.context_data[i].1);
            }
            i = i + 1;
        }
        None
    }
}


/// The conversations of a chatbot, in the order in which they were opened.
pub struct ConversationManager {
    sessions: Vec<ConversationContext>,
}

impl View for ConversationManager {
    type V = Seq<ContextView>;

    closed spec fn view(&self) -> Seq<ContextView> {
        Seq::new(self.sessions@.len(), |i: int| self.sessions@[i]@)
    }
}

/// The conversations once the one with the identifier `id` is open: as they
/// were if it was open already, with a new one at the end otherwise.
pub open spec fn opened(sessions: Seq<ContextView>, id: Seq<char>) -> Seq<ContextView> {
    if position_of(sessions, id) is Some {
        sessions
    } else {
        sessions.push(ContextView { session_id: id, history: Seq::empty(), data: Seq::empty() })
    }
}

/// The conversations once `turn` is appended to the one with the identifier
/// `id`: as they were if there is none.
pub open spec fn recorded(sessions: Seq<ContextView>, id: Seq<char>, turn: TurnView) -> Seq<
    ContextView,
> {
    match position_of(sessions, id) {
        Some(at) => sessions.update(
            at,
            ContextView { history: sessions[at].history.push(turn), ..sessions[at] },
        ),
        None => sessions,
    }
}

/// The conversations once `value` is put under `key` in the one with the
/// identifier `id`: as they were if there is none.
pub open spec fn noted(sessions: Seq<ContextView>, id: Seq<char>, key: Seq<char>, value: Seq<char>) -> Seq<
    ContextView,
> {
    match position_of(sessions, id) {
        Some(at) => sessions.update(
            at,
            ContextView { data: put(sessions[at].data, key, value), ..sessions[at] },
        ),
        None => sessions,
    }
}

/// The conversations without the one with the identifier `id`.
pub open spec fn ended(sessions: Seq<ContextView>, id: Seq<char>) -> Seq<ContextView> {
    match position_of(sessions, id) {
        Some(at) => sessions.remove(at),
        None => sessions,
    }
}

impl ConversationManager {
    /// A manager without conversations.
    pub fn new() -> (manager: Self)
        ensures
            manager@ == Seq::<ContextView>::empty(),
    {
        let manager = ConversationManager { sessions: Vec::new() };
        assert(manager@ =~= Seq::<ContextView>::empty());
        manager
    }

    /// The index of the conversation with the identifier `session_id`.
    fn find(&self, session_id: &str) -> (found: Option<usize>)
        ensures
            match found {
                Some(at) => position_of(self@, session_id@) == Some(at as int) && at
                    < self.sessions@.len(),
                None => position_of(self@, session_id@) is None,
            },
    {
        let wanted: String = String::from_str(session_id);
        let mut i: usize = 0;
        proof {
            lemma_position_of(self@, session_id@);
        }
        while i < self.sessions.len()
            invariant
                i <= self.sessions@.len(),
                wanted@ == session_id@,
                forall|k: int| 0 <= k < i ==> (#[trigger] self@[k]).session_id != session_id@,
            decreases self.sessions@.len() - i,
        {
            if self.sessions[i].session_id == wanted {
                proof {
                    lemma_position_of(self@, session_id@);
                    assert(self@[i as int].session_id == session_id@);
                }
                return Some(i);
            }
            i = i + 1;
        }
        proof {
            lemma_position_of(self@, session_id@);
        }
        None
    }

    /// Opens the conversation with the identifier `session_id`, unless it is
    /// open already.
    pub fn get_or_create_session(&mut self, session_id: String)
        ensures
            final(self)@ == opened(old(self)@, session_id@),
    {
        match self.find(session_id.as_str()) {
            Some(_) => {},
            None => {
                let context = ConversationContext::new(session_id);
                proof {
                    assert(Seq::new(
                        self.sessions@.push(context).len(),
                        |i: int| self.sessions@.push(context)[i]@,
                    ) =~= self@.push(context@));
                }
                self.sessions.push(context);
            },
        }
    }

    /// Appends an exchange to the conversation with the identifier
    /// `session_id`; does nothing if there is none.
    pub fn record_turn(
        &mut self,
        session_id: &str,
        user_input: String,
        bot_response: String,
        intent: Intent,
        entities: Vec<Entity>,
    )
        ensures
            final(self)@ == recorded(
                old(self)@,
                session_id@,
                TurnView {
                    user_input: user_input@,
                    bot_response: bot_response@,
                    intent,
                    entities: entity_views(entities@),
                },
            ),
    {
        match self.find(session_id) {
            None => {},
            Some(at) => {
                let turn = ConversationTurn { user_input, bot_response, intent, entities };
                let mut context: ConversationContext = self.sessions.remove(at);
                let ghost before = context@;
                context.conversation_history.push(turn);
                proof {
                    assert(context@.history =~= before.history.push(turn@));
                    assert(context@.data =~= before.data);
                }
                self.sessions.insert(at, context);
                proof {
                    assert(self@ =~= old(self)@.update(at as int, context@));
                }
            },
        }
    }

    /// Puts `value` under `key` in the conversation with the identifier
    /// `session_id`; does nothing if there is none.
    pub fn set_context(&mut self, session_id: &str, key: String, value: String)
        ensures
            final(self)@ == noted(old(self)@, session_id@, key@, value@),
    {
        match self.find(session_id) {
            None => {},
            Some(at) => {
                let mut context: ConversationContext = self.sessions.remove(at);
                context.set_context(key, value);
                self.sessions.insert(at, context);
                proof {
                    assert(self@ =~= old(self)@.update(at as int, context@));
                }
            },
        }
    }

    /// The conversation with the identifier `session_id`, if there is one.
    pub fn get_session(&self, session_id: &str) -> (context: Option<&ConversationContext>)
        ensures
            match context {
                Some(context) => position_of(self@, session_id@) matches Some(at) && self@[at]
                    == context@,
                None => position_of(self@, session_id@) is None,
            },
    {
        match self.find(session_id) {
            Some(at) => Some(&self.sessions[at]),
            None => None,
        }
    }

    /// Ends the conversation with the identifier `session_id` and hands it
    /// out, if there is one.
    pub fn end_session(&mut self, session_id: &str) -> (context: Option<ConversationContext>)
        ensures
            final(self)@ == ended(old(self)@, session_id@),
            match context {
                Some(context) => position_of(old(self)@, session_id@) matches Some(at) && old(
                    self,
                )@[at] == context@,
                None => position_of(old(self)@, session_id@) is None,
            },
    {
        match self.find(session_id) {
            Some(at) => {
                let context: ConversationContext = self.sessions.remove(at);
                proof {
                    assert(self@ =~= old(self)@.remove(at as int));
                }
                Some(context)
            },
            None => None,
        }
    }
}

} // verus!
