//! The chatbot: understands a message, replies, and remembers the exchange.

use vstd::prelude::*;
use vstd::string::StringExecFns;
use crate::chatbot::conversation::{
    noted, opened, recorded, ContextView, ConversationContext, ConversationManager, TurnView,
    ended, position_of,
};
use crate::chatbot::entity::{
    default_patterns, entity_views, found_by_all, sort_by_start, Entity, EntityExtractor,
    EntityType, EntityView,
};
use crate::chatbot::intent::{default_entries, spec_recognize, Intent, IntentRecognizer};
use crate::chatbot::responses::{
    default_templates, generate_response, initialize_response_templates, spec_response,
    template_views, ResponseTemplate,
};
use crate::text::{lowercase_of, words_of};

verus! {

/// Recognizes intents, extracts entities, replies from templates, and keeps
/// the history of each conversation.
pub struct Chatbot {
    intent_recognizer: IntentRecognizer,
    entity_extractor: EntityExtractor,
    conversation_manager: ConversationManager,
    response_templates: Vec<ResponseTemplate>,
}

/// The key under which the last entity of a kind is remembered.
pub open spec fn context_key(kind: EntityType) -> Seq<char> {
    match kind {
        EntityType::Date => "last_date"@,
        EntityType::Time => "last_time"@,
        EntityType::Location => "last_location"@,
        EntityType::Person => "last_person"@,
        EntityType::Number => "last_number"@,
        EntityType::Email => "last_email"@,
        EntityType::Phone => "last_phone"@,
    }
}

/// The intent of a message.
pub open spec fn intent_of(user_input: Seq<char>) -> Intent {
    spec_recognize(default_entries(), words_of(lowercase_of(user_input)))
}

/// The entities of a message.
pub open spec fn entities_in(user_input: Seq<char>) -> Seq<EntityView> {
    sort_by_start(found_by_all(default_patterns(), user_input))
}

/// The reply to a message.
pub open spec fn reply_to(user_input: Seq<char>) -> Seq<char> {
    spec_response(default_templates(), intent_of(user_input), entities_in(user_input), user_input)
}

/// The conversations once every entity is remembered, in order, under the key
/// of its kind in the conversation with the identifier `id`.
pub open spec fn noted_all(sessions: Seq<ContextView>, id: Seq<char>, entities: Seq<EntityView>) -> Seq<
    ContextView,
>
    decreases entities.len(),
{
    if entities.len() == 0 {
        sessions
    } else {
        noted(
            noted_all(sessions, id, entities.drop_last()),
            id,
            context_key(entities.last().entity_type),
            entities.last().value,
        )
    }
}

/// The conversations after the message `user_input` in the conversation with
/// the identifier `id`: that conversation is opened if need be, the exchange
/// is appended to it, and the entities of the message are remembered in it.
pub open spec fn after_message(sessions: Seq<ContextView>, id: Seq<char>, user_input: Seq<char>) -> Seq<
    ContextView,
> {
    noted_all(
        recorded(
            opened(sessions, id),
            id,
            TurnView {
                user_input,
                bot_response: reply_to(user_input),
                intent: intent_of(user_input),
                entities: entities_in(user_input),
            },
        ),
        id,
        entities_in(user_input),
    )
}

/// The key under which the last entity of a kind is remembered.
fn key_of(kind: EntityType) -> (key: String)
    ensures
        key@ == context_key(kind),
{
    match kind {
        EntityType::Date => String::from_str("last_date"),
        EntityType::Time => String::from_str("last_time"),
        EntityType::Location => String::from_str("last_location"),
        EntityType::Person => String::from_str("last_person"),
        EntityType::Number => String::from_str("last_number"),
        EntityType::Email => String::from_str("last_email"),
        EntityType::Phone => String::from_str("last_phone"),
    }
}

/// A copy of the entities.
fn copy_entities(entities: &[Entity]) -> (copies: Vec<Entity>)
    ensures
        entity_views(copies@) == entity_views(entities@),
{
    let mut copies: Vec<Entity> = Vec::new();
    let mut i: usize = 0;
    while i < entities.len()
        invariant
            i <= entities@.len(),
            copies@.len() == i,
            forall|k: int| 0 <= k < i ==> (#[trigger] copies@[k])@ == entities@[k]@,
        decreases entities@.len() - i,
    {
        copies.push(entities[i].clone());
        i = i + 1;
    }
    assert(entity_views(copies@) =~= entity_views(entities@));
    copies
}

impl Chatbot {
    /// The conversations that are open, in the order in which they were opened.
    pub closed spec fn sessions(&self) -> Seq<ContextView> {
        self.conversation_manager@
    }

    /// The invariant of a chatbot: it holds the default patterns and replies.
    pub closed spec fn wf(&self) -> bool {
        &&& self.intent_recognizer.wf()
        &&& self.intent_recognizer@ == default_entries()
        &&& self.entity_extractor@ == default_patterns()
        &&& template_views(self.response_templates@) == default_templates()
    }

    /// A chatbot without conversations.
    pub fn new() -> (chatbot: Self)
        ensures
            chatbot.wf(),
            chatbot.sessions() == Seq::<ContextView>::empty(),
    {
        Chatbot {
            intent_recognizer: IntentRecognizer::new(),
            entity_extractor: EntityExtractor::new(),
            conversation_manager: ConversationManager::new(),
            response_templates: initialize_response_templates(),
        }
    }

    /// Replies to a message of the conversation with the identifier
    /// `session_id`, and remembers the exchange and the entities of the
    /// message in that conversation.
    pub fn process_message(&mut self, session_id: &str, user_input: &str) -> (response: String)
        requires
            old(self).wf(),
        ensures
            final(self).wf(),
            response@ == reply_to(user_input@),
            final(self).sessions() == after_message(old(self).sessions(), session_id@, user_input@),
    {
        self.conversation_manager.get_or_create_session(String::from_str(session_id));

        let intent: Intent = self.intent_recognizer.recognize(user_input);
        let entities: Vec<Entity> = self.entity_extractor.extract(user_input);
        let response: String = generate_response(
            self.response_templates.as_slice(),
            intent,
            entities.as_slice(),
            user_input,
        );

        self.conversation_manager.record_turn(
            session_id,
            String::from_str(user_input),
            response.clone(),
            intent,
            copy_entities(entities.as_slice()),
        );

        // remember the entities under the keys of their kinds
        let ghost views = entity_views(entities@);
        let ghost base = self.conversation_manager@;
        let mut i: usize = 0;
        proof {
            assert(views.take(0) =~= Seq::<EntityView>::empty());
        }
        while i < entities.len()
            invariant
                i <= entities@.len(),
                views == entity_views(entities@),
                self.wf(),
                self.conversation_manager@ == noted_all(base, session_id@, views.take(i as int)),
            decreases entities@.len() - i,
        {
            proof {
                assert(views.take(i + 1).drop_last() =~= views.take(i as int));
                assert(views.take(i + 1).last() == entities@[i as int]@);
            }
            self.conversation_manager.set_context(
                session_id,
                key_of(entities[i].entity_type),
                entities[i].value.clone(),
            );
            i = i + 1;
        }
        proof {
            assert(views.take(i as int) =~= views);
        }
        response
    }

    /// The conversation with the identifier `session_id`, if it is open.
    pub fn get_conversation_context(&self, session_id: &str) -> (context: Option<&ConversationContext>)
        ensures
            match context {
                Some(context) => position_of(self.sessions(), session_id@) matches Some(at)
                    && self.sessions()[at] == context@,
                None => position_of(self.sessions(), session_id@) is None,
            },
    {
        self.conversation_manager.get_session(session_id)
    }

    /// Ends the conversation with the identifier `session_id` and hands it
    /// out, if it is open.
    pub fn end_conversation(&mut self, session_id: &str) -> (context: Option<ConversationContext>)
        requires
            old(self).wf(),
        ensures
            final(self).wf(),
            final(self).sessions() == ended(old(self).sessions(), session_id@),
            match context {
                Some(context) => position_of(old(self).sessions(), session_id@) matches Some(at)
                    && old(self).sessions()[at] == context@,
                None => position_of(old(self).sessions(), session_id@) is None,
            },
    {
        self.conversation_manager.end_session(session_id)
    }
}

} // verus!
