//! The replies of the chatbot: a table of templates for each intent, and the
//! replies that name the entities found in the message.

use vstd::prelude::*;
use vstd::string::StringExecFns;
use vstd::utf8::encode_utf8;
use crate::chatbot::entity::{entity_views, Entity, EntityType, EntityView};
use crate::chatbot::intent::Intent;

verus! {

/// The replies to choose from for one intent.
#[derive(Debug)]
pub struct ResponseTemplate {
    pub intent: Intent,
    pub templates: Vec<String>,
}

/// A table of replies: for each intent the replies to choose from.
pub type Templates = Seq<(Intent, Seq<Seq<char>>)>;

/// The reply for an intent that the table does not know.
pub const FALLBACK_RESPONSE: &'static str =
    "I understand, but I'm not sure how to respond to that yet.";

/// The table of replies, as sequences of characters.
pub open spec fn template_views(table: Seq<ResponseTemplate>) -> Templates {
    Seq::new(
        table.len(),
        |i: int| (table[i].intent, Seq::new(table[i].templates@.len(), |j: int| table[i].templates@[j]@)),
    )
}

/// The default table of replies.
pub open spec fn default_templates() -> Templates {
    seq![
        (Intent::Greeting, seq!["Hello! How can I help you today?"@, "Hi there! What can I do for you?"@, "Hey! Nice to meet you. How may I assist?"@]),
        (Intent::Farewell, seq!["Goodbye! Have a great day!"@, "See you later! Take care!"@, "Bye! Feel free to come back anytime!"@]),
        (Intent::BookAppointment, seq!["I'd be happy to help you book an appointment. What date and time works for you?"@, "Sure! Let's schedule that. When would you like to come in?"@]),
        (Intent::CheckWeather, seq!["Let me check the weather for you. Which location are you interested in?"@, "I can help with that! What city's weather would you like to know?"@]),
        (Intent::OrderFood, seq!["Great! What would you like to order?"@, "I can help you with that. What are you in the mood for?"@]),
        (Intent::GetHelp, seq!["I'm here to help! I can assist with:\n- Booking appointments\n- Checking weather\n- Ordering food\n- Answering questions\nWhat do you need?"@]),
        (Intent::Question, seq!["That's a good question. Let me help you with that."@, "I'll do my best to answer that for you."@]),
        (Intent::Unknown, seq!["I'm not sure I understood that. Could you rephrase?"@, "I didn't quite catch that. Can you try asking in a different way?"@]),
    ]
}

/// The replies of the first entry for `intent`, or none.
pub open spec fn templates_for(table: Templates, intent: Intent) -> Seq<Seq<char>>
    decreases table.len(),
{
    if table.len() == 0 {
        Seq::empty()
    } else if table[0].0 == intent {
        table[0].1
    } else {
        templates_for(table.drop_first(), intent)
    }
}

/// The first entity of kind `kind`, if there is one.
pub open spec fn first_of_kind(entities: Seq<EntityView>, kind: EntityType) -> Option<EntityView>
    decreases entities.len(),
{
    if entities.len() == 0 {
        None
    } else if entities[0].entity_type == kind {
        Some(entities[0])
    } else {
        first_of_kind(entities.drop_first(), kind)
    }
}

/// The reply to a booking that names the date and the time.
pub open spec fn booking_with_date_and_time(date: Seq<char>, time: Seq<char>) -> Seq<char> {
    "Perfect! I've noted your appointment for "@ + date + " at "@ + time
        + ". I'll confirm this for you."@
}

/// The reply to a booking that names the date only.
pub open spec fn booking_with_date(date: Seq<char>) -> Seq<char> {
    "Great! I see you want an appointment on "@ + date + ". What time would work for you?"@
}

/// The reply to a booking that names the time only.
pub open spec fn booking_with_time(time: Seq<char>) -> Seq<char> {
    "Noted the time as "@ + time + ". What date would you prefer?"@
}

/// The reply to a question about the weather that names the place.
pub open spec fn weather_at(place: Seq<char>) -> Seq<char> {
    "Checking the weather for "@ + place
        + "... (This would connect to a weather API in a real implementation)"@
}

/// The reply once the entities of the message are taken into account: a
/// booking names the first date and the first time found, a question about the
/// weather the first place; any other reply stays as it is.
pub open spec fn spec_enhance(response: Seq<char>, entities: Seq<EntityView>, intent: Intent) -> Seq<
    char,
> {
    match intent {
        Intent::BookAppointment => {
            let date = first_of_kind(entities, EntityType::Date);
            let time = first_of_kind(entities, EntityType::Time);
            if date is Some && time is Some {
                booking_with_date_and_time(date->0.value, time->0.value)
            } else if date is Some {
                booking_with_date(date->0.value)
            } else if time is Some {
                booking_with_time(time->0.value)
            } else {
                response
            }
        },
        Intent::CheckWeather => {
            let place = first_of_kind(entities, EntityType::Location);
            if place is Some {
                weather_at(place->0.value)
            } else {
                response
            }
        },
        _ => response,
    }
}

/// The length of a text in bytes, as a machine integer.
pub open spec fn byte_length(text: Seq<char>) -> usize {
    encode_utf8(text).len() as usize
}

/// The reply to a message with the given intent and entities: the fallback
/// where the table has no reply for the intent; else the reply at the index
/// `length of the message in bytes modulo number of replies`, adapted to the
/// entities if there are any.
pub open spec fn spec_response(
    table: Templates,
    intent: Intent,
    entities: Seq<EntityView>,
    user_input: Seq<char>,
) -> Seq<char> {
    let templates = templates_for(table, intent);
    if templates.len() == 0 {
        FALLBACK_RESPONSE@
    } else {
        let response = templates[(byte_length(user_input) as int) % (templates.len() as int)];
        if entities.len() > 0 {
            spec_enhance(response, entities, intent)
        } else {
            response
        }
    }
}

/// The strings with the given texts.
fn texts(list: &[&str]) -> (strings: Vec<String>)
    ensures
        strings@.len() == list@.len(),
        forall|i: int| 0 <= i < list@.len() ==> (#[trigger] strings@[i])@ == list@[i]@,
{
    let mut strings: Vec<String> = Vec::new();
    let mut i: usize = 0;
    while i < list.len()
        invariant
            i <= list@.len(),
            strings@.len() == i,
            forall|k: int| 0 <= k < i ==> (#[trigger] strings@[k])@ == list@[k]@,
        decreases list@.len() - i,
    {
        strings.push(String::from_str(list[i]));
        i = i + 1;
    }
    strings
}

/// The default table of replies.
pub fn initialize_response_templates() -> (table: Vec<ResponseTemplate>)
    ensures
        template_views(table@) == default_templates(),
{
    let mut table: Vec<ResponseTemplate> = Vec::new();
    table.push(ResponseTemplate { intent: Intent::Greeting, templates: texts(&["Hello! How can I help you today?", "Hi there! What can I do for you?", "Hey! Nice to meet you. How may I assist?"]) });
    table.push(ResponseTemplate { intent: Intent::Farewell, templates: texts(&["Goodbye! Have a great day!", "See you later! Take care!", "Bye! Feel free to come back anytime!"]) });
    table.push(ResponseTemplate { intent: Intent::BookAppointment, templates: texts(&["I'd be happy to help you book an appointment. What date and time works for you?", "Sure! Let's schedule that. When would you like to come in?"]) });
    table.push(ResponseTemplate { intent: Intent::CheckWeather, templates: texts(&["Let me check the weather for you. Which location are you interested in?", "I can help with that! What city's weather would you like to know?"]) });
    table.push(ResponseTemplate { intent: Intent::OrderFood, templates: texts(&["Great! What would you like to order?", "I can help you with that. What are you in the mood for?"]) });
    table.push(ResponseTemplate { intent: Intent::GetHelp, templates: texts(&["I'm here to help! I can assist with:\n- Booking appointments\n- Checking weather\n- Ordering food\n- Answering questions\nWhat do you need?"]) });
    table.push(ResponseTemplate { intent: Intent::Question, templates: texts(&["That's a good question. Let me help you with that.", "I'll do my best to answer that for you."]) });
    table.push(ResponseTemplate { intent: Intent::Unknown, templates: texts(&["I'm not sure I understood that. Could you rephrase?", "I didn't quite catch that. Can you try asking in a different way?"]) });
    proof {
        let views = template_views(table@);
        assert(views.len() == default_templates().len());
        assert forall|k: int| 0 <= k < views.len() implies views[k] == default_templates()[k] by {
            assert(views[k].1 =~= default_templates()[k].1);
        }
        assert(views =~= default_templates());
    }
    table
}

/// The first entity of kind `kind`, if there is one.
fn find_first(entities: &[Entity], kind: EntityType) -> (found: Option<&Entity>)
    ensures
        match found {
            Some(entity) => first_of_kind(entity_views(entities@), kind) == Some(entity@),
            None => first_of_kind(entity_views(entities@), kind) is None,
        },
{
    let ghost views = entity_views(entities@);
    let mut i: usize = 0;
    proof {
        assert(views.skip(0) =~= views);
    }
    while i < entities.len()
        invariant
            i <= entities@.len(),
            views == entity_views(entities@),
            first_of_kind(views, kind) == first_of_kind(views.skip(i as int), kind),
        decreases entities@.len() - i,
    {
        proof {
            assert(views.skip(i as int).drop_first() =~= views.skip(i + 1));
            assert(views.skip(i as int)[0] == entities@[i as int]@);
        }
        if entities[i].entity_type == kind {
            return Some(&entities[i]);
        }
        i = i + 1;
    }
    None
}

/// The reply once the entities of the message are taken into account.
pub fn enhance_response_with_entities(response: String, entities: &[Entity], intent: Intent) -> (enhanced: String)
    ensures
        enhanced@ == spec_enhance(response@, entity_views(entities@), intent),
{
    match intent {
        Intent::BookAppointment => {
            let date: Option<&Entity> = find_first(entities, EntityType::Date);
            let time: Option<&Entity> = find_first(entities, EntityType::Time);
            match (date, time) {
                (Some(date), Some(time)) => String::from_str(
                    "Perfect! I've noted your appointment for ",
                ).concat(date.value.as_str()).concat(" at ").concat(time.value.as_str()).concat(
                    ". I'll confirm this for you.",
                ),
                (Some(date), None) => String::from_str(
                    "Great! I see you want an appointment on ",
                ).concat(date.value.as_str()).concat(". What time would work for you?"),
                (None, Some(time)) => String::from_str("Noted the time as ").concat(
                    time.value.as_str(),
                ).concat(". What date would you prefer?"),
                (None, None) => response,
            }
        },
        Intent::CheckWeather => {
            match find_first(entities, EntityType::Location) {
                Some(place) => String::from_str("Checking the weather for ").concat(
                    place.value.as_str(),
                ).concat("... (This would connect to a weather API in a real implementation)"),
                None => response,
            }
        },
        _ => response,
    }
}

/// The replies of the first entry for `intent`, or none.
fn lookup(table: &[ResponseTemplate], intent: Intent) -> (found: Option<&Vec<String>>)
    ensures
        match found {
            Some(templates) => templates_for(template_views(table@), intent) == Seq::new(
                templates@.len(),
                |j: int| templates@[j]@,
            ),
            None => templates_for(template_views(table@), intent).len() == 0,
        },
{
    let ghost views = template_views(table@);
    let mut i: usize = 0;
    proof {
        assert(views.skip(0) =~= views);
    }
    while i < table.len()
        invariant
            i <= table@.len(),
            views == template_views(table@),
            templates_for(views, intent) == templates_for(views.skip(i as int), intent),
        decreases table@.len() - i,
    {
        proof {
            assert(views.skip(i as int).drop_first() =~= views.skip(i + 1));
            assert(views.skip(i as int)[0] == views[i as int]);
        }
        if table[i].intent == intent {
            return Some(&table[i].templates);
        }
        i = i + 1;
    }
    None
}

/// The reply to a message with the given intent and entities.
pub fn generate_response(
    table: &[ResponseTemplate],
    intent: Intent,
    entities: &[Entity],
    user_input: &str,
) -> (response: String)
    ensures
        response@ == spec_response(
            template_views(table@),
            intent,
            entity_views(entities@),
            user_input@,
        ),
{
    match lookup(table, intent) {
        None => String::from_str(FALLBACK_RESPONSE),
        Some(templates) => {
            if templates.len() == 0 {
                return String::from_str(FALLBACK_RESPONSE);
            }
            // choose a reply by the length of the message
            let index: usize = user_input.len() % templates.len();
            let response: String = templates[index].clone();
            if entities.len() > 0 {
                enhance_response_with_entities(response, entities, intent)
            } else {
                response
            }
        },
    }
}

} // verus!
