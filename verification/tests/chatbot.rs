use ml_systems::chatbot::conversation::{ConversationContext, ConversationManager};
use ml_systems::chatbot::dialogue::Chatbot;
use ml_systems::chatbot::entity::EntityType;
use ml_systems::chatbot::intent::Intent;

#[test]
fn test_greeting_conversation() {
    let mut chatbot = Chatbot::new();
    let response = chatbot.process_message("test-session", "Hello!");

    assert!(response.contains("Hello") || response.contains("Hi"));
}

#[test]
fn test_appointment_booking() {
    let mut chatbot = Chatbot::new();
    let response = chatbot.process_message(
        "test-session",
        "I want to book an appointment for tomorrow at 3pm"
    );

    assert!(response.to_lowercase().contains("appointment") ||
            response.to_lowercase().contains("tomorrow"));
}

#[test]
fn test_context_persistence() {
    let mut chatbot = Chatbot::new();

    chatbot.process_message("session-1", "Hello");
    chatbot.process_message("session-1", "Book appointment");

    let context = chatbot.get_conversation_context("session-1");
    assert!(context.is_some());
    assert_eq!(context.unwrap().conversation_history.len(), 2);
}

#[test]
fn exchange_is_remembered_with_intent_and_entities() {
    let mut chatbot = Chatbot::new();
    let response = chatbot.process_message("s", "Book appointment for tomorrow at 2pm");
    assert_eq!(response, "Perfect! I've noted your appointment for tomorrow at 2pm. I'll confirm this for you.");
    let context = chatbot.get_conversation_context("s").unwrap();
    assert_eq!(context.session_id, "s");
    let turn = &context.conversation_history[0];
    assert_eq!(turn.user_input, "Book appointment for tomorrow at 2pm");
    assert_eq!(turn.bot_response, response);
    assert_eq!(turn.intent, Intent::BookAppointment);
    let kinds: Vec<EntityType> = turn.entities.iter().map(|e| e.entity_type).collect();
    assert_eq!(kinds, vec![EntityType::Date, EntityType::Time]);
    assert_eq!(
        context.context_data,
        vec![
            ("last_date".to_string(), "tomorrow".to_string()),
            ("last_time".to_string(), "2pm".to_string()),
        ]
    );
}

#[test]
fn later_entities_replace_earlier_ones_under_the_same_key() {
    let mut chatbot = Chatbot::new();
    chatbot.process_message("s", "see you on monday");
    chatbot.process_message("s", "no, on friday at 10:30, or sunday");
    let context = chatbot.get_conversation_context("s").unwrap();
    assert_eq!(context.get_context("last_date").map(|s| s.as_str()), Some("sunday"));
    assert_eq!(context.get_context("last_time").map(|s| s.as_str()), Some("10:30"));
    assert_eq!(context.get_context("last_number").map(|s| s.as_str()), Some("30"));
    assert_eq!(context.get_context("last_email"), None);
    assert_eq!(context.context_data[0].0, "last_date");
    assert_eq!(context.conversation_history.len(), 2);
}

#[test]
fn conversations_are_kept_apart_and_can_be_ended() {
    let mut chatbot = Chatbot::new();
    chatbot.process_message("a", "Hello");
    chatbot.process_message("b", "what is the weather in Boston");
    chatbot.process_message("a", "bye");
    assert_eq!(chatbot.get_conversation_context("a").unwrap().conversation_history.len(), 2);
    assert_eq!(chatbot.get_conversation_context("b").unwrap().conversation_history.len(), 1);
    assert!(chatbot.get_conversation_context("c").is_none());

    let ended = chatbot.end_conversation("a").unwrap();
    assert_eq!(ended.session_id, "a");
    assert_eq!(ended.conversation_history[1].intent, Intent::Farewell);
    assert!(chatbot.get_conversation_context("a").is_none());
    assert!(chatbot.end_conversation("a").is_none());
    assert!(chatbot.get_conversation_context("b").is_some());

    // a conversation that was ended starts afresh
    chatbot.process_message("a", "Hello again");
    assert_eq!(chatbot.get_conversation_context("a").unwrap().conversation_history.len(), 1);
}

#[test]
fn weather_question_names_the_place() {
    let mut chatbot = Chatbot::new();
    let response = chatbot.process_message("w", "the weather in Boston, please");
    assert_eq!(
        response,
        "Checking the weather for Boston... (This would connect to a weather API in a real implementation)"
    );
    let context = chatbot.get_conversation_context("w").unwrap();
    assert_eq!(context.get_context("last_location").map(|s| s.as_str()), Some("Boston"));
}

#[test]
fn manager_ignores_conversations_it_does_not_know() {
    let mut manager = ConversationManager::new();
    manager.record_turn("x", "hi".to_string(), "hello".to_string(), Intent::Greeting, Vec::new());
    manager.set_context("x", "k".to_string(), "v".to_string());
    assert!(manager.get_session("x").is_none());
    manager.get_or_create_session("x".to_string());
    manager.get_or_create_session("x".to_string());
    manager.record_turn("x", "hi".to_string(), "hello".to_string(), Intent::Greeting, Vec::new());
    manager.set_context("x", "k".to_string(), "v".to_string());
    manager.set_context("x", "k".to_string(), "w".to_string());
    let context = manager.get_session("x").unwrap();
    assert_eq!(context.conversation_history.len(), 1);
    assert_eq!(context.context_data, vec![("k".to_string(), "w".to_string())]);
    assert!(manager.end_session("y").is_none());
    assert!(manager.end_session("x").is_some());
    assert!(manager.get_session("x").is_none());
}

#[test]
fn context_keeps_keys_in_order_of_first_use() {
    let mut context = ConversationContext::new("id".to_string());
    context.set_context("b".to_string(), "1".to_string());
    context.set_context("a".to_string(), "2".to_string());
    context.set_context("b".to_string(), "3".to_string());
    assert_eq!(
        context.context_data,
        vec![("b".to_string(), "3".to_string()), ("a".to_string(), "2".to_string())]
    );
    assert_eq!(context.get_context("a").map(|s| s.as_str()), Some("2"));
    assert_eq!(context.get_context("b").map(|s| s.as_str()), Some("3"));
    assert!(context.get_context("c").is_none());
}
