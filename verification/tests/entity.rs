use ml_systems::chatbot::entity::{assemble, Capture, Entity, EntityExtractor, EntityType};

fn found(text: &str) -> Vec<(EntityType, String, (usize, usize))> {
    EntityExtractor::new()
        .extract(text)
        .into_iter()
        .map(|e| (e.entity_type, e.value, e.position))
        .collect()
}

fn entity(kind: EntityType, value: &str, start: usize, end: usize) -> (EntityType, String, (usize, usize)) {
    (kind, value.to_string(), (start, end))
}

#[test]
fn test_date_extraction() {
    let extractor = EntityExtractor::new();
    let entities = extractor.extract("Meeting on 2024-01-15 at 3pm");

    let dates: Vec<_> = entities.iter()
        .filter(|e| e.entity_type == EntityType::Date)
        .collect();

    assert!(!dates.is_empty());
}

#[test]
fn test_email_extraction() {
    let extractor = EntityExtractor::new();
    let entities = extractor.extract("Contact me at john.doe@example.com");

    let emails: Vec<_> = entities.iter()
        .filter(|e| e.entity_type == EntityType::Email)
        .collect();

    assert_eq!(emails.len(), 1);
    assert_eq!(emails[0].value, "john.doe@example.com");
}

#[test]
fn entities_come_ordered_by_start_and_ties_in_pattern_order() {
    assert_eq!(
        found("Meeting on 2024-01-15 at 3pm"),
        vec![
            entity(EntityType::Date, "2024-01-15", 11, 21),
            entity(EntityType::Number, "2024", 11, 15),
            entity(EntityType::Number, "01", 16, 18),
            entity(EntityType::Number, "15", 19, 21),
            entity(EntityType::Time, "3pm", 25, 28),
        ]
    );
}

#[test]
fn location_takes_the_name_and_the_span_of_the_whole_match() {
    assert_eq!(
        found("Meeting in New York tomorrow"),
        vec![
            entity(EntityType::Location, "New York", 8, 19),
            entity(EntityType::Date, "tomorrow", 20, 28),
        ]
    );
}

#[test]
fn phone_numbers_and_times() {
    assert_eq!(
        found("call 555-123-4567 at 2:30 pm"),
        vec![
            entity(EntityType::Phone, "555-123-4567", 5, 17),
            entity(EntityType::Number, "555", 5, 8),
            entity(EntityType::Number, "123", 9, 12),
            entity(EntityType::Number, "4567", 13, 17),
            entity(EntityType::Time, "2:30 pm", 21, 28),
            entity(EntityType::Number, "2", 21, 22),
            entity(EntityType::Number, "30", 23, 25),
        ]
    );
}

#[test]
fn positions_are_in_bytes() {
    assert_eq!(found("caf\u{e9} 42"), vec![entity(EntityType::Number, "42", 6, 8)]);
}

#[test]
fn nothing_is_found_in_plain_text() {
    assert_eq!(found("nothing to see here"), vec![]);
    assert_eq!(found(""), vec![]);
}

#[test]
fn extract_by_type_keeps_one_kind_in_order() {
    let extractor = EntityExtractor::new();
    let text = "from Boston on monday at 9am, or friday at 10:15";
    let dates: Vec<String> = extractor
        .extract_by_type(text, EntityType::Date)
        .into_iter()
        .map(|e| e.value)
        .collect();
    assert_eq!(dates, vec!["monday".to_string(), "friday".to_string()]);
    let times: Vec<Entity> = extractor.extract_by_type(text, EntityType::Time);
    assert_eq!(times.len(), 2);
    assert_eq!(times[0].value, "9am");
    assert_eq!(times[1].value, "10:15");
    let places = extractor.extract_by_type(text, EntityType::Location);
    assert_eq!(places.len(), 1);
    assert_eq!(places[0].value, "Boston");
    assert!(extractor.extract_by_type(text, EntityType::Person).is_empty());
    assert!(extractor.extract_by_type(text, EntityType::Email).is_empty());
}

#[test]
fn cloned_entity_equals_the_original() {
    let extractor = EntityExtractor::new();
    let entities = extractor.extract("mail a@b.io");
    let copy = entities[0].clone();
    assert_eq!(copy.entity_type, EntityType::Email);
    assert_eq!(copy.value, "a@b.io");
    assert_eq!(copy.position, (5, 11));
}

fn capture(start: usize, end: usize, whole: &str, group: Option<&str>) -> Capture {
    (Some((start, end, whole.to_string())), group.map(|g| g.to_string()))
}

#[test]
fn assemble_orders_entities_and_names_locations_by_their_group() {
    let findings = vec![
        (EntityType::Date, vec![capture(20, 28, "tomorrow", Some("tomorrow")), capture(3, 9, "monday", None)]),
        (EntityType::Location, vec![capture(8, 19, "in New York", Some("New York")), capture(30, 35, "at X", None)]),
        (EntityType::Number, vec![capture(3, 4, "7", Some("ignored")), (None, Some("lost".to_string()))]),
        (EntityType::Email, Vec::new()),
    ];
    let entities: Vec<(EntityType, String, (usize, usize))> =
        assemble(&findings).into_iter().map(|e| (e.entity_type, e.value, e.position)).collect();
    assert_eq!(
        entities,
        vec![
            entity(EntityType::Date, "monday", 3, 9),
            entity(EntityType::Number, "7", 3, 4),
            entity(EntityType::Location, "New York", 8, 19),
            entity(EntityType::Date, "tomorrow", 20, 28),
            entity(EntityType::Location, "at X", 30, 35),
        ]
    );
    assert!(assemble(&Vec::new()).is_empty());
}
