use ml_systems::chatbot::intent::{Intent, IntentRecognizer, MAX_PATTERN_WORDS};
use ml_systems::text::{chars_of, split_words};

fn words(list: &[&str]) -> Vec<String> {
    list.iter().map(|w| w.to_string()).collect()
}

fn split(text: &str) -> Vec<String> {
    split_words(text)
}

#[test]
fn test_greeting_intent() {
    let recognizer = IntentRecognizer::new();
    assert_eq!(recognizer.recognize("Hello there"), Intent::Greeting);
    assert_eq!(recognizer.recognize("Hi!"), Intent::Greeting);
}

#[test]
fn test_appointment_intent() {
    let recognizer = IntentRecognizer::new();
    assert_eq!(
        recognizer.recognize("I want to book an appointment"),
        Intent::BookAppointment
    );
}

#[test]
fn every_intent_is_recognized() {
    let recognizer = IntentRecognizer::new();
    assert_eq!(recognizer.recognize("good evening"), Intent::Greeting);
    assert_eq!(recognizer.recognize("ok, goodbye"), Intent::Farewell);
    assert_eq!(recognizer.recognize("Why?"), Intent::Question);
    assert_eq!(recognizer.recognize("please schedule a meeting"), Intent::BookAppointment);
    assert_eq!(recognizer.recognize("Will it RAIN"), Intent::CheckWeather);
    assert_eq!(recognizer.recognize("order a pizza"), Intent::OrderFood);
    assert_eq!(recognizer.recognize("support"), Intent::GetHelp);
    assert_eq!(recognizer.recognize("lorem ipsum"), Intent::Unknown);
    assert_eq!(recognizer.recognize(""), Intent::Unknown);
    assert_eq!(recognizer.recognize("  ...  "), Intent::Unknown);
}

#[test]
fn words_must_match_whole() {
    let recognizer = IntentRecognizer::new();
    assert_eq!(recognizer.recognize("this"), Intent::Unknown); // not "hi"
    assert_eq!(recognizer.recognize("helpful"), Intent::Unknown);
    assert_eq!(recognizer.recognize("good"), Intent::Unknown); // half a pattern
}

#[test]
fn longer_patterns_and_phrases_win() {
    let recognizer = IntentRecognizer::new();
    // "what" scores 30, "want to eat" scores 110
    assert_eq!(recognizer.recognize("what do I want to eat"), Intent::OrderFood);
    // "help" scores 30, "book appointment" apart scores 40
    assert_eq!(recognizer.recognize("help me book that appointment"), Intent::BookAppointment);
    // "good morning" as a phrase scores 60, "see you" apart scores 40
    assert_eq!(recognizer.recognize("see, good morning to you"), Intent::Greeting);
}

#[test]
fn ties_go_to_the_earlier_pattern() {
    let recognizer = IntentRecognizer::new();
    // "hello" and "bye" both score 30; greetings are tried first
    assert_eq!(recognizer.recognize("bye hello"), Intent::Greeting);
    assert_eq!(recognizer.recognize("weather help"), Intent::CheckWeather);
    assert_eq!(recognizer.recognize("quit who"), Intent::Farewell);
}

#[test]
fn match_score_exact_values() {
    let recognizer = IntentRecognizer::new();
    let message = words(&["please", "book", "an", "appointment", "book"]);
    assert_eq!(recognizer.calculate_match_score(&message, &words(&[])), 0);
    assert_eq!(recognizer.calculate_match_score(&message, &words(&["book"])), 30);
    assert_eq!(recognizer.calculate_match_score(&message, &words(&["booking"])), 0);
    assert_eq!(recognizer.calculate_match_score(&message, &words(&["book", "appointment"])), 40);
    assert_eq!(recognizer.calculate_match_score(&message, &words(&["an", "appointment"])), 60);
    assert_eq!(recognizer.calculate_match_score(&message, &words(&["appointment", "book"])), 60);
    assert_eq!(recognizer.calculate_match_score(&message, &words(&["book", "a", "table"])), 0);
    assert_eq!(
        recognizer.calculate_match_score(&message, &words(&["please", "book", "an"])),
        110
    );
    assert_eq!(recognizer.calculate_match_score(&message, &words(&["book", "book"])), 40);
    assert_eq!(recognizer.calculate_match_score(&words(&[]), &words(&["book"])), 0);
    // a pattern longer than the message cannot be a phrase of it
    assert_eq!(
        recognizer.calculate_match_score(&words(&["a"]), &words(&["a", "a", "a"])),
        90
    );
}

#[test]
fn match_score_of_the_longest_pattern_fits() {
    let recognizer = IntentRecognizer::new();
    let pattern = vec!["x".to_string(); MAX_PATTERN_WORDS];
    assert_eq!(recognizer.calculate_match_score(&pattern, &pattern), 10_000_020);
    assert_eq!(recognizer.calculate_match_score(&words(&["x"]), &pattern), 10_000_000);
}

#[test]
fn recognize_words_takes_words_as_they_are() {
    let recognizer = IntentRecognizer::new();
    assert_eq!(recognizer.recognize_words(&words(&["hello"])), Intent::Greeting);
    assert_eq!(recognizer.recognize_words(&words(&["Hello"])), Intent::Unknown);
    assert_eq!(recognizer.recognize_words(&words(&["hello!"])), Intent::Unknown);
    assert_eq!(recognizer.recognize_words(&words(&[])), Intent::Unknown);
}

#[test]
fn split_words_trims_and_drops() {
    assert_eq!(split("hello, world!"), words(&["hello", "world"]));
    assert_eq!(split("  (hi)\t--  ...x1-y2... \n"), words(&["hi", "x1-y2"]));
    assert_eq!(split("don't"), words(&["don't"]));
    assert_eq!(split("???"), words(&[]));
    assert_eq!(split(""), words(&[]));
    assert_eq!(split("a"), words(&["a"]));
    assert_eq!(split("\u{a0}caf\u{e9}\u{2003}\u{ab}na\u{ef}ve\u{bb}"), words(&["caf\u{e9}", "na\u{ef}ve"]));
}

#[test]
fn split_words_agrees_with_the_standard_library() {
    for text in ["I want to book an appointment", " a  b ", "x.y ,z; 3pm!", "\u{1f600} ok \u{1f600}"] {
        let expected: Vec<String> = text
            .split_whitespace()
            .map(|s| s.trim_matches(|c: char| !c.is_alphanumeric()).to_string())
            .filter(|s| !s.is_empty())
            .collect();
        assert_eq!(split(text), expected);
    }
}

#[test]
fn chars_of_keeps_every_character() {
    assert_eq!(chars_of("a\u{e9}\u{1f600} z"), vec!['a', '\u{e9}', '\u{1f600}', ' ', 'z']);
    assert_eq!(chars_of(""), Vec::<char>::new());
}

#[test]
fn upper_case_is_folded_before_matching() {
    let recognizer = IntentRecognizer::new();
    assert_eq!(recognizer.recognize("HELLO"), Intent::Greeting);
    assert_eq!(recognizer.recognize("GoodBye."), Intent::Farewell);
    assert_eq!(recognizer.recognize("\u{1e9e}"), Intent::Unknown);
}
