//! Recognition of a message's intent from keyword patterns.

use vstd::prelude::*;
use vstd::string::StringExecFns;
use crate::text::{lowercase_of, split_words, to_lowercase, views, words_of};

verus! {

/// What a message asks for.
#[derive(Debug, Clone, Copy, PartialEq, Eq, Hash, Structural)]
pub enum Intent {
    Greeting,
    Farewell,
    Question,
    BookAppointment,
    CheckWeather,
    OrderFood,
    GetHelp,
    Unknown,
}

/// The longest pattern, in words, that a recognizer may hold.
pub const MAX_PATTERN_WORDS: usize = 1000;

/// A pattern with the intent it indicates.
pub type Entry = (Intent, Seq<Seq<char>>);

/// Whether every word of the pattern occurs among the words.
pub open spec fn all_present(words: Seq<Seq<char>>, pattern: Seq<Seq<char>>) -> bool {
    forall|j: int| 0 <= j < pattern.len() ==> words.contains(#[trigger] pattern[j])
}

/// Whether the pattern stands in the words as a phrase that starts at `start`.
pub open spec fn occurs_at(words: Seq<Seq<char>>, pattern: Seq<Seq<char>>, start: int) -> bool {
    &&& 0 <= start
    &&& start + pattern.len() <= words.len()
    &&& forall|j: int| 0 <= j < pattern.len() ==> words[start + j] == #[trigger] pattern[j]
}

/// Whether the pattern stands somewhere in the words as a phrase.
pub open spec fn occurs(words: Seq<Seq<char>>, pattern: Seq<Seq<char>>) -> bool {
    exists|start: int| occurs_at(words, pattern, start)
}

/// The score of a pattern against the words of a message: zero unless the
/// pattern is not empty and each of its words occurs in the message; else ten
/// times the square of its length, and twenty more if it occurs as a phrase.
pub open spec fn match_score(words: Seq<Seq<char>>, pattern: Seq<Seq<char>>) -> nat {
    if pattern.len() == 0 || !all_present(words, pattern) {
        0
    } else if occurs(words, pattern) {
        pattern.len() * pattern.len() * 10 + 20
    } else {
        pattern.len() * pattern.len() * 10
    }
}

/// Whether entry `k` has a positive score that no entry exceeds and no earlier
/// entry reaches.
pub open spec fn first_best(entries: Seq<Entry>, words: Seq<Seq<char>>, k: int) -> bool {
    &&& 0 <= k < entries.len()
    &&& match_score(words, entries[k].1) > 0
    &&& forall|other: int|
        0 <= other < entries.len() ==> match_score(words, (#[trigger] entries[other]).1)
            <= match_score(words, entries[k].1)
    &&& forall|earlier: int|
        0 <= earlier < k ==> match_score(words, (#[trigger] entries[earlier]).1) < match_score(
            words,
            entries[k].1,
        )
}

/// The intent of a message with the given words: that of the first entry with
/// the highest score, or `Unknown` where every entry scores zero.
pub open spec fn spec_recognize(entries: Seq<Entry>, words: Seq<Seq<char>>) -> Intent {
    if exists|k: int| first_best(entries, words, k) {
        entries[choose|k: int| first_best(entries, words, k)].0
    } else {
        Intent::Unknown
    }
}

/// At most one entry is the first best.
pub proof fn lemma_first_best_unique(entries: Seq<Entry>, words: Seq<Seq<char>>, a: int, b: int)
    requires
        first_best(entries, words, a),
        first_best(entries, words, b),
    ensures
        a == b,
{
    if a < b {
        assert(match_score(words, entries[a].1) < match_score(words, entries[b].1));
        assert(match_score(words, entries[b].1) <= match_score(words, entries[a].1));
    } else if b < a {
        assert(match_score(words, entries[b].1) < match_score(words, entries[a].1));
        assert(match_score(words, entries[a].1) <= match_score(words, entries[b].1));
    }
}

/// The patterns that a new recognizer holds, in the order in which it tries
/// them.
pub open spec fn default_entries() -> Seq<Entry> {
    seq![
        (Intent::Greeting, seq!["hello"@]),
        (Intent::Greeting, seq!["hi"@]),
        (Intent::Greeting, seq!["hey"@]),
        (Intent::Greeting, seq!["good"@, "morning"@]),
        (Intent::Greeting, seq!["good"@, "afternoon"@]),
        (Intent::Greeting, seq!["good"@, "evening"@]),
        (Intent::Farewell, seq!["bye"@]),
        (Intent::Farewell, seq!["goodbye"@]),
        (Intent::Farewell, seq!["see"@, "you"@]),
        (Intent::Farewell, seq!["exit"@]),
        (Intent::Farewell, seq!["quit"@]),
        (Intent::Question, seq!["what"@]),
        (Intent::Question, seq!["when"@]),
        (Intent::Question, seq!["where"@]),
        (Intent::Question, seq!["how"@]),
        (Intent::Question, seq!["why"@]),
        (Intent::Question, seq!["who"@]),
        (Intent::BookAppointment, seq!["book"@, "appointment"@]),
        (Intent::BookAppointment, seq!["schedule"@, "meeting"@]),
        (Intent::BookAppointment, seq!["make"@, "appointment"@]),
        (Intent::BookAppointment, seq!["reserve"@]),
        (Intent::CheckWeather, seq!["weather"@]),
        (Intent::CheckWeather, seq!["temperature"@]),
        (Intent::CheckWeather, seq!["forecast"@]),
        (Intent::CheckWeather, seq!["rain"@]),
        (Intent::CheckWeather, seq!["sunny"@]),
        (Intent::OrderFood, seq!["order"@, "food"@]),
        (Intent::OrderFood, seq!["order"@, "pizza"@]),
        (Intent::OrderFood, seq!["want"@, "to"@, "eat"@]),
        (Intent::OrderFood, seq!["hungry"@]),
        (Intent::GetHelp, seq!["help"@]),
        (Intent::GetHelp, seq!["assist"@]),
        (Intent::GetHelp, seq!["support"@]),
    ]
}

/// The patterns of a list of entries, as sequences of characters.
pub open spec fn entries_view(entries: Seq<(Intent, Vec<String>)>) -> Seq<Entry> {
    Seq::new(entries.len(), |i: int| (entries[i].0, views(entries[i].1@)))
}

/// The pattern made of the given words.
fn phrase(words: &[&str]) -> (pattern: Vec<String>)
    ensures
        pattern@.len() == words@.len(),
        forall|i: int| 0 <= i < words@.len() ==> (#[trigger] pattern@[i])@ == words@[i]@,
{
    let mut pattern: Vec<String> = Vec::new();
    let mut i: usize = 0;
    while i < words.len()
        invariant
            i <= words@.len(),
            pattern@.len() == i,
            forall|k: int| 0 <= k < i ==> (#[trigger] pattern@[k])@ == words@[k]@,
        decreases words@.len() - i,
    {
        pattern.push(String::from_str(words[i]));
        i = i + 1;
    }
    pattern
}

/// Recognizes intents by keyword patterns.
pub struct IntentRecognizer {
    entries: Vec<(Intent, Vec<String>)>,
}

impl View for IntentRecognizer {
    type V = Seq<Entry>;

    closed spec fn view(&self) -> Seq<Entry> {
        entries_view(self.entries@)
    }
}

impl IntentRecognizer {
    /// The invariant of a recognizer: no pattern is longer than
    /// `MAX_PATTERN_WORDS`.
    pub open spec fn wf(&self) -> bool {
        forall|k: int| 0 <= k < self@.len() ==> (#[trigger] self@[k]).1.len() <= MAX_PATTERN_WORDS
    }

    /// A recognizer with the default patterns.
    pub fn new() -> (recognizer: Self)
        ensures
            recognizer@ == default_entries(),
            recognizer.wf(),
    {
        let mut entries: Vec<(Intent, Vec<String>)> = Vec::new();
        entries.push((Intent::Greeting, phrase(&["hello"])));
        entries.push((Intent::Greeting, phrase(&["hi"])));
        entries.push((Intent::Greeting, phrase(&["hey"])));
        entries.push((Intent::Greeting, phrase(&["good", "morning"])));
        entries.push((Intent::Greeting, phrase(&["good", "afternoon"])));
        entries.push((Intent::Greeting, phrase(&["good", "evening"])));
        entries.push((Intent::Farewell, phrase(&["bye"])));
        entries.push((Intent::Farewell, phrase(&["goodbye"])));
        entries.push((Intent::Farewell, phrase(&["see", "you"])));
        entries.push((Intent::Farewell, phrase(&["exit"])));
        entries.push((Intent::Farewell, phrase(&["quit"])));
        entries.push((Intent::Question, phrase(&["what"])));
        entries.push((Intent::Question, phrase(&["when"])));
        entries.push((Intent::Question, phrase(&["where"])));
        entries.push((Intent::Question, phrase(&["how"])));
        entries.push((Intent::Question, phrase(&["why"])));
        entries.push((Intent::Question, phrase(&["who"])));
        entries.push((Intent::BookAppointment, phrase(&["book", "appointment"])));
        entries.push((Intent::BookAppointment, phrase(&["schedule", "meeting"])));
        entries.push((Intent::BookAppointment, phrase(&["make", "appointment"])));
        entries.push((Intent::BookAppointment, phrase(&["reserve"])));
        entries.push((Intent::CheckWeather, phrase(&["weather"])));
        entries.push((Intent::CheckWeather, phrase(&["temperature"])));
        entries.push((Intent::CheckWeather, phrase(&["forecast"])));
        entries.push((Intent::CheckWeather, phrase(&["rain"])));
        entries.push((Intent::CheckWeather, phrase(&["sunny"])));
        entries.push((Intent::OrderFood, phrase(&["order", "food"])));
        entries.push((Intent::OrderFood, phrase(&["order", "pizza"])));
        entries.push((Intent::OrderFood, phrase(&["want", "to", "eat"])));
        entries.push((Intent::OrderFood, phrase(&["hungry"])));
        entries.push((Intent::GetHelp, phrase(&["help"])));
        entries.push((Intent::GetHelp, phrase(&["assist"])));
        entries.push((Intent::GetHelp, phrase(&["support"])));
        let recognizer = IntentRecognizer { entries };
        proof {
            assert(recognizer@.len() == default_entries().len());
            assert forall|k: int| 0 <= k < recognizer@.len() implies recognizer@[k]
                == default_entries()[k] by {
                assert(recognizer@[k].1 =~= default_entries()[k].1);
            }
            assert(recognizer@ =~= default_entries());
        }
        recognizer
    }
}


/// Whether `word` occurs among `words`.
fn contains_word(words: &[String], word: &String) -> (found: bool)
    ensures
        found == views(words@).contains(word@),
{
    let mut i: usize = 0;
    while i < words.len()
        invariant
            i <= words@.len(),
            forall|k: int| 0 <= k < i ==> views(words@)[k] != word@,
        decreases words@.len() - i,
    {
        if words[i] == *word {
            assert(views(words@)[i as int] == word@);
            return true;
        }
        i = i + 1;
    }
    false
}

/// Whether `pattern` stands in `words` as a phrase that starts at `start`.
fn phrase_at(words: &[String], pattern: &[String], start: usize) -> (found: bool)
    requires
        start + pattern@.len() <= words@.len(),
    ensures
        found == occurs_at(views(words@), views(pattern@), start as int),
{
    let total: usize = words.len();
    let mut j: usize = 0;
    while j < pattern.len()
        invariant
            j <= pattern@.len(),
            total == words@.len(),
            start + pattern@.len() <= total,
            forall|k: int| 0 <= k < j ==> views(words@)[start + k] == #[trigger] views(pattern@)[k],
        decreases pattern@.len() - j,
    {
        if !(words[start + j] == pattern[j]) {
            assert(views(words@)[start + j] != views(pattern@)[j as int]);
            return false;
        }
        j = j + 1;
    }
    true
}

impl IntentRecognizer {
    /// The score of `pattern` against the words of a message.
    pub fn calculate_match_score(&self, words: &[String], pattern: &[String]) -> (score: usize)
        requires
            pattern@.len() <= MAX_PATTERN_WORDS,
        ensures
            score == match_score(views(words@), views(pattern@)),
    {
        let ghost w = views(words@);
        let ghost p = views(pattern@);
        if pattern.len() == 0 {
            return 0;
        }
        // every word of the pattern must occur somewhere in the message
        let mut j: usize = 0;
        while j < pattern.len()
            invariant
                j <= pattern@.len(),
                w == views(words@),
                p == views(pattern@),
                forall|k: int| 0 <= k < j ==> w.contains(#[trigger] p[k]),
            decreases pattern@.len() - j,
        {
            if !contains_word(words, &pattern[j]) {
                assert(!w.contains(p[j as int]));
                return 0;
            }
            j = j + 1;
        }
        assert(all_present(w, p));
        let length: usize = pattern.len();
        assert(length * length * 10 <= 1000 * 1000 * 10) by (nonlinear_arith)
            requires
                0 <= length <= 1000,
        ;
        let base: usize = length * length * 10;
        if pattern.len() > words.len() {
            assert(!occurs(w, p));
            return base;
        }
        // a phrase match earns a bonus
        let starts: usize = words.len() - pattern.len() + 1;
        let mut i: usize = 0;
        while i < starts
            invariant
                i <= starts,
                starts == words@.len() - pattern@.len() + 1,
                base <= 10_000_000,
                base == p.len() * p.len() * 10,
                p.len() > 0,
                all_present(w, p),
                w == views(words@),
                p == views(pattern@),
                forall|k: int| 0 <= k < i ==> !occurs_at(w, p, k),
            decreases starts - i,
        {
            if phrase_at(words, pattern, i) {
                assert(occurs_at(w, p, i as int));
                return base + 20;
            }
            i = i + 1;
        }
        assert(!occurs(w, p));
        base
    }

    /// The intent of a message that was split into the given words.
    pub fn recognize_words(&self, words: &[String]) -> (intent: Intent)
        requires
            self.wf(),
        ensures
            intent == spec_recognize(self@, views(words@)),
            forall|k: int| first_best(self@, views(words@), k) ==> intent == self@[k].0,
            (forall|k: int| 0 <= k < self@.len() ==> match_score(views(words@), (#[trigger] self@[k]).1) == 0)
                ==> intent == Intent::Unknown,
    {
        let ghost w = views(words@);
        let ghost entries = self@;
        let mut best_match: Intent = Intent::Unknown;
        let mut best_score: usize = 0;
        let ghost mut best_at: int = -1;
        let mut i: usize = 0;
        while i < self.entries.len()
            invariant
                i <= self.entries@.len(),
                self.wf(),
                entries == self@,
                entries.len() == self.entries@.len(),
                w == views(words@),
                forall|k: int| 0 <= k < i ==> match_score(w, (#[trigger] entries[k]).1) <= best_score,
                best_at == -1 ==> best_score == 0 && best_match == Intent::Unknown,
                best_at != -1 ==> {
                    &&& 0 <= best_at < i
                    &&& best_score > 0
                    &&& best_score == match_score(w, entries[best_at].1)
                    &&& best_match == entries[best_at].0
                    &&& forall|k: int|
                        0 <= k < best_at ==> match_score(w, (#[trigger] entries[k]).1) < best_score
                },
            decreases self.entries@.len() - i,
        {
            assert(entries[i as int].1 == views(self.entries@[i as int].1@));
            let score: usize = self.calculate_match_score(words, self.entries[i].1.as_slice());
            if score > best_score {
                best_score = score;
                best_match = self.entries[i].0;
                proof {
                    best_at = i as int;
                }
            }
            i = i + 1;
        }
        proof {
            if best_at != -1 {
                assert(first_best(entries, w, best_at));
                let chosen = choose|k: int| first_best(entries, w, k);
                lemma_first_best_unique(entries, w, chosen, best_at);
                assert forall|k: int| first_best(entries, w, k) implies best_match == entries[k].0 by {
                    lemma_first_best_unique(entries, w, k, best_at);
                }
            } else {
                assert forall|k: int| !first_best(entries, w, k) by {
                    if 0 <= k < entries.len() {
                        assert(match_score(w, entries[k].1) <= 0);
                    }
                }
            }
        }
        best_match
    }

    /// The intent of a message: that of its words, after the message is put in
    /// lower case and split.
    pub fn recognize(&self, text: &str) -> (intent: Intent)
        requires
            self.wf(),
        ensures
            intent == spec_recognize(self@, words_of(lowercase_of(text@))),
    {
        let lower: String = to_lowercase(text);
        let words: Vec<String> = split_words(lower.as_str());
        self.recognize_words(words.as_slice())
    }
}

} // verus!
