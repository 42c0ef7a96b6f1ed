//! Extraction of dates, times, places, addresses and numbers from a message.
//!
//! The patterns are regular expressions, matched by the `regex` crate. What a
//! pattern matches in a text is named here and believed; turning the matches
//! into entities and ordering them is verified.

use vstd::prelude::*;
use vstd::string::StringExecFns;
use regex::Regex;

verus! {

/// What kind of thing an entity is.
#[derive(Debug, Clone, Copy, PartialEq, Eq, Hash, Structural)]
pub enum EntityType {
    Date,
    Time,
    Location,
    Person,
    Number,
    Email,
    Phone,
}

/// A piece of a message that stands for a date, a time, a place and so on.
#[derive(Debug)]
pub struct Entity {
    pub entity_type: EntityType,
    pub value: String,
    /// Where the match starts and ends in the message, in bytes.
    pub position: (usize, usize),
}

/// An entity with its value as a sequence of characters.
pub struct EntityView {
    pub entity_type: EntityType,
    pub value: Seq<char>,
    pub position: (usize, usize),
}

impl View for Entity {
    type V = EntityView;

    open spec fn view(&self) -> EntityView {
        EntityView { entity_type: self.entity_type, value: self.value@, position: self.position }
    }
}

impl Clone for Entity {
    fn clone(&self) -> (copy: Entity)
        ensures
            copy@ == self@,
    {
        Entity {
            entity_type: self.entity_type,
            value: self.value.clone(),
            position: (self.position.0, self.position.1),
        }
    }
}

/// One match of a pattern: the whole match with its start, its end and its
/// text, and the text of the first group, each where it took part.
pub type Capture = (Option<(usize, usize, String)>, Option<String>);

/// A match with its texts as sequences of characters.
pub type CaptureView = (Option<(usize, usize, Seq<char>)>, Option<Seq<char>>);

/// The successive matches of the regular expression `pattern` in `text`, as
/// the `regex` crate finds them, or `None` if it rejects the pattern.
pub uninterp spec fn pattern_captures(pattern: Seq<char>, text: Seq<char>) -> Option<
    Seq<(Option<(usize, usize, Seq<char>)>, Option<Seq<char>>)>,
>;

/// The view of one match.
pub open spec fn capture_view(capture: Capture) -> CaptureView {
    (
        match capture.0 {
            Some((start, end, text)) => Some((start, end, text@)),
            None => None,
        },
        match capture.1 {
            Some(group) => Some(group@),
            None => None,
        },
    )
}

/// The views of a list of matches.
pub open spec fn capture_views(captures: Seq<Capture>) -> Seq<CaptureView> {
    Seq::new(captures.len(), |i: int| capture_view(captures[i]))
}

/// The successive matches of `pattern` in `text`.
///
/// Compiles the pattern with `regex::Regex::new` and walks
/// `Regex::captures_iter`, keeping of each match the span and text of group 0
/// and the text of group 1. The result is a function of pattern and text alone
/// and is only named.
#[verifier::external_body]
pub(crate) fn captures(pattern: &str, text: &str) -> (found: Option<Vec<Capture>>)
    ensures
        match found {
            Some(list) => pattern_captures(pattern@, text@) == Some(capture_views(list@)),
            None => pattern_captures(pattern@, text@) is None,
        },
{
    match Regex::new(pattern) {
        Err(_) => None,
        Ok(regex) => Some(
            regex.captures_iter(text).map(
                |c| (
                    c.get(0).map(|m| (m.start(), m.end(), m.as_str().to_string())),
                    c.get(1).map(|m| m.as_str().to_string()),
                ),
            ).collect(),
        ),
    }
}

/// The entity that a match yields: none where the whole match is missing; else
/// one at the span of the whole match, whose value is the text of the first
/// group for a location that has one, and the text of the whole match
/// otherwise.
pub open spec fn entity_of(kind: EntityType, capture: CaptureView) -> Option<EntityView> {
    match capture.0 {
        None => None,
        Some((start, end, text)) => Some(
            EntityView {
                entity_type: kind,
                value: if kind == EntityType::Location && capture.1 is Some {
                    capture.1->0
                } else {
                    text
                },
                position: (start, end),
            },
        ),
    }
}

/// The entities that a list of matches yields, in order.
pub open spec fn entities_of(kind: EntityType, captures: Seq<CaptureView>) -> Seq<EntityView>
    decreases captures.len(),
{
    if captures.len() == 0 {
        Seq::empty()
    } else {
        match entity_of(kind, captures.last()) {
            Some(entity) => entities_of(kind, captures.drop_last()).push(entity),
            None => entities_of(kind, captures.drop_last()),
        }
    }
}

/// The entities of kind `kind` that `pattern` finds in `text`: none if the
/// pattern is rejected.
pub open spec fn found_by(kind: EntityType, pattern: Seq<char>, text: Seq<char>) -> Seq<EntityView> {
    match pattern_captures(pattern, text) {
        Some(captures) => entities_of(kind, captures),
        None => Seq::empty(),
    }
}

/// The entities that the patterns find in `text`, pattern after pattern.
pub open spec fn found_by_all(patterns: Seq<(EntityType, Seq<char>)>, text: Seq<char>) -> Seq<
    EntityView,
>
    decreases patterns.len(),
{
    if patterns.len() == 0 {
        Seq::empty()
    } else {
        found_by_all(patterns.drop_last(), text) + found_by(
            patterns.last().0,
            patterns.last().1,
            text,
        )
    }
}

/// Where an entity that starts at `start` goes into a list ordered by start:
/// behind the last entity that starts no later.
pub open spec fn insertion_index(sorted: Seq<EntityView>, start: usize) -> int
    decreases sorted.len(),
{
    if sorted.len() == 0 {
        0
    } else if sorted.last().position.0 <= start {
        sorted.len() as int
    } else {
        insertion_index(sorted.drop_last(), start)
    }
}

/// The entities ordered by where they start; entities with the same start stay
/// in the order in which they were found.
pub open spec fn sort_by_start(entities: Seq<EntityView>) -> Seq<EntityView>
    decreases entities.len(),
{
    if entities.len() == 0 {
        Seq::empty()
    } else {
        let sorted = sort_by_start(entities.drop_last());
        sorted.insert(insertion_index(sorted, entities.last().position.0), entities.last())
    }
}

/// Whether the entities are in order of their starts.
pub open spec fn ordered_by_start(entities: Seq<EntityView>) -> bool {
    forall|i: int, j: int|
        0 <= i < j < entities.len() ==> (#[trigger] entities[i]).position.0 <= (
        #[trigger] entities[j]).position.0
}

/// The entities of kind `kind` among `entities`, in order.
pub open spec fn of_kind(entities: Seq<EntityView>, kind: EntityType) -> Seq<EntityView>
    decreases entities.len(),
{
    if entities.len() == 0 {
        Seq::empty()
    } else if entities.last().entity_type == kind {
        of_kind(entities.drop_last(), kind).push(entities.last())
    } else {
        of_kind(entities.drop_last(), kind)
    }
}

/// The views of a list of entities.
pub open spec fn entity_views(entities: Seq<Entity>) -> Seq<EntityView> {
    Seq::new(entities.len(), |i: int| entities[i]@)
}

/// The insertion index lies within the list; everything before it starts no
/// later than `start`, everything from it on starts later.
pub proof fn lemma_insertion_index(sorted: Seq<EntityView>, start: usize)
    requires
        ordered_by_start(sorted),
    ensures
        0 <= insertion_index(sorted, start) <= sorted.len(),
        forall|i: int|
            0 <= i < insertion_index(sorted, start) ==> (#[trigger] sorted[i]).position.0 <= start,
        forall|i: int|
            insertion_index(sorted, start) <= i < sorted.len() ==> (#[trigger] sorted[i]).position.0
                > start,
    decreases sorted.len(),
{
    if sorted.len() > 0 {
        if sorted.last().position.0 <= start {
            assert forall|i: int| 0 <= i < sorted.len() implies (#[trigger] sorted[i]).position.0
                <= start by {
                if i < sorted.len() - 1 {
                    assert(sorted[i].position.0 <= sorted[sorted.len() - 1].position.0);
                }
            }
        } else {
            let front = sorted.drop_last();
            assert forall|i: int, j: int| 0 <= i < j < front.len() implies (
            #[trigger] front[i]).position.0 <= (#[trigger] front[j]).position.0 by {
                assert(front[i] == sorted[i]);
                assert(front[j] == sorted[j]);
            }
            lemma_insertion_index(front, start);
            assert forall|i: int| 0 <= i < insertion_index(sorted, start) implies (
            #[trigger] sorted[i]).position.0 <= start by {
                assert(front[i] == sorted[i]);
            }
            assert forall|i: int| insertion_index(sorted, start) <= i < sorted.len() implies (
            #[trigger] sorted[i]).position.0 > start by {
                if i < sorted.len() - 1 {
                    assert(front[i] == sorted[i]);
                }
            }
        }
    }
}

/// Ordering keeps every entity, each as often as it was found, and puts them
/// in order of their starts.
pub proof fn lemma_sort_by_start(entities: Seq<EntityView>)
    ensures
        ordered_by_start(sort_by_start(entities)),
        sort_by_start(entities).len() == entities.len(),
        sort_by_start(entities).to_multiset() == entities.to_multiset(),
    decreases entities.len(),
{
    broadcast use vstd::seq_lib::group_to_multiset_ensures;

    if entities.len() > 0 {
        let front = entities.drop_last();
        let last = entities.last();
        let sorted = sort_by_start(front);
        lemma_sort_by_start(front);
        lemma_insertion_index(sorted, last.position.0);
        let at = insertion_index(sorted, last.position.0);
        let result = sorted.insert(at, last);
        assert forall|i: int, j: int| 0 <= i < j < result.len() implies (
        #[trigger] result[i]).position.0 <= (#[trigger] result[j]).position.0 by {
            if i < at && j > at {
                assert(result[i] == sorted[i]);
                assert(result[j] == sorted[j - 1]);
            } else if i < at && j < at {
                assert(result[i] == sorted[i]);
                assert(result[j] == sorted[j]);
            } else if i > at {
                assert(result[i] == sorted[i - 1]);
                assert(result[j] == sorted[j - 1]);
            } else if i == at {
                assert(result[j] == sorted[j - 1]);
            }
        }
        assert(entities =~= front.push(last));
        vstd::seq_lib::to_multiset_insert(sorted, at, last);
    } else {
        assert(entities =~= Seq::<EntityView>::empty());
    }
}

/// The pattern of a date.
pub const DATE_PATTERN: &'static str = "\\b(\\d{1,2}/\\d{1,2}/\\d{4}|\\d{4}-\\d{2}-\\d{2}|today|tomorrow|monday|tuesday|wednesday|thursday|friday|saturday|sunday)\\b";

/// The pattern of a time of day.
pub const TIME_PATTERN: &'static str = "\\b(\\d{1,2}:\\d{2}(?:\\s?(?:am|pm))?|\\d{1,2}\\s?(?:am|pm))\\b";

/// The pattern of a place, after a preposition.
pub const LOCATION_PATTERN: &'static str = "\\b(?:in|at|from|to)\\s+([A-Z][a-z]+(?:\\s+[A-Z][a-z]+)*)\\b";

/// The pattern of a mail address.
pub const EMAIL_PATTERN: &'static str = "\\b[a-zA-Z0-9._%+-]+@[a-zA-Z0-9.-]+\\.[a-zA-Z]{2,}\\b";

/// The pattern of a telephone number.
pub const PHONE_PATTERN: &'static str = "\\b(\\+?\\d{1,3}[-.\\s]?)?\\(?\\d{3}\\)?[-.\\s]?\\d{3}[-.\\s]?\\d{4}\\b";

/// The pattern of a number.
pub const NUMBER_PATTERN: &'static str = "\\b\\d+\\b";

/// The patterns of a new extractor, in the order in which it applies them.
pub open spec fn default_patterns() -> Seq<(EntityType, Seq<char>)> {
    seq![
        (EntityType::Date, DATE_PATTERN@),
        (EntityType::Time, TIME_PATTERN@),
        (EntityType::Location, LOCATION_PATTERN@),
        (EntityType::Email, EMAIL_PATTERN@),
        (EntityType::Phone, PHONE_PATTERN@),
        (EntityType::Number, NUMBER_PATTERN@),
    ]
}

/// The patterns of an extractor, as sequences of characters.
pub open spec fn pattern_views(patterns: Seq<(EntityType, String)>) -> Seq<(EntityType, Seq<char>)> {
    Seq::new(patterns.len(), |i: int| (patterns[i].0, patterns[i].1@))
}

/// Extracts entities by regular expressions.
pub struct EntityExtractor {
    patterns: Vec<(EntityType, String)>,
}

impl View for EntityExtractor {
    type V = Seq<(EntityType, Seq<char>)>;

    closed spec fn view(&self) -> Seq<(EntityType, Seq<char>)> {
        pattern_views(self.patterns@)
    }
}

/// Puts `entity` into the ordered list, behind the entities that start no
/// later.
fn insert_ordered(entities: &mut Vec<Entity>, entity: Entity)
    ensures
        entity_views(final(entities)@) == entity_views(old(entities)@).insert(
            insertion_index(entity_views(old(entities)@), entity.position.0),
            entity@,
        ),
{
    let ghost before = entity_views(entities@);
    let start: usize = entity.position.0;
    let mut at: usize = entities.len();
    proof {
        assert(before.take(at as int) =~= before);
    }
    while at > 0 && entities[at - 1].position.0 > start
        invariant
            at <= entities@.len(),
            before == entity_views(entities@),
            insertion_index(before, start) == insertion_index(before.take(at as int), start),
        decreases at,
    {
        proof {
            assert(before.take(at as int).drop_last() =~= before.take(at - 1));
        }
        at = at - 1;
    }
    proof {
        assert(insertion_index(before.take(at as int), start) == at);
        assert(entity_views(entities@.insert(at as int, entity)) =~= before.insert(at as int, entity@));
    }
    entities.insert(at, entity);
}

/// The matches found for each kind of entity, as sequences of characters.
pub open spec fn finding_views(findings: Seq<(EntityType, Vec<Capture>)>) -> Seq<
    (EntityType, Seq<CaptureView>),
> {
    Seq::new(findings.len(), |i: int| (findings[i].0, capture_views(findings[i].1@)))
}

/// The entities that the matches yield, kind after kind.
pub open spec fn entities_of_all(findings: Seq<(EntityType, Seq<CaptureView>)>) -> Seq<EntityView>
    decreases findings.len(),
{
    if findings.len() == 0 {
        Seq::empty()
    } else {
        entities_of_all(findings.drop_last()) + entities_of(findings.last().0, findings.last().1)
    }
}

/// The entities that the matches yield, ordered by where they start; entities
/// with the same start stay in the order of the matches.
pub fn assemble(findings: &Vec<(EntityType, Vec<Capture>)>) -> (entities: Vec<Entity>)
    ensures
        entity_views(entities@) == sort_by_start(entities_of_all(finding_views(findings@))),
        ordered_by_start(entity_views(entities@)),
{
    let ghost given = finding_views(findings@);
    let mut entities: Vec<Entity> = Vec::new();
    let ghost mut found: Seq<EntityView> = Seq::empty();
    let mut k: usize = 0;
    proof {
        assert(entity_views(entities@) =~= Seq::<EntityView>::empty());
        assert(given.take(0) =~= Seq::<(EntityType, Seq<CaptureView>)>::empty());
    }
    while k < findings.len()
        invariant
            k <= findings@.len(),
            given == finding_views(findings@),
            found == entities_of_all(given.take(k as int)),
            entity_views(entities@) == sort_by_start(found),
        decreases findings@.len() - k,
    {
        let kind: EntityType = findings[k].0;
        let ghost earlier = found;
        let ghost all = capture_views(findings@[k as int].1@);
        let mut j: usize = 0;
        proof {
            assert(given.take(k + 1).drop_last() =~= given.take(k as int));
            assert(given.take(k + 1).last() == (kind, all));
            assert(all.take(0) =~= Seq::<CaptureView>::empty());
            assert(earlier + Seq::<EntityView>::empty() =~= earlier);
        }
        while j < findings[k].1.len()
            invariant
                k < findings@.len(),
                j <= findings@[k as int].1@.len(),
                kind == findings@[k as int].0,
                all == capture_views(findings@[k as int].1@),
                found == earlier + entities_of(kind, all.take(j as int)),
                entity_views(entities@) == sort_by_start(found),
            decreases findings@[k as int].1@.len() - j,
        {
            proof {
                assert(all.take(j + 1).drop_last() =~= all.take(j as int));
                assert(all.take(j + 1).last() == capture_view(findings@[k as int].1@[j as int]));
            }
            match &findings[k].1[j].0 {
                None => {},
                Some((start, end, whole)) => {
                    // a location is named by the first group where there is one
                    let value: String = match &findings[k].1[j].1 {
                        Some(group) => if kind == EntityType::Location {
                            group.clone()
                        } else {
                            whole.clone()
                        },
                        None => whole.clone(),
                    };
                    let entity = Entity { entity_type: kind, value, position: (*start, *end) };
                    proof {
                        let sooner = entities_of(kind, all.take(j as int));
                        assert(entity_of(kind, capture_view(findings@[k as int].1@[j as int]))
                            == Some(entity@));
                        assert((earlier + sooner).push(entity@) =~= earlier + sooner.push(entity@));
                        assert(found.push(entity@).drop_last() =~= found);
                        found = found.push(entity@);
                    }
                    insert_ordered(&mut entities, entity);
                },
            }
            j = j + 1;
        }
        proof {
            assert(all.take(j as int) =~= all);
        }
        k = k + 1;
    }
    proof {
        assert(given.take(k as int) =~= given);
        lemma_sort_by_start(found);
    }
    entities
}

impl EntityExtractor {
    /// An extractor with the default patterns.
    pub fn new() -> (extractor: Self)
        ensures
            extractor@ == default_patterns(),
    {
        let mut patterns: Vec<(EntityType, String)> = Vec::new();
        patterns.push((EntityType::Date, String::from_str(DATE_PATTERN)));
        patterns.push((EntityType::Time, String::from_str(TIME_PATTERN)));
        patterns.push((EntityType::Location, String::from_str(LOCATION_PATTERN)));
        patterns.push((EntityType::Email, String::from_str(EMAIL_PATTERN)));
        patterns.push((EntityType::Phone, String::from_str(PHONE_PATTERN)));
        patterns.push((EntityType::Number, String::from_str(NUMBER_PATTERN)));
        let extractor = EntityExtractor { patterns };
        assert(extractor@ =~= default_patterns());
        extractor
    }

    /// The entities that the patterns find in `text`, ordered by where they
    /// start.
    pub fn extract(&self, text: &str) -> (entities: Vec<Entity>)
        ensures
            entity_views(entities@) == sort_by_start(found_by_all(self@, text@)),
            ordered_by_start(entity_views(entities@)),
    {
        let mut findings: Vec<(EntityType, Vec<Capture>)> = Vec::new();
        let mut k: usize = 0;
        proof {
            assert(self@.take(0) =~= Seq::<(EntityType, Seq<char>)>::empty());
            assert(finding_views(findings@) =~= Seq::<(EntityType, Seq<CaptureView>)>::empty());
        }
        while k < self.patterns.len()
            invariant
                k <= self.patterns@.len(),
                self@.len() == self.patterns@.len(),
                entities_of_all(finding_views(findings@)) == found_by_all(
                    self@.take(k as int),
                    text@,
                ),
            decreases self.patterns@.len() - k,
        {
            let kind: EntityType = self.patterns[k].0;
            // a pattern that is rejected finds nothing
            let list: Vec<Capture> = match captures(self.patterns[k].1.as_str(), text) {
                Some(list) => list,
                None => Vec::new(),
            };
            proof {
                let pattern = self.patterns@[k as int].1@;
                assert(self@.take(k + 1).drop_last() =~= self@.take(k as int));
                assert(self@.take(k + 1).last() == (kind, pattern));
                assert(capture_views(Seq::<Capture>::empty()) =~= Seq::<CaptureView>::empty());
                assert(entities_of(kind, capture_views(list@)) == found_by(kind, pattern, text@));
                let grown = finding_views(findings@.push((kind, list)));
                assert(grown.drop_last() =~= finding_views(findings@));
                assert(grown.last() == (kind, capture_views(list@)));
            }
            findings.push((kind, list));
            k = k + 1;
        }
        proof {
            assert(self@.take(k as int) =~= self@);
        }
        assemble(&findings)
    }

    /// The entities of kind `entity_type` that the patterns find in `text`,
    /// ordered by where they start.
    pub fn extract_by_type(&self, text: &str, entity_type: EntityType) -> (entities: Vec<Entity>)
        ensures
            entity_views(entities@) == of_kind(
                sort_by_start(found_by_all(self@, text@)),
                entity_type,
            ),
    {
        let all: Vec<Entity> = self.extract(text);
        let mut entities: Vec<Entity> = Vec::new();
        let mut i: usize = 0;
        proof {
            assert(entity_views(all@).take(0) =~= Seq::<EntityView>::empty());
            assert(entity_views(entities@) =~= Seq::<EntityView>::empty());
        }
        while i < all.len()
            invariant
                i <= all@.len(),
                entity_views(entities@) == of_kind(entity_views(all@).take(i as int), entity_type),
            decreases all@.len() - i,
        {
            proof {
                let views = entity_views(all@);
                assert(views.take(i + 1).drop_last() =~= views.take(i as int));
                assert(views.take(i + 1).last() == all@[i as int]@);
            }
            if all[i].entity_type == entity_type {
                let entity: Entity = all[i].clone();
                proof {
                    assert(entity_views(entities@.push(entity)) =~= entity_views(entities@).push(
                        entity@,
                    ));
                }
                entities.push(entity);
            }
            i = i + 1;
        }
        proof {
            assert(entity_views(all@).take(i as int) =~= entity_views(all@));
        }
        entities
    }
}

} // verus!
