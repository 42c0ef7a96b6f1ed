//! Text primitives: lower case, classes of characters, and splitting a text
//! into words.
//!
//! Which characters are white space or alphanumeric, and what the lower-case
//! form of a string is, is decided by the standard library's Unicode tables.
//! Those three decisions are named here and believed; the splitting and
//! trimming built on them is verified.

use vstd::prelude::*;
use vstd::string::{StrSliceExecFns, StringExecFns};

verus! {

/// The lower-case form of a text, as `str::to_lowercase` computes it.
pub uninterp spec fn lowercase_of(text: Seq<char>) -> Seq<char>;

/// Whether a character is white space, as `char::is_whitespace` decides it.
pub uninterp spec fn whitespace(c: char) -> bool;

/// Whether a character is a letter or a digit, as `char::is_alphanumeric`
/// decides it.
pub uninterp spec fn alphanumeric(c: char) -> bool;

/// The lower-case form of `text`.
///
/// Calls `str::to_lowercase`; the result is a function of the text alone and
/// is only named, not described.
#[verifier::external_body]
pub(crate) fn to_lowercase(text: &str) -> (lower: String)
    ensures
        lower@ == lowercase_of(text@),
{
    text.to_lowercase()
}

/// Whether `c` is white space.
///
/// Calls `char::is_whitespace`; the answer is a function of the character
/// alone and is only named.
#[verifier::external_body]
pub(crate) fn is_whitespace(c: char) -> (answer: bool)
    ensures
        answer == whitespace(c),
{
    c.is_whitespace()
}

/// Whether `c` is a letter or a digit.
///
/// Calls `char::is_alphanumeric`; the answer is a function of the character
/// alone and is only named.
#[verifier::external_body]
pub(crate) fn is_alphanumeric(c: char) -> (answer: bool)
    ensures
        answer == alphanumeric(c),
{
    c.is_alphanumeric()
}

/// The characters of a string, in order.
pub fn chars_of(text: &str) -> (chars: Vec<char>)
    ensures
        chars@ == text@,
{
    let mut chars: Vec<char> = Vec::new();
    for c in it: text.chars()
        invariant
            chars@ == it.seq().take(it.index() as int),
            it.seq() == text@,
    {
        chars.push(c);
    }
    chars
}

/// The text without its leading characters that are neither letter nor digit.
pub open spec fn trim_start(word: Seq<char>) -> Seq<char>
    decreases word.len(),
{
    if word.len() > 0 && !alphanumeric(word[0]) {
        trim_start(word.drop_first())
    } else {
        word
    }
}

/// The text without its trailing characters that are neither letter nor digit.
pub open spec fn trim_end(word: Seq<char>) -> Seq<char>
    decreases word.len(),
{
    if word.len() > 0 && !alphanumeric(word.last()) {
        trim_end(word.drop_last())
    } else {
        word
    }
}

/// The word that a run without white space yields: the run trimmed of leading
/// and trailing characters that are neither letter nor digit, or nothing where
/// that leaves it empty.
pub open spec fn word_of_run(run: Seq<char>) -> Seq<Seq<char>> {
    let word = trim_end(trim_start(run));
    if word.len() > 0 {
        seq![word]
    } else {
        Seq::empty()
    }
}

/// The words of `text`, read after the characters `run` of an unfinished run.
pub open spec fn words_after(run: Seq<char>, text: Seq<char>) -> Seq<Seq<char>>
    decreases text.len(),
{
    if text.len() == 0 {
        word_of_run(run)
    } else if whitespace(text[0]) {
        word_of_run(run) + words_after(Seq::empty(), text.drop_first())
    } else {
        words_after(run.push(text[0]), text.drop_first())
    }
}

/// The words of a text: its maximal runs without white space, each trimmed of
/// leading and trailing characters that are neither letter nor digit, without
/// the runs that trimming leaves empty.
pub open spec fn words_of(text: Seq<char>) -> Seq<Seq<char>> {
    words_after(Seq::empty(), text)
}

/// The views of a list of strings.
pub open spec fn views(words: Seq<String>) -> Seq<Seq<char>> {
    Seq::new(words.len(), |i: int| words[i]@)
}

/// Splits a text into words, as `words_of` defines them.
pub fn split_words(text: &str) -> (words: Vec<String>)
    ensures
        views(words@) == words_of(text@),
{
    let chars: Vec<char> = chars_of(text);
    let n: usize = chars.len();
    let mut words: Vec<String> = Vec::new();
    let mut i: usize = 0;
    proof {
        assert(chars@.skip(0) =~= chars@);
        assert(views(words@) =~= Seq::<Seq<char>>::empty());
        assert(Seq::<Seq<char>>::empty() + words_of(chars@) =~= words_of(chars@));
    }
    while i < n
        invariant
            i <= n,
            n == chars@.len(),
            chars@ == text@,
            words_of(chars@) == views(words@) + words_after(Seq::empty(), chars@.skip(i as int)),
        decreases n - i,
    {
        let ghost rest = chars@.skip(i as int);
        if is_whitespace(chars[i]) {
            proof {
                assert(rest.drop_first() =~= chars@.skip(i + 1));
                assert(trim_start(Seq::<char>::empty()) =~= Seq::<char>::empty());
                assert(word_of_run(Seq::<char>::empty()) =~= Seq::<Seq<char>>::empty());
                assert(Seq::<Seq<char>>::empty() + words_after(Seq::empty(), chars@.skip(i + 1))
                    =~= words_after(Seq::empty(), chars@.skip(i + 1)));
            }
            i = i + 1;
        } else {
            // the run without white space is chars[i..j]
            let mut j: usize = i + 1;
            proof {
                assert(rest.drop_first() =~= chars@.skip(i + 1));
                assert(Seq::<char>::empty().push(rest[0]) =~= chars@.subrange(i as int, i + 1));
            }
            while j < n && !is_whitespace(chars[j as usize])
                invariant
                    i < j <= n,
                    n == chars@.len(),
                    words_after(Seq::empty(), chars@.skip(i as int)) == words_after(
                        chars@.subrange(i as int, j as int),
                        chars@.skip(j as int),
                    ),
                decreases n - j,
            {
                proof {
                    assert(chars@.skip(j as int).drop_first() =~= chars@.skip(j + 1));
                    assert(chars@.subrange(i as int, j as int).push(chars@.skip(j as int)[0])
                        =~= chars@.subrange(i as int, j + 1));
                }
                j = j + 1;
            }
            let ghost run = chars@.subrange(i as int, j as int);
            let ghost next: int = if j < n {
                j + 1
            } else {
                n as int
            };
            proof {
                if j < n {
                    assert(chars@.skip(j as int).drop_first() =~= chars@.skip(j + 1));
                } else {
                    assert(chars@.skip(n as int) =~= Seq::<char>::empty());
                    assert(word_of_run(Seq::<char>::empty()) =~= Seq::<Seq<char>>::empty()) by {
                        assert(trim_start(Seq::<char>::empty()) =~= Seq::<char>::empty());
                    }
                    assert(words_after(Seq::empty(), chars@.skip(n as int)) =~= Seq::<
                        Seq<char>,
                    >::empty());
                    assert(word_of_run(run) + Seq::<Seq<char>>::empty() =~= word_of_run(run));
                }
                assert(words_after(Seq::empty(), chars@.skip(i as int)) == word_of_run(run)
                    + words_after(Seq::empty(), chars@.skip(next)));
            }
            let mut a: usize = i;
            while a < j && !is_alphanumeric(chars[a as usize])
                invariant
                    i <= a <= j <= n,
                    n == chars@.len(),
                    run == chars@.subrange(i as int, j as int),
                    trim_start(run) == trim_start(chars@.subrange(a as int, j as int)),
                decreases j - a,
            {
                proof {
                    assert(chars@.subrange(a as int, j as int).drop_first() =~= chars@.subrange(
                        a + 1,
                        j as int,
                    ));
                }
                a = a + 1;
            }
            let mut b: usize = j;
            while a < b && !is_alphanumeric(chars[(b - 1) as usize])
                invariant
                    a <= b <= j <= n,
                    n == chars@.len(),
                    trim_end(trim_start(run)) == trim_end(chars@.subrange(a as int, b as int)),
                decreases b - a,
            {
                proof {
                    assert(chars@.subrange(a as int, b as int).drop_last() =~= chars@.subrange(
                        a as int,
                        b - 1,
                    ));
                }
                b = b - 1;
            }
            proof {
                assert(trim_end(trim_start(run)) == chars@.subrange(a as int, b as int));
            }
            if a < b {
                let word: String = String::from_str(text.substring_char(a, b));
                proof {
                    let grown = words@.push(word);
                    assert(views(grown) =~= views(words@) + seq![word@]);
                    assert(word_of_run(run) =~= seq![word@]);
                    assert(views(words@) + (seq![word@] + words_after(
                        Seq::empty(),
                        chars@.skip(next),
                    )) =~= (views(words@) + seq![word@]) + words_after(
                        Seq::empty(),
                        chars@.skip(next),
                    ));
                }
                words.push(word);
            } else {
                proof {
                    assert(word_of_run(run) =~= Seq::<Seq<char>>::empty());
                    assert(Seq::<Seq<char>>::empty() + words_after(Seq::empty(), chars@.skip(next))
                        =~= words_after(Seq::empty(), chars@.skip(next)));
                }
            }
            i = if j < n {
                j + 1
            } else {
                n
            };
        }
    }
    proof {
        assert(chars@.skip(n as int) =~= Seq::<char>::empty());
        assert(trim_start(Seq::<char>::empty()) =~= Seq::<char>::empty());
        assert(word_of_run(Seq::<char>::empty()) =~= Seq::<Seq<char>>::empty());
        assert(views(words@) + Seq::<Seq<char>>::empty() =~= views(words@));
    }
    words
}

} // verus!
