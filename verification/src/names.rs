//! The stored forms of the names that a user types.

use vstd::prelude::*;
use crate::error::TrackerError;
use crate::text::{
    a_space_parts_words, a_text_without_spaces_is_one_word, is_ascii, is_space, is_word, join_words,
    joined, joined_words_come_apart, joining_puts_single_spaces, lowercase, opt_text, small_letters,
    small_letters_keep_joins, small_letters_keep_words, to_lowercase, trim, trim_start, trimmed,
    trimming_is_idempotent, trimming_keeps_words, words, words_are_words, words_of,
};

verus! {

/// An optional text without the spaces around it; a blank one counts as absent.
pub open spec fn optional_name(value: Option<Seq<char>>) -> Option<Seq<char>> {
    match value {
        Some(text) => if trimmed(text).len() > 0 {
            Some(trimmed(text))
        } else {
            None
        },
        None => None,
    }
}

/// The stored form of a subtask name: trimmed, with runs of spaces collapsed to
/// single ones.
pub open spec fn subtask_name(value: Seq<char>) -> Seq<char> {
    joined(words(value))
}

/// The value by which subtask names are told apart.
pub open spec fn subtask_key(value: Seq<char>) -> Seq<char> {
    lowercase(subtask_name(value))
}

/// The trimmed form of a task name, which must not be blank.
pub fn normalize_required(value: &str) -> (result: Result<String, TrackerError>)
    ensures
        match result {
            Ok(name) => trimmed(value@).len() > 0 && name@ == trimmed(value@),
            Err(error) => trimmed(value@).len() == 0 && error is MissingTaskName,
        },
{
    let value = trim(value);
    if value.is_empty() {
        return Err(TrackerError::MissingTaskName);
    }
    Ok(value.to_owned())
}

/// The trimmed form of an optional text; a blank one becomes `None`.
pub fn normalize_optional(value: Option<String>) -> (result: Option<String>)
    ensures
        opt_text(result) == optional_name(opt_text(value)),
{
    match value {
        Some(value) => {
            let value = trim(value.as_str());
            if value.is_empty() {
                None
            } else {
                Some(value.to_owned())
            }
        },
        None => None,
    }
}

/// The stored form of a subtask name.
pub fn normalize_subtask_name(value: &str) -> (result: String)
    ensures
        result@ == subtask_name(value@),
{
    join_words(&words_of(value))
}

/// The value a subtask name is deduplicated on.
pub fn subtask_name_key(value: &str) -> (result: String)
    ensures
        result@ == subtask_key(value@),
        result@.len() == 0 <==> subtask_name(value@).len() == 0,
{
    to_lowercase(normalize_subtask_name(value).as_str())
}

/// A stored subtask name is its own stored form.
pub proof fn stored_names_are_stable(value: Seq<char>)
    ensures
        subtask_name(subtask_name(value)) == subtask_name(value),
        subtask_key(subtask_name(value)) == subtask_key(value),
{
    words_are_words(value);
    joined_words_come_apart(words(value));
}

/// Subtask names made of the same words share a key, whatever spaces stand
/// between and around the words.
pub proof fn spacing_does_not_matter(a: Seq<char>, b: Seq<char>)
    requires
        words(a) == words(b),
    ensures
        subtask_name(a) == subtask_name(b),
        subtask_key(a) == subtask_key(b),
{
}

/// Spaces around a subtask name do not change its stored form or its key.
pub proof fn surrounding_spaces_do_not_matter(value: Seq<char>)
    ensures
        subtask_name(trimmed(value)) == subtask_name(value),
        subtask_key(trimmed(value)) == subtask_key(value),
{
    trimming_keeps_words(value);
}

/// Subtask names in ASCII that differ in the case of letters at most share a key.
pub proof fn letter_case_does_not_matter(a: Seq<char>, b: Seq<char>)
    requires
        is_ascii(a),
        is_ascii(b),
        small_letters(a) == small_letters(b),
    ensures
        subtask_key(a) == subtask_key(b),
{
    small_letters_keep_words(a);
    small_letters_keep_words(b);
    small_letters_keep_joins(words(a));
    small_letters_keep_joins(words(b));
}

/// A stored subtask name neither starts nor ends with a space, and holds no two
/// spaces in a row.
pub proof fn stored_names_are_tidy(value: Seq<char>)
    ensures
        subtask_name(value).len() > 0 ==> !is_space(subtask_name(value)[0]) && !is_space(
            subtask_name(value).last(),
        ),
        forall|i: int|
            0 <= i < subtask_name(value).len() - 1 && is_space(#[trigger] subtask_name(value)[i])
                ==> subtask_name(value)[i] == ' ' && !is_space(subtask_name(value)[i + 1]),
{
    words_are_words(value);
    lemma_joined_is_tidy(words(value));
}

proof fn lemma_joined_is_tidy(parts: Seq<Seq<char>>)
    requires
        forall|i: int| 0 <= i < parts.len() ==> is_word(#[trigger] parts[i]),
    ensures
        parts.len() > 0 ==> joined(parts).len() > 0,
        joined(parts).len() > 0 ==> !is_space(joined(parts)[0]) && !is_space(joined(parts).last()),
        forall|i: int|
            0 <= i < joined(parts).len() - 1 && is_space(#[trigger] joined(parts)[i])
                ==> joined(parts)[i] == ' ' && !is_space(joined(parts)[i + 1]),
    decreases parts.len(),
{
    if parts.len() == 1 {
        assert(is_word(parts[0]));
    } else if parts.len() > 1 {
        let first = parts[0];
        let others = parts.drop_first();
        assert(is_word(first));
        assert forall|i: int| 0 <= i < others.len() implies is_word(#[trigger] others[i]) by {
            assert(others[i] == parts[i + 1]);
        }
        lemma_joined_is_tidy(others);
        let s = joined(parts);
        let t = joined(others);
        let n = first.len() as int;
        assert(s == first + seq![' '] + t);
        assert(s[0] == first[0]);
        assert(s.last() == t.last());
        assert forall|i: int| 0 <= i < s.len() - 1 && is_space(#[trigger] s[i]) implies s[i] == ' '
            && !is_space(s[i + 1]) by {
            if i < n {
                assert(s[i] == first[i]);
            } else if i == n {
                assert(s[i + 1] == t[0]);
            } else {
                assert(s[i] == t[i - n - 1]);
                assert(s[i + 1] == t[i - n]);
            }
        }
    }
}

/// A blank name, and no other, has an empty stored form.
pub proof fn blank_names_are_empty(value: Seq<char>)
    ensures
        subtask_name(value).len() == 0 <==> trimmed(value).len() == 0,
{
    trimming_keeps_words(value);
    trimming_is_idempotent(value);
    words_are_words(value);
    lemma_joined_is_tidy(words(value));
    let t = trimmed(value);
    if t.len() > 0 {
        assert(trim_start(t) == t);
        assert(words(t).len() > 0);
    } else {
        assert(words(t).len() == 0);
    }
}

/// The stored form of a subtask name keeps every letter and puts one space wherever
/// spaces part words: a name without spaces stays, and one that a space parts is the
/// stored forms of its parts with a single space between them.
pub proof fn stored_names_keep_their_words(a: Seq<char>, c: char, b: Seq<char>)
    requires
        is_space(c),
    ensures
        (forall|i: int| 0 <= i < a.len() ==> !is_space(#[trigger] a[i])) ==> subtask_name(a) == a,
        subtask_name(a + seq![c] + b) == (if subtask_name(a).len() == 0 {
            subtask_name(b)
        } else if subtask_name(b).len() == 0 {
            subtask_name(a)
        } else {
            subtask_name(a) + seq![' '] + subtask_name(b)
        }),
{
    if forall|i: int| 0 <= i < a.len() ==> !is_space(#[trigger] a[i]) {
        a_text_without_spaces_is_one_word(a);
        joining_puts_single_spaces(Seq::empty(), a);
        assert(subtask_name(a) == a);
    }
    a_space_parts_words(a, c, b);
    words_are_words(a);
    words_are_words(b);
    lemma_joined_is_tidy(words(a));
    lemma_joined_is_tidy(words(b));
    lemma_join_of_both(words(a), words(b));
    if words(a).len() == 0 {
        assert(words(a) + words(b) == words(b));
    }
    if words(b).len() == 0 {
        assert(words(a) + words(b) == words(a));
    }
}

/// Joined, two rows of texts are each joined with a single space between them.
proof fn lemma_join_of_both(a: Seq<Seq<char>>, b: Seq<Seq<char>>)
    ensures
        a.len() > 0 && b.len() > 0 ==> joined(a + b) == joined(a) + seq![' '] + joined(b),
        a.len() == 0 ==> joined(a).len() == 0,
        b.len() == 0 ==> joined(b).len() == 0,
    decreases b.len(),
{
    if a.len() > 0 && b.len() > 0 {
        let rest = b.drop_last();
        let last = b.last();
        lemma_join_of_both(a, rest);
        assert(a + b == (a + rest).push(last));
        assert(b == rest.push(last));
        joining_puts_single_spaces(a + rest, last);
        joining_puts_single_spaces(rest, last);
        if rest.len() == 0 {
            assert(a + rest == a);
            assert(b == seq![last]);
        } else {
            assert(joined(a + b) == joined(a) + seq![' '] + joined(b));
        }
    }
}

/// The key of a subtask name is its stored form in lowercase: letter by letter where
/// it is in ASCII.
pub proof fn keys_are_stored_names_in_lowercase(value: Seq<char>)
    ensures
        subtask_key(value) == lowercase(subtask_name(value)),
        (forall|k: int|
            0 <= k < subtask_name(value).len() ==> (#[trigger] subtask_name(value)[k]) as int
                <= 127) ==> subtask_key(value).len() == subtask_name(value).len() && forall|i: int|
            0 <= i < subtask_name(value).len() ==> (#[trigger] subtask_key(value)[i]) as int == (
            if 65 <= subtask_name(value)[i] as int <= 90 {
                subtask_name(value)[i] as int + 32
            } else {
                subtask_name(value)[i] as int
            }),
{
}

/// What is kept of an optional text is the text without the spaces around it, and
/// nothing where it is blank or absent.
pub proof fn optional_texts_are_kept_trimmed(text: Seq<char>)
    ensures
        optional_name(None) is None,
        trimmed(text).len() == 0 ==> optional_name(Some(text)) is None,
        trimmed(text).len() > 0 ==> optional_name(Some(text)) == Some(trimmed(text)),
{
}

} // verus!
