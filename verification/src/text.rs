//! Text as sequences of characters: trimming, words, numbers and order.

use vstd::prelude::*;
use vstd::string::StrSliceExecFns;
use vstd::string::StringExecFns;

verus! {

/// Whether a character separates words, which is whether it has the Unicode
/// `White_Space` property.
pub open spec fn is_space(c: char) -> bool {
    let code = c as int;
    ||| 0x9 <= code <= 0xd
    ||| code == 0x20
    ||| code == 0x85
    ||| code == 0xa0
    ||| code == 0x1680
    ||| 0x2000 <= code <= 0x200a
    ||| code == 0x2028
    ||| code == 0x2029
    ||| code == 0x202f
    ||| code == 0x205f
    ||| code == 0x3000
}

/// `char::is_whitespace`: reports whether a character has the Unicode `White_Space`
/// property, which the characters that [`is_space`] lists have and no others.
pub assume_specification[ char::is_whitespace ](c: char) -> (result: bool)
    ensures
        result == is_space(c),
;

/// `String::push`: appends one character.
pub assume_specification[ String::push ](text: &mut String, c: char)
    ensures
        final(text)@ == old(text)@.push(c),
;

/// Whether a text holds ASCII characters only.
pub open spec fn is_ascii(s: Seq<char>) -> bool {
    forall|i: int| 0 <= i < s.len() ==> (#[trigger] s[i]) as int <= 127
}

/// An ASCII capital letter made small; any other character stays.
pub open spec fn small_letter(c: char) -> char {
    if 'A' as int <= c as int <= 'Z' as int {
        ((c as u8) + 32) as u8 as char
    } else {
        c
    }
}

/// A text with its ASCII capital letters made small.
pub open spec fn small_letters(s: Seq<char>) -> Seq<char> {
    s.map_values(|c: char| small_letter(c))
}

/// What `str::to_lowercase` makes of a text with characters beyond ASCII.
pub uninterp spec fn lowercase_letters(s: Seq<char>) -> Seq<char>;

/// The lowercase form of a text.
pub open spec fn lowercase(s: Seq<char>) -> Seq<char> {
    if is_ascii(s) {
        small_letters(s)
    } else {
        lowercase_letters(s)
    }
}

/// `str::to_lowercase`: the Unicode lowercase form of a text. Of ASCII text, the
/// letters `A` to `Z` become `a` to `z` and the rest stays. Of other texts the
/// mapping is only named; since every character maps to one or more characters,
/// none of them becomes empty.
#[verifier::external_body]
pub(crate) fn to_lowercase(s: &str) -> (result: String)
    ensures
        is_ascii(s@) ==> result@ == small_letters(s@),
        !is_ascii(s@) ==> result@ == lowercase_letters(s@),
        result@.len() == 0 <==> s@.len() == 0,
{
    s.to_lowercase()
}

// ---------------------------------------------------------------------------
// Characters and equality
// ---------------------------------------------------------------------------

/// The characters of a text.
pub fn chars_of(s: &str) -> (result: Vec<char>)
    ensures
        result@ == s@,
{
    let mut out: Vec<char> = Vec::new();
    for c in it: s.chars()
        invariant
            it.seq() == s@,
            out@ == s@.take(it.index()),
    {
        proof {
            assert(s@.take(it.index() + 1) == s@.take(it.index()).push(s@[it.index()]));
        }
        out.push(c);
    }
    assert(s@.take(s@.len() as int) == s@);
    out
}

/// Whether two texts hold the same characters.
pub fn same_text(a: &str, b: &str) -> (result: bool)
    ensures
        result == (a@ == b@),
{
    a.to_owned() == b.to_owned()
}

/// The text of an optional string.
pub open spec fn opt_text(value: Option<String>) -> Option<Seq<char>> {
    match value {
        Some(text) => Some(text@),
        None => None,
    }
}

/// Whether two optional texts are both absent, or hold the same characters.
pub fn same_opt_text(a: &Option<String>, b: &Option<String>) -> (result: bool)
    ensures
        result == (opt_text(*a) == opt_text(*b)),
{
    match (a, b) {
        (Some(x), Some(y)) => same_text(x.as_str(), y.as_str()),
        (None, None) => true,
        _ => false,
    }
}

// ---------------------------------------------------------------------------
// Order
// ---------------------------------------------------------------------------

/// Strict order of texts, character by character; a prefix comes first.
pub open spec fn text_before(a: Seq<char>, b: Seq<char>) -> bool
    decreases a.len(),
{
    if b.len() == 0 {
        false
    } else if a.len() == 0 {
        true
    } else if a[0] != b[0] {
        (a[0] as int) < (b[0] as int)
    } else {
        text_before(a.drop_first(), b.drop_first())
    }
}

/// Whether `a` comes strictly before `b`.
pub fn is_before(a: &str, b: &str) -> (result: bool)
    ensures
        result == text_before(a@, b@),
{
    let x = chars_of(a);
    let y = chars_of(b);
    let mut i: usize = 0;
    assert(a@.skip(0) == a@ && b@.skip(0) == b@);
    while i < x.len() && i < y.len() && x[i] == y[i]
        invariant
            x@ == a@,
            y@ == b@,
            i <= x.len(),
            i <= y.len(),
            text_before(a@, b@) == text_before(a@.skip(i as int), b@.skip(i as int)),
        decreases x.len() - i,
    {
        proof {
            assert(a@.skip(i as int).drop_first() == a@.skip(i + 1));
            assert(b@.skip(i as int).drop_first() == b@.skip(i + 1));
        }
        i += 1;
    }
    if i >= y.len() {
        false
    } else if i >= x.len() {
        true
    } else {
        x[i] < y[i]
    }
}

/// Texts are never before themselves.
pub proof fn text_order_is_irreflexive(a: Seq<char>)
    ensures
        !text_before(a, a),
    decreases a.len(),
{
    if a.len() > 0 {
        text_order_is_irreflexive(a.drop_first());
    }
}

/// The order of texts is transitive.
pub proof fn text_order_is_transitive(a: Seq<char>, b: Seq<char>, c: Seq<char>)
    requires
        text_before(a, b),
        text_before(b, c),
    ensures
        text_before(a, c),
    decreases a.len(),
{
    if a.len() > 0 && a[0] == b[0] && b[0] == c[0] {
        text_order_is_transitive(a.drop_first(), b.drop_first(), c.drop_first());
    }
}

/// Of two different texts one comes first.
pub proof fn text_order_is_total(a: Seq<char>, b: Seq<char>)
    ensures
        a == b || text_before(a, b) || text_before(b, a),
    decreases a.len(),
{
    if a.len() > 0 && b.len() > 0 && a[0] == b[0] {
        text_order_is_total(a.drop_first(), b.drop_first());
        if a.drop_first() == b.drop_first() {
            assert(a == seq![a[0]] + a.drop_first());
            assert(b == seq![b[0]] + b.drop_first());
        }
    } else if a.len() == 0 && b.len() == 0 {
        assert(a == b);
    }
}

// ---------------------------------------------------------------------------
// Trimming
// ---------------------------------------------------------------------------

/// A text without its leading spaces.
pub open spec fn trim_start(s: Seq<char>) -> Seq<char>
    decreases s.len(),
{
    if s.len() > 0 && is_space(s[0]) {
        trim_start(s.drop_first())
    } else {
        s
    }
}

/// A text without its trailing spaces.
pub open spec fn trim_end(s: Seq<char>) -> Seq<char>
    decreases s.len(),
{
    if s.len() > 0 && is_space(s.last()) {
        trim_end(s.drop_last())
    } else {
        s
    }
}

/// A text without the spaces around it.
pub open spec fn trimmed(s: Seq<char>) -> Seq<char> {
    trim_end(trim_start(s))
}

/// The text without the spaces around it.
pub fn trim(value: &str) -> (result: &str)
    ensures
        result@ == trimmed(value@),
{
    let chars = chars_of(value);
    let ghost s = value@;
    let mut i: usize = 0;
    assert(s.skip(0) == s);
    while i < chars.len() && chars[i].is_whitespace()
        invariant
            chars@ == s,
            i <= chars.len(),
            trim_start(s) == trim_start(s.skip(i as int)),
        decreases chars.len() - i,
    {
        proof {
            assert(s.skip(i as int).drop_first() == s.skip(i + 1));
        }
        i += 1;
    }
    let ghost t = s.skip(i as int);
    assert(trim_start(s) == t);
    let mut j: usize = chars.len();
    assert(t.take(j - i) == t);
    while i < j && chars[j - 1].is_whitespace()
        invariant
            chars@ == s,
            t == s.skip(i as int),
            i <= j <= chars.len(),
            trim_end(t) == trim_end(t.take(j - i)),
        decreases j,
    {
        proof {
            assert(t.take(j - i).drop_last() == t.take(j - i - 1));
        }
        j -= 1;
    }
    assert(s.subrange(i as int, j as int) == t.take(j - i));
    value.substring_char(i, j)
}

/// Trimming leaves a text that starts and ends without a space, so trimming it
/// again changes nothing.
pub proof fn trimming_is_idempotent(s: Seq<char>)
    ensures
        trimmed(trimmed(s)) == trimmed(s),
        trimmed(s).len() > 0 ==> !is_space(trimmed(s)[0]) && !is_space(trimmed(s).last()),
{
    let t = trim_start(s);
    lemma_trim_start_head(s);
    lemma_trim_end_keeps_head(t);
    let u = trim_end(t);
    assert(trim_start(u) == u);
    assert(trim_end(u) == u);
}

/// A text that neither starts nor ends with a space stays as it is.
pub proof fn nothing_to_trim(s: Seq<char>)
    requires
        s.len() > 0 ==> !is_space(s[0]) && !is_space(s.last()),
    ensures
        trimmed(s) == s,
{
}

/// Trimming the start leaves a text that does not start with a space.
pub proof fn lemma_trim_start_head(s: Seq<char>)
    ensures
        trim_start(s).len() <= s.len(),
        trim_start(s).len() > 0 ==> !is_space(trim_start(s)[0]),
    decreases s.len(),
{
    if s.len() > 0 && is_space(s[0]) {
        lemma_trim_start_head(s.drop_first());
    }
}

proof fn lemma_trim_end_keeps_head(s: Seq<char>)
    ensures
        trim_end(s).len() <= s.len(),
        trim_end(s).len() > 0 ==> trim_end(s)[0] == s[0] && !is_space(trim_end(s).last()),
        s.len() > 0 && !is_space(s[0]) ==> trim_end(s).len() > 0,
    decreases s.len(),
{
    if s.len() > 0 && is_space(s.last()) {
        lemma_trim_end_keeps_head(s.drop_last());
    }
}

// ---------------------------------------------------------------------------
// Words
// ---------------------------------------------------------------------------

/// How many characters precede the first space.
pub open spec fn word_len(s: Seq<char>) -> nat
    decreases s.len(),
{
    if s.len() > 0 && !is_space(s[0]) {
        1 + word_len(s.drop_first())
    } else {
        0
    }
}

/// The maximal runs of characters that are not spaces, in order.
pub open spec fn words(s: Seq<char>) -> Seq<Seq<char>>
    decreases s.len(),
{
    let t = trim_start(s);
    if t.len() == 0 {
        Seq::empty()
    } else {
        proof {
            lemma_trim_start_head(s);
            lemma_word_len(t);
        }
        seq![t.take(word_len(t) as int)] + words(t.skip(word_len(t) as int))
    }
}

/// Texts joined by single spaces.
pub open spec fn joined(parts: Seq<Seq<char>>) -> Seq<char>
    decreases parts.len(),
{
    if parts.len() == 0 {
        Seq::empty()
    } else if parts.len() == 1 {
        parts[0]
    } else {
        parts[0] + seq![' '] + joined(parts.drop_first())
    }
}

/// Whether a text is one word: not empty, and without a space in it.
pub open spec fn is_word(s: Seq<char>) -> bool {
    s.len() > 0 && forall|i: int| 0 <= i < s.len() ==> !is_space(#[trigger] s[i])
}

/// The texts of a vector of strings.
pub open spec fn texts(parts: Seq<String>) -> Seq<Seq<char>> {
    parts.map_values(|part: String| part@)
}

/// The first word ends before the first space, or with the text.
pub proof fn lemma_word_len(s: Seq<char>)
    ensures
        word_len(s) <= s.len(),
        s.len() > 0 && !is_space(s[0]) ==> word_len(s) > 0,
        forall|i: int| 0 <= i < word_len(s) ==> !is_space(#[trigger] s[i]),
        word_len(s) < s.len() ==> is_space(s[word_len(s) as int]),
    decreases s.len(),
{
    if s.len() > 0 && !is_space(s[0]) {
        let t = s.drop_first();
        lemma_word_len(t);
        assert forall|i: int| 0 <= i < word_len(s) implies !is_space(#[trigger] s[i]) by {
            if i > 0 {
                assert(s[i] == t[i - 1]);
            }
        }
        if word_len(s) < s.len() {
            assert(s[word_len(s) as int] == t[word_len(t) as int]);
        }
    }
}

/// A run of characters without a space, followed by the end or by a space, is
/// the first word.
proof fn lemma_word_len_is(s: Seq<char>, n: nat)
    requires
        n <= s.len(),
        forall|i: int| 0 <= i < n ==> !is_space(#[trigger] s[i]),
        n < s.len() ==> is_space(s[n as int]),
    ensures
        word_len(s) == n,
    decreases s.len(),
{
    if n > 0 {
        assert(!is_space(s[0]));
        let t = s.drop_first();
        assert forall|i: int| 0 <= i < n - 1 implies !is_space(#[trigger] t[i]) by {
            assert(t[i] == s[i + 1]);
        }
        lemma_word_len_is(t, (n - 1) as nat);
    }
}

/// Making a letter small neither makes nor removes a space.
proof fn lemma_small_letter(c: char)
    requires
        c as int <= 127,
    ensures
        is_space(small_letter(c)) == is_space(c),
        small_letter(c) as int <= 127,
        small_letter(' ') == ' ',
{
}

/// Texts with their ASCII capital letters made small.
pub open spec fn each_small(parts: Seq<Seq<char>>) -> Seq<Seq<char>> {
    parts.map_values(|part: Seq<char>| small_letters(part))
}

proof fn lemma_small_trim_start(s: Seq<char>)
    requires
        is_ascii(s),
    ensures
        trim_start(small_letters(s)) == small_letters(trim_start(s)),
        is_ascii(trim_start(s)),
    decreases s.len(),
{
    if s.len() > 0 {
        lemma_small_letter(s[0]);
        assert(small_letters(s)[0] == small_letter(s[0]));
        if is_space(s[0]) {
            let t = s.drop_first();
            assert forall|i: int| 0 <= i < t.len() implies (#[trigger] t[i]) as int <= 127 by {
                assert(t[i] == s[i + 1]);
            }
            lemma_small_trim_start(t);
            assert(small_letters(s).drop_first() == small_letters(t));
        }
    }
}

proof fn lemma_small_word_len(s: Seq<char>)
    requires
        is_ascii(s),
    ensures
        word_len(small_letters(s)) == word_len(s),
    decreases s.len(),
{
    if s.len() > 0 {
        lemma_small_letter(s[0]);
        assert(small_letters(s)[0] == small_letter(s[0]));
        let t = s.drop_first();
        assert forall|i: int| 0 <= i < t.len() implies (#[trigger] t[i]) as int <= 127 by {
            assert(t[i] == s[i + 1]);
        }
        lemma_small_word_len(t);
        assert(small_letters(s).drop_first() == small_letters(t));
    }
}

/// Making ASCII letters small changes neither how many words a text has nor where
/// they end.
pub proof fn small_letters_keep_words(s: Seq<char>)
    requires
        is_ascii(s),
    ensures
        words(small_letters(s)) == each_small(words(s)),
        forall|i: int| 0 <= i < words(s).len() ==> is_ascii(#[trigger] words(s)[i]),
    decreases s.len(),
{
    let t = trim_start(s);
    lemma_trim_start_head(s);
    lemma_small_trim_start(s);
    if t.len() == 0 {
        assert(words(small_letters(s)) == each_small(words(s)));
    } else {
        lemma_word_len(t);
        lemma_small_word_len(t);
        let n = word_len(t) as int;
        let first = t.take(n);
        let rest = t.skip(n);
        assert forall|i: int| 0 <= i < rest.len() implies (#[trigger] rest[i]) as int <= 127 by {
            assert(rest[i] == t[i + n]);
        }
        assert forall|i: int| 0 <= i < first.len() implies (#[trigger] first[i]) as int <= 127 by {
            assert(first[i] == t[i]);
        }
        small_letters_keep_words(rest);
        assert(small_letters(t).take(n) == small_letters(first));
        assert(small_letters(t).skip(n) == small_letters(rest));
        lemma_trim_start_head(small_letters(s));
        lemma_word_len(small_letters(t));
        assert(words(s) == seq![first] + words(rest));
        assert(words(small_letters(s)) == seq![small_letters(first)] + words(small_letters(rest)));
        assert(words(small_letters(s)) == each_small(words(s)));
        assert forall|i: int| 0 <= i < words(s).len() implies is_ascii(#[trigger] words(s)[i]) by {
            if i > 0 {
                assert(words(s)[i] == words(rest)[i - 1]);
            }
        }
    }
}

/// Making ASCII letters small commutes with joining words.
pub proof fn small_letters_keep_joins(parts: Seq<Seq<char>>)
    requires
        forall|i: int| 0 <= i < parts.len() ==> is_ascii(#[trigger] parts[i]),
    ensures
        small_letters(joined(parts)) == joined(each_small(parts)),
        is_ascii(joined(parts)),
    decreases parts.len(),
{
    if parts.len() == 0 {
        assert(small_letters(joined(parts)) == joined(each_small(parts)));
    } else if parts.len() == 1 {
        assert(is_ascii(parts[0]));
        assert(each_small(parts)[0] == small_letters(parts[0]));
    } else {
        let rest = parts.drop_first();
        assert(is_ascii(parts[0]));
        assert forall|i: int| 0 <= i < rest.len() implies is_ascii(#[trigger] rest[i]) by {
            assert(rest[i] == parts[i + 1]);
        }
        small_letters_keep_joins(rest);
        assert(each_small(parts).drop_first() == each_small(rest));
        assert(each_small(parts)[0] == small_letters(parts[0]));
        lemma_small_letter(' ');
        assert(small_letters(joined(parts)) == joined(each_small(parts)));
    }
}

/// The words of a text, in order.
pub fn words_of(value: &str) -> (result: Vec<String>)
    ensures
        texts(result@) == words(value@),
{
    let chars = chars_of(value);
    let ghost s = value@;
    let mut out: Vec<String> = Vec::new();
    let mut i: usize = 0;
    assert(s.skip(0) == s);
    assert(texts(out@) + words(s) == words(s));
    while i < chars.len()
        invariant
            chars@ == s,
            s == value@,
            i <= chars.len(),
            texts(out@) + words(s.skip(i as int)) == words(s),
        decreases chars.len() - i,
    {
        let ghost rest = s.skip(i as int);
        let mut j: usize = i;
        while j < chars.len() && chars[j].is_whitespace()
            invariant
                chars@ == s,
                i <= j <= chars.len(),
                trim_start(rest) == trim_start(s.skip(j as int)),
            decreases chars.len() - j,
        {
            proof {
                assert(s.skip(j as int).drop_first() == s.skip(j + 1));
            }
            j += 1;
        }
        let ghost t = s.skip(j as int);
        assert(trim_start(rest) == t);
        if j == chars.len() {
            assert(words(rest) == Seq::<Seq<char>>::empty());
            assert(texts(out@) + words(rest) == texts(out@));
            return out;
        }
        let mut k: usize = j;
        while k < chars.len() && !chars[k].is_whitespace()
            invariant
                chars@ == s,
                t == s.skip(j as int),
                j <= k <= chars.len(),
                forall|m: int| 0 <= m < k - j ==> !is_space(#[trigger] t[m]),
            decreases chars.len() - k,
        {
            assert(t[k - j] == s[k as int]);
            k += 1;
        }
        proof {
            if k < chars.len() {
                assert(t[k - j] == s[k as int]);
            }
            lemma_word_len_is(t, (k - j) as nat);
            assert(!is_space(t[0]));
        }
        let word = value.substring_char(j, k).to_owned();
        let ghost before = texts(out@);
        out.push(word);
        proof {
            assert(word@ == t.take(k - j));
            assert(t.skip(k - j) == s.skip(k as int));
            assert(words(rest) == seq![word@] + words(s.skip(k as int)));
            assert(texts(out@) == before.push(word@));
            assert(texts(out@) + words(s.skip(k as int)) == before + words(rest));
        }
        i = k;
    }
    assert(s.skip(i as int) == Seq::<char>::empty());
    assert(words(s.skip(i as int)) == Seq::<Seq<char>>::empty());
    assert(texts(out@) + words(s.skip(i as int)) == texts(out@));
    out
}

/// Joins texts by single spaces.
pub fn join_words(parts: &Vec<String>) -> (result: String)
    ensures
        result@ == joined(texts(parts@)),
{
    let ghost all = texts(parts@);
    let mut out = String::new();
    assert(all.skip(0) == all);
    for i in 0..parts.len()
        invariant
            all == texts(parts@),
            i == 0 ==> out@ == Seq::<char>::empty(),
            0 < i < all.len() ==> joined(all) == out@ + seq![' '] + joined(all.skip(i as int)),
            i == all.len() ==> out@ == joined(all),
    {
        let ghost rest = all.skip(i as int);
        if i > 0 {
            out.push(' ');
        }
        let ghost before = out@;
        out.append(parts[i].as_str());
        proof {
            assert(rest[0] == parts@[i as int]@);
            assert(rest.drop_first() == all.skip(i + 1));
            if i == 0 {
                assert(rest == all);
            }
            if i + 1 == all.len() {
                assert(joined(rest) == rest[0]);
                assert(out@ == joined(all));
            } else {
                assert(joined(rest) == rest[0] + seq![' '] + joined(all.skip(i + 1)));
                assert(joined(all) == out@ + seq![' '] + joined(all.skip(i + 1)));
            }
        }
    }
    out
}

/// Every word of a text is one word.
pub proof fn words_are_words(s: Seq<char>)
    ensures
        forall|i: int| 0 <= i < words(s).len() ==> is_word(#[trigger] words(s)[i]),
    decreases s.len(),
{
    let t = trim_start(s);
    lemma_trim_start_head(s);
    if t.len() > 0 {
        lemma_word_len(t);
        let n = word_len(t) as int;
        words_are_words(t.skip(n));
        assert forall|i: int| 0 <= i < words(s).len() implies is_word(#[trigger] words(s)[i]) by {
            if i == 0 {
                assert(words(s)[0] == t.take(n));
            } else {
                assert(words(s)[i] == words(t.skip(n))[i - 1]);
            }
        }
    }
}

/// Joining words by single spaces and taking the words apart again gives the
/// same words.
pub proof fn joined_words_come_apart(parts: Seq<Seq<char>>)
    requires
        forall|i: int| 0 <= i < parts.len() ==> is_word(#[trigger] parts[i]),
    ensures
        words(joined(parts)) == parts,
    decreases parts.len(),
{
    let s = joined(parts);
    if parts.len() == 0 {
        assert(words(s) == parts);
    } else {
        let first = parts[0];
        assert(is_word(first));
        assert(s.len() > 0 && s[0] == first[0]);
        assert(!is_space(first[0]));
        assert(trim_start(s) == s);
        assert forall|i: int| 0 <= i < first.len() implies !is_space(#[trigger] s[i]) by {
            assert(s[i] == first[i]);
        }
        lemma_word_len_is(s, first.len());
        assert(s.take(first.len() as int) == first);
        let rest = s.skip(first.len() as int);
        if parts.len() == 1 {
            assert(rest == Seq::<char>::empty());
            assert(words(rest) == Seq::<Seq<char>>::empty());
            assert(words(s) == parts);
        } else {
            let others = parts.drop_first();
            assert forall|i: int| 0 <= i < others.len() implies is_word(#[trigger] others[i]) by {
                assert(others[i] == parts[i + 1]);
            }
            joined_words_come_apart(others);
            assert(rest == seq![' '] + joined(others));
            assert(rest.drop_first() == joined(others));
            assert(trim_start(rest) == trim_start(joined(others)));
            assert(words(rest) == words(joined(others)));
            assert(words(s) == seq![first] + others);
            assert(words(s) == parts);
        }
    }
}

/// Spaces around a text do not change its words.
pub proof fn trimming_keeps_words(s: Seq<char>)
    ensures
        words(trimmed(s)) == words(s),
{
    lemma_trim_start_head(s);
    assert(trim_start(trim_start(s)) == trim_start(s));
    assert(words(trim_start(s)) == words(s));
    lemma_trim_end_keeps_words(trim_start(s));
}

proof fn lemma_trim_end_keeps_words(s: Seq<char>)
    ensures
        words(trim_end(s)) == words(s),
    decreases s.len(),
{
    if s.len() > 0 && is_space(s.last()) {
        lemma_trim_end_keeps_words(s.drop_last());
        lemma_last_space_adds_no_word(s);
    }
}

proof fn lemma_last_space_adds_no_word(s: Seq<char>)
    requires
        s.len() > 0,
        is_space(s.last()),
    ensures
        words(s.drop_last()) == words(s),
    decreases s.len(),
{
    let d = s.drop_last();
    if is_space(s[0]) {
        if s.len() == 1 {
            assert(d == Seq::<char>::empty());
            assert(s.drop_first() == Seq::<char>::empty());
        } else {
            assert(s.drop_first().drop_last() == d.drop_first());
            lemma_last_space_adds_no_word(s.drop_first());
            assert(words(s) == words(s.drop_first()));
            assert(words(d) == words(d.drop_first()));
        }
    } else {
        assert(trim_start(s) == s);
        assert(trim_start(d) == d);
        lemma_word_len(s);
        let n = word_len(s) as int;
        assert(n < s.len());
        assert forall|i: int| 0 <= i < n implies !is_space(#[trigger] d[i]) by {
            assert(d[i] == s[i]);
        }
        if n < d.len() {
            assert(d[n] == s[n]);
        }
        lemma_word_len_is(d, n as nat);
        assert(d.take(n) == s.take(n));
        assert(d.skip(n) == s.skip(n).drop_last());
        assert(s.skip(n).last() == s.last());
        lemma_last_space_adds_no_word(s.skip(n));
    }
}

// ---------------------------------------------------------------------------
// Prefixes and separators
// ---------------------------------------------------------------------------

/// What follows a prefix, where the text has it.
pub open spec fn after_prefix(s: Seq<char>, prefix: Seq<char>) -> Option<Seq<char>> {
    if prefix.is_prefix_of(s) {
        Some(s.skip(prefix.len() as int))
    } else {
        None
    }
}

/// What follows a prefix, where the text has it.
pub fn strip_prefix<'a>(value: &'a str, prefix: &str) -> (result: Option<&'a str>)
    ensures
        match result {
            Some(rest) => after_prefix(value@, prefix@) == Some(rest@),
            None => after_prefix(value@, prefix@) is None,
        },
{
    let s = chars_of(value);
    let p = chars_of(prefix);
    if p.len() > s.len() {
        return None;
    }
    for i in 0..p.len()
        invariant
            s@ == value@,
            p@ == prefix@,
            p.len() <= s.len(),
            forall|k: int| 0 <= k < i ==> s@[k] == p@[k],
    {
        if s[i] != p[i] {
            assert(s@.subrange(0, p@.len() as int)[i as int] != p@[i as int]);
            return None;
        }
    }
    assert(s@.subrange(0, p@.len() as int) == p@);
    assert(value@.skip(prefix@.len() as int) == value@.subrange(p@.len() as int, s@.len() as int));
    Some(value.substring_char(p.len(), s.len()))
}

/// How many characters precede the first occurrence of `c`; all of them where
/// it does not occur.
pub open spec fn until(s: Seq<char>, c: char) -> nat
    decreases s.len(),
{
    if s.len() == 0 || s[0] == c {
        0
    } else {
        1 + until(s.drop_first(), c)
    }
}

/// The count of characters before the first `c` is where `c` first occurs.
pub proof fn until_is_the_first_place(s: Seq<char>, c: char)
    ensures
        until(s, c) <= s.len(),
        forall|i: int| 0 <= i < until(s, c) ==> #[trigger] s[i] != c,
        until(s, c) < s.len() ==> s[until(s, c) as int] == c,
    decreases s.len(),
{
    if s.len() > 0 && s[0] != c {
        let t = s.drop_first();
        until_is_the_first_place(t, c);
        assert forall|i: int| 0 <= i < until(s, c) implies #[trigger] s[i] != c by {
            if i > 0 {
                assert(s[i] == t[i - 1]);
            }
        }
        if until(s, c) < s.len() {
            assert(s[until(s, c) as int] == t[until(t, c) as int]);
        }
    }
}

proof fn lemma_until_is(s: Seq<char>, c: char, n: nat)
    requires
        n <= s.len(),
        forall|i: int| 0 <= i < n ==> #[trigger] s[i] != c,
        n < s.len() ==> s[n as int] == c,
    ensures
        until(s, c) == n,
    decreases s.len(),
{
    if n > 0 {
        assert(s[0] != c);
        let t = s.drop_first();
        assert forall|i: int| 0 <= i < n - 1 implies #[trigger] t[i] != c by {
            assert(t[i] == s[i + 1]);
        }
        lemma_until_is(t, c, (n - 1) as nat);
    }
}

/// The parts of a text between occurrences of a separator; a text without it is
/// one part.
pub open spec fn split(s: Seq<char>, c: char) -> Seq<Seq<char>>
    decreases s.len(),
{
    let n = until(s, c);
    if n >= s.len() {
        seq![s]
    } else {
        seq![s.take(n as int)] + split(s.skip(n as int + 1), c)
    }
}

/// Where a separator first occurs in a text that is put together with it.
pub proof fn until_the_joint(head: Seq<char>, c: char, tail: Seq<char>)
    requires
        forall|i: int| 0 <= i < head.len() ==> #[trigger] head[i] != c,
    ensures
        until(head + seq![c] + tail, c) == head.len(),
        (head + seq![c] + tail).take(head.len() as int) == head,
        (head + seq![c] + tail).skip(head.len() as int + 1) == tail,
    decreases head.len(),
{
    let s = head + seq![c] + tail;
    if head.len() > 0 {
        let rest = head.drop_first();
        assert(s[0] == head[0]);
        assert forall|i: int| 0 <= i < rest.len() implies #[trigger] rest[i] != c by {
            assert(rest[i] == head[i + 1]);
        }
        until_the_joint(rest, c, tail);
        assert(s.drop_first() == rest + seq![c] + tail);
    } else {
        assert(s[0] == c);
    }
    assert(s.take(head.len() as int) == head);
    assert(s.skip(head.len() as int + 1) == tail);
}

/// A text without the separator is one part.
pub proof fn one_part(s: Seq<char>, c: char)
    requires
        forall|i: int| 0 <= i < s.len() ==> #[trigger] s[i] != c,
    ensures
        split(s, c) == seq![s],
{
    until_is_the_first_place(s, c);
}

/// The first part of a text that is put together with a separator, and then the
/// parts of the rest.
pub proof fn first_part(head: Seq<char>, c: char, tail: Seq<char>)
    requires
        forall|i: int| 0 <= i < head.len() ==> #[trigger] head[i] != c,
    ensures
        split(head + seq![c] + tail, c) == seq![head] + split(tail, c),
{
    until_the_joint(head, c, tail);
}

/// Splits a text at every occurrence of a separator.
pub fn split_text(value: &str, c: char) -> (result: Vec<String>)
    ensures
        texts(result@) == split(value@, c),
{
    let chars = chars_of(value);
    let ghost s = value@;
    let mut out: Vec<String> = Vec::new();
    let mut i: usize = 0;
    assert(s.skip(0) == s);
    assert(texts(out@) + split(s, c) == split(s, c));
    loop
        invariant
            chars@ == s,
            s == value@,
            i <= chars.len(),
            texts(out@) + split(s.skip(i as int), c) == split(s, c),
        decreases chars.len() - i,
    {
        let ghost rest = s.skip(i as int);
        let mut k: usize = i;
        while k < chars.len() && chars[k] != c
            invariant
                chars@ == s,
                rest == s.skip(i as int),
                i <= k <= chars.len(),
                forall|m: int| 0 <= m < k - i ==> #[trigger] rest[m] != c,
            decreases chars.len() - k,
        {
            assert(rest[k - i] == s[k as int]);
            k += 1;
        }
        proof {
            if k < chars.len() {
                assert(rest[k - i] == s[k as int]);
            }
            lemma_until_is(rest, c, (k - i) as nat);
        }
        let part = value.substring_char(i, k).to_owned();
        let ghost before = texts(out@);
        out.push(part);
        proof {
            assert(part@ == rest.take(k - i));
            assert(texts(out@) == before.push(part@));
        }
        if k >= chars.len() {
            proof {
                assert(rest.take(k - i) == rest);
                assert(texts(out@) == before + split(rest, c));
            }
            return out;
        }
        proof {
            assert(rest.skip(k - i + 1) == s.skip(k + 1));
            assert(split(rest, c) == seq![part@] + split(s.skip(k + 1), c));
            assert(texts(out@) + split(s.skip(k + 1), c) == before + split(rest, c));
        }
        i = k + 1;
    }
}

/// A text before and after the first occurrence of a separator.
pub open spec fn split_once(s: Seq<char>, c: char) -> Option<(Seq<char>, Seq<char>)> {
    let n = until(s, c) as int;
    if n < s.len() {
        Some((s.take(n), s.skip(n + 1)))
    } else {
        None
    }
}

/// Splits a text at the first occurrence of a separator.
pub fn split_text_once<'a>(value: &'a str, c: char) -> (result: Option<(&'a str, &'a str)>)
    ensures
        match result {
            Some(parts) => split_once(value@, c) == Some((parts.0@, parts.1@)),
            None => split_once(value@, c) is None,
        },
{
    let chars = chars_of(value);
    let mut k: usize = 0;
    while k < chars.len() && chars[k] != c
        invariant
            chars@ == value@,
            k <= chars.len(),
            forall|m: int| 0 <= m < k ==> #[trigger] value@[m] != c,
        decreases chars.len() - k,
    {
        k += 1;
    }
    proof {
        lemma_until_is(value@, c, k as nat);
    }
    if k < chars.len() {
        assert(value@.subrange(0, k as int) == value@.take(k as int));
        assert(value@.subrange(k + 1, value@.len() as int) == value@.skip(k + 1));
        Some((value.substring_char(0, k), value.substring_char(k + 1, chars.len())))
    } else {
        None
    }
}

/// A text before and after its first space.
pub open spec fn split_at_space(s: Seq<char>) -> Option<(Seq<char>, Seq<char>)> {
    let n = word_len(s) as int;
    if n < s.len() {
        Some((s.take(n), s.skip(n + 1)))
    } else {
        None
    }
}

/// Splits a text at its first space.
pub fn split_text_at_space<'a>(value: &'a str) -> (result: Option<(&'a str, &'a str)>)
    ensures
        match result {
            Some(parts) => split_at_space(value@) == Some((parts.0@, parts.1@)),
            None => split_at_space(value@) is None,
        },
{
    let chars = chars_of(value);
    let mut k: usize = 0;
    while k < chars.len() && !chars[k].is_whitespace()
        invariant
            chars@ == value@,
            k <= chars.len(),
            forall|m: int| 0 <= m < k ==> !is_space(#[trigger] value@[m]),
        decreases chars.len() - k,
    {
        k += 1;
    }
    proof {
        lemma_word_len_is(value@, k as nat);
    }
    if k < chars.len() {
        assert(value@.subrange(0, k as int) == value@.take(k as int));
        assert(value@.subrange(k + 1, value@.len() as int) == value@.skip(k + 1));
        Some((value.substring_char(0, k), value.substring_char(k + 1, chars.len())))
    } else {
        None
    }
}

// ---------------------------------------------------------------------------
// Laws
// ---------------------------------------------------------------------------

/// Trimming takes spaces alone, from the ends alone: what it leaves is the text
/// between two places outside of which all characters are spaces.
pub proof fn trimming_takes_spaces_alone(s: Seq<char>)
    ensures
        exists|i: int, j: int|
            0 <= i <= j <= s.len() && trimmed(s) == #[trigger] s.subrange(i, j) && (forall|k: int|
                0 <= k < i ==> is_space(#[trigger] s[k])) && (forall|k: int|
                j <= k < s.len() ==> is_space(#[trigger] s[k])),
        trimmed(s).len() > 0 ==> !is_space(trimmed(s)[0]) && !is_space(trimmed(s).last()),
{
    let i = lemma_trim_start_is_suffix(s);
    let t = trim_start(s);
    let n = lemma_trim_end_is_prefix(t);
    let j = i + n;
    assert(trimmed(s) == s.subrange(i, j));
    assert forall|k: int| j <= k < s.len() implies is_space(#[trigger] s[k]) by {
        assert(t[k - i] == s[k]);
    }
    trimming_is_idempotent(s);
}

proof fn lemma_trim_start_is_suffix(s: Seq<char>) -> (i: int)
    ensures
        0 <= i <= s.len(),
        trim_start(s) == s.skip(i),
        forall|k: int| 0 <= k < i ==> is_space(#[trigger] s[k]),
    decreases s.len(),
{
    if s.len() > 0 && is_space(s[0]) {
        let t = s.drop_first();
        let i = lemma_trim_start_is_suffix(t);
        assert(t.skip(i) == s.skip(i + 1));
        assert forall|k: int| 0 <= k < i + 1 implies is_space(#[trigger] s[k]) by {
            if k > 0 {
                assert(t[k - 1] == s[k]);
            }
        }
        i + 1
    } else {
        assert(s.skip(0) == s);
        0
    }
}

proof fn lemma_trim_end_is_prefix(s: Seq<char>) -> (n: int)
    ensures
        0 <= n <= s.len(),
        trim_end(s) == s.take(n),
        forall|k: int| n <= k < s.len() ==> is_space(#[trigger] s[k]),
    decreases s.len(),
{
    if s.len() > 0 && is_space(s.last()) {
        let t = s.drop_last();
        let n = lemma_trim_end_is_prefix(t);
        assert(t.take(n) == s.take(n));
        assert forall|k: int| n <= k < s.len() implies is_space(#[trigger] s[k]) by {
            if k < t.len() {
                assert(t[k] == s[k]);
            }
        }
        n
    } else {
        assert(s.take(s.len() as int) == s);
        s.len() as int
    }
}

/// A text without spaces is one word, and a text of nothing has none.
pub proof fn a_text_without_spaces_is_one_word(s: Seq<char>)
    requires
        forall|i: int| 0 <= i < s.len() ==> !is_space(#[trigger] s[i]),
    ensures
        words(s) == (if s.len() == 0 {
            Seq::<Seq<char>>::empty()
        } else {
            seq![s]
        }),
{
    if s.len() > 0 {
        assert(trim_start(s) == s);
        lemma_word_len_is(s, s.len());
        lemma_word_len(s);
        assert(s.take(s.len() as int) == s);
        assert(s.skip(s.len() as int) == Seq::<char>::empty());
        assert(words(Seq::<char>::empty()) == Seq::<Seq<char>>::empty());
        assert(words(s) == seq![s]);
    }
}

/// A space parts words: the words of a text are those before any space in it and then
/// those after.
pub proof fn a_space_parts_words(a: Seq<char>, c: char, b: Seq<char>)
    requires
        is_space(c),
    ensures
        words(a + seq![c] + b) == words(a) + words(b),
    decreases a.len(),
{
    let s = a + seq![c] + b;
    if a.len() == 0 {
        assert(s[0] == c);
        assert(s.drop_first() == b);
        assert(trim_start(s) == trim_start(b));
        lemma_words_after_trim(s, b);
        assert(words(a) + words(b) == words(b));
    } else if is_space(a[0]) {
        let rest = a.drop_first();
        assert(s[0] == a[0]);
        assert(s.drop_first() == rest + seq![c] + b);
        lemma_words_after_trim(s, rest + seq![c] + b);
        lemma_words_after_trim(a, rest);
        a_space_parts_words(rest, c, b);
    } else {
        lemma_word_len(a);
        let n = word_len(a) as int;
        assert(s[0] == a[0]);
        assert(trim_start(s) == s);
        assert(trim_start(a) == a);
        assert forall|i: int| 0 <= i < n implies !is_space(#[trigger] s[i]) by {
            assert(s[i] == a[i]);
        }
        assert(is_space(s[n])) by {
            if n < a.len() {
                assert(s[n] == a[n]);
            } else {
                assert(s[n] == c);
            }
        }
        lemma_word_len_is(s, n as nat);
        let rest = a.skip(n);
        assert(s.take(n) == a.take(n));
        assert(s.skip(n) == rest + seq![c] + b);
        a_space_parts_words(rest, c, b);
        assert(words(s) == seq![a.take(n)] + words(s.skip(n)));
        assert(words(a) == seq![a.take(n)] + words(rest));
        assert(words(s) == words(a) + words(b));
    }
}

/// Texts that are the same without leading spaces have the same words.
proof fn lemma_words_after_trim(a: Seq<char>, b: Seq<char>)
    requires
        trim_start(a) == trim_start(b),
    ensures
        words(a) == words(b),
{
    lemma_trim_start_head(a);
    lemma_trim_start_head(b);
    if trim_start(a).len() > 0 {
        lemma_word_len(trim_start(a));
    }
}

/// Joined, one text is itself, and more are those before the last, a single space and
/// the last.
pub proof fn joining_puts_single_spaces(parts: Seq<Seq<char>>, last: Seq<char>)
    ensures
        joined(seq![last]) == last,
        parts.len() > 0 ==> joined(parts.push(last)) == joined(parts) + seq![' '] + last,
        joined(Seq::<Seq<char>>::empty()).len() == 0,
    decreases parts.len(),
{
    if parts.len() == 1 {
        let both = parts.push(last);
        let one = seq![last];
        assert(both.drop_first() == one);
        assert(joined(one) == one[0]);
        assert(both.len() == 2 && both[0] == parts[0]);
        assert(joined(both) == parts[0] + seq![' '] + last);
    } else if parts.len() > 1 {
        let rest = parts.drop_first();
        joining_puts_single_spaces(rest, last);
        assert(parts.push(last).drop_first() == rest.push(last));
        assert(joined(parts.push(last)) == joined(parts) + seq![' '] + last);
    }
}

/// Where two texts first differ, the one with the lower character comes first; a text
/// comes before any that goes on after it.
pub proof fn the_first_difference_decides(
    same: Seq<char>,
    a: char,
    b: char,
    x: Seq<char>,
    y: Seq<char>,
)
    requires
        a != b,
    ensures
        text_before(same + seq![a] + x, same + seq![b] + y) <==> (a as int) < (b as int),
        text_before(same, same + seq![a] + x),
        !text_before(same + seq![a] + x, same),
    decreases same.len(),
{
    let s = same + seq![a] + x;
    let t = same + seq![b] + y;
    if same.len() > 0 {
        let rest = same.drop_first();
        the_first_difference_decides(rest, a, b, x, y);
        assert(s.drop_first() == rest + seq![a] + x);
        assert(t.drop_first() == rest + seq![b] + y);
        assert(s[0] == same[0] && t[0] == same[0]);
    } else {
        assert(s[0] == a && t[0] == b);
    }
}

/// What follows a prefix is what the text is made of after it, and there is something
/// exactly where the text starts with the prefix.
pub proof fn a_prefix_and_the_rest_are_the_text(prefix: Seq<char>, rest: Seq<char>, s: Seq<char>)
    ensures
        after_prefix(prefix + rest, prefix) == Some(rest),
        after_prefix(s, prefix) matches Some(found) ==> s == prefix + found,
        after_prefix(s, prefix) is None ==> forall|found: Seq<char>|
            s != #[trigger] (prefix + found),
{
    let whole = prefix + rest;
    assert(whole.subrange(0, prefix.len() as int) == prefix);
    assert(whole.skip(prefix.len() as int) == rest);
    if after_prefix(s, prefix) is Some {
        assert(s == prefix + s.skip(prefix.len() as int));
    } else {
        assert forall|found: Seq<char>| s != #[trigger] (prefix + found) by {
            if s == prefix + found {
                assert(s.subrange(0, prefix.len() as int) == prefix);
            }
        }
    }
}

/// A text is parted once at the first of its separators, which is in neither part; it
/// is not parted exactly where it has none.
pub proof fn a_text_is_parted_at_its_first_separator(s: Seq<char>, c: char)
    ensures
        match split_once(s, c) {
            Some((head, tail)) => s == head + seq![c] + tail && forall|i: int|
                0 <= i < head.len() ==> #[trigger] head[i] != c,
            None => forall|i: int| 0 <= i < s.len() ==> #[trigger] s[i] != c,
        },
        match split_at_space(s) {
            Some((head, tail)) => head.len() < s.len() && is_space(s[head.len() as int]) && s
                == head + seq![s[head.len() as int]] + tail && forall|i: int|
                0 <= i < head.len() ==> !is_space(#[trigger] head[i]),
            None => forall|i: int| 0 <= i < s.len() ==> !is_space(#[trigger] s[i]),
        },
{
    until_is_the_first_place(s, c);
    let n = until(s, c) as int;
    if n < s.len() {
        assert(s == s.take(n) + seq![c] + s.skip(n + 1));
        assert forall|i: int| 0 <= i < n implies #[trigger] s.take(n)[i] != c by {
            assert(s.take(n)[i] == s[i]);
        }
    }
    lemma_word_len(s);
    let w = word_len(s) as int;
    if w < s.len() {
        let space = s[w];
        assert(s == s.take(w) + seq![space] + s.skip(w + 1));
        assert forall|i: int| 0 <= i < w implies !is_space(#[trigger] s.take(w)[i]) by {
            assert(s.take(w)[i] == s[i]);
        }
    }
}

/// A text in ASCII is made small letter by letter: `A` to `Z` become `a` to `z`, and
/// every other character stays.
pub proof fn small_letters_are_those_of_the_capitals(s: Seq<char>, i: int)
    requires
        forall|k: int| 0 <= k < s.len() ==> (#[trigger] s[k]) as int <= 127,
        0 <= i < s.len(),
    ensures
        lowercase(s).len() == s.len(),
        lowercase(s)[i] as int == (if 65 <= s[i] as int <= 90 {
            s[i] as int + 32
        } else {
            s[i] as int
        }),
{
}

} // verus!
