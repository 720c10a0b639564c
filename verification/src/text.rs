//! Splitting character data into words and bringing each word to its normal form.
//!
//! A text is cut at whitespace into fragments. A fragment becomes a word by dropping
//! every character that is neither alphanumeric nor an apostrophe and lowercasing what
//! is left. Fragments of which nothing is left are not words.
//!
//! Which characters are whitespace or alphanumeric, and what the lowercase form of a
//! string is, is decided by the standard library's Unicode tables. The specifications
//! here name those three results and build everything else on the names.

use vstd::prelude::*;

verus! {

/// Whether `c` is whitespace in Unicode's sense (`White_Space`), as `char::is_whitespace`
/// reports it.
pub uninterp spec fn char_is_whitespace(c: char) -> bool;

/// Whether `c` is alphabetic or numeric in Unicode's sense, as `char::is_alphanumeric`
/// reports it.
pub uninterp spec fn char_is_alphanumeric(c: char) -> bool;

/// The lowercase form of the string `s`, as `str::to_lowercase` computes it.
pub uninterp spec fn lowercase_of(s: Seq<char>) -> Seq<char>;

/// `char::is_whitespace` is a function of the character alone; its result is named
/// [`char_is_whitespace`]. Nothing is claimed about which characters it accepts.
pub assume_specification[ char::is_whitespace ](c: char) -> (r: bool)
    ensures
        r == char_is_whitespace(c),
;

/// `char::is_alphanumeric` is a function of the character alone; its result is named
/// [`char_is_alphanumeric`]. Nothing is claimed about which characters it accepts.
pub assume_specification[ char::is_alphanumeric ](c: char) -> (r: bool)
    ensures
        r == char_is_alphanumeric(c),
;

/// `str::to_lowercase` returns a new string that depends on the characters of `s` alone;
/// that string is named [`lowercase_of`]. Nothing is claimed about its contents.
pub assume_specification[ str::to_lowercase ](s: &str) -> (r: String)
    ensures
        r@ == lowercase_of(s@),
;

/// `String::push` appends the one character `c` to the end of the string and changes
/// nothing else.
pub assume_specification[ String::push ](s: &mut String, c: char)
    ensures
        final(s)@ == old(s)@.push(c),
;

/// `str`'s `==` compares two string slices character by character.
pub assume_specification[ <str as PartialEq>::eq ](a: &str, b: &str) -> (r: bool)
    ensures
        r == (a@ == b@),
;

/// The characters a word is made of: alphanumerics and the apostrophe.
pub open spec fn is_word_char(c: char) -> bool {
    char_is_alphanumeric(c) || c == '\''
}

/// `s` without the characters that are not word characters, order kept.
pub open spec fn retained(s: Seq<char>) -> Seq<char> {
    s.filter(|c: char| is_word_char(c))
}

/// The normal form of a fragment: its word characters, lowercased. A fragment without
/// word characters has the empty normal form.
pub open spec fn normal_form(s: Seq<char>) -> Seq<char> {
    if retained(s).len() == 0 {
        Seq::empty()
    } else {
        lowercase_of(retained(s))
    }
}

/// A string that normalization has nothing left to do on: made of word characters only
/// and equal to its own lowercase form.
pub open spec fn is_normalized(s: Seq<char>) -> bool {
    &&& forall|i: int| 0 <= i < s.len() ==> is_word_char(#[trigger] s[i])
    &&& s.len() > 0 ==> lowercase_of(s) == s
}

/// The number of characters before the first whitespace character of `s`, or the length
/// of `s` if it has none.
pub open spec fn leading_run(s: Seq<char>) -> nat
    decreases s.len(),
{
    if s.len() == 0 || char_is_whitespace(s[0]) {
        0
    } else {
        1 + leading_run(s.drop_first())
    }
}

/// The fragments of `s`: its maximal runs of non-whitespace characters, in order.
pub open spec fn fragments(s: Seq<char>) -> Seq<Seq<char>>
    decreases s.len(),
    via fragments_decreases
{
    if s.len() == 0 {
        Seq::empty()
    } else if char_is_whitespace(s[0]) {
        fragments(s.drop_first())
    } else {
        seq![s.take(leading_run(s) as int)] + fragments(s.skip(leading_run(s) as int))
    }
}

#[via_fn]
proof fn fragments_decreases(s: Seq<char>) {
    lemma_leading_run_bounds(s);
}

/// The words of `s`: the normal forms of its fragments, without the empty ones.
pub open spec fn words_of(s: Seq<char>) -> Seq<Seq<char>> {
    fragments(s).map_values(|f: Seq<char>| normal_form(f)).filter(|w: Seq<char>| w.len() > 0)
}

/// The views of a sequence of strings.
pub open spec fn views(v: Seq<String>) -> Seq<Seq<char>> {
    v.map_values(|s: String| s@)
}

/// A leading run ends inside the string, and is not empty when the string starts with
/// a character that is not whitespace.
pub proof fn lemma_leading_run_bounds(s: Seq<char>)
    ensures
        leading_run(s) <= s.len(),
        s.len() > 0 && !char_is_whitespace(s[0]) ==> leading_run(s) >= 1,
    decreases s.len(),
{
    if s.len() > 0 && !char_is_whitespace(s[0]) {
        lemma_leading_run_bounds(s.drop_first());
    }
}

/// If no character from `from` up to `to` is whitespace, and `to` is the end of `s` or
/// a whitespace character, the run that starts at `from` ends at `to`.
pub proof fn lemma_leading_run_found(s: Seq<char>, from: int, to: int)
    requires
        0 <= from <= to <= s.len(),
        forall|k: int| from <= k < to ==> !char_is_whitespace(#[trigger] s[k]),
        to == s.len() || char_is_whitespace(s[to]),
    ensures
        leading_run(s.skip(from)) == to - from,
    decreases to - from,
{
    if from < to {
        assert(s.skip(from).drop_first() == s.skip(from + 1));
        lemma_leading_run_found(s, from + 1, to);
    }
}

/// Every fragment is a non-empty run of characters of the text, none of them
/// whitespace.
pub proof fn lemma_fragments_runs(s: Seq<char>)
    ensures
        forall|k: int|
            0 <= k < fragments(s).len() ==> (#[trigger] fragments(s)[k]).len() > 0,
        forall|k: int, i: int|
            0 <= k < fragments(s).len() && 0 <= i < fragments(s)[k].len() ==> s.contains(
                #[trigger] fragments(s)[k][i],
            ) && !char_is_whitespace(fragments(s)[k][i]),
    decreases s.len(),
{
    if s.len() == 0 {
    } else if char_is_whitespace(s[0]) {
        let rest = s.drop_first();
        lemma_fragments_runs(rest);
        assert forall|k: int, i: int|
            0 <= k < fragments(s).len() && 0 <= i < fragments(s)[k].len() implies s.contains(
            #[trigger] fragments(s)[k][i],
        ) && !char_is_whitespace(fragments(s)[k][i]) by {
            let c = fragments(rest)[k][i];
            let at = choose|at: int| 0 <= at < rest.len() && rest[at] == c;
            assert(s[at + 1] == c);
        }
    } else {
        let n = leading_run(s) as int;
        lemma_leading_run_bounds(s);
        lemma_leading_run_clean(s);
        let rest = s.skip(n);
        lemma_fragments_runs(rest);
        assert forall|k: int| 0 <= k < fragments(s).len() implies (#[trigger] fragments(s)[k]).len()
            > 0 by {
            if k > 0 {
                assert(fragments(s)[k] == fragments(rest)[k - 1]);
            }
        }
        assert forall|k: int, i: int|
            0 <= k < fragments(s).len() && 0 <= i < fragments(s)[k].len() implies s.contains(
            #[trigger] fragments(s)[k][i],
        ) && !char_is_whitespace(fragments(s)[k][i]) by {
            if k == 0 {
                assert(fragments(s)[0][i] == s[i]);
            } else {
                let c = fragments(rest)[k - 1][i];
                let at = choose|at: int| 0 <= at < rest.len() && rest[at] == c;
                assert(s[at + n] == c);
            }
        }
    }
}

/// No character of a leading run is whitespace.
pub proof fn lemma_leading_run_clean(s: Seq<char>)
    ensures
        forall|i: int| 0 <= i < leading_run(s) ==> !char_is_whitespace(#[trigger] s[i]),
    decreases s.len(),
{
    if s.len() > 0 && !char_is_whitespace(s[0]) {
        let rest = s.drop_first();
        lemma_leading_run_clean(rest);
        lemma_leading_run_bounds(rest);
        assert forall|i: int| 0 <= i < leading_run(s) implies !char_is_whitespace(
            #[trigger] s[i],
        ) by {
            if i > 0 {
                assert(rest[i - 1] == s[i]);
            }
        }
    }
}

/// A string made of word characters only is retained whole.
pub proof fn lemma_retained_whole(s: Seq<char>)
    requires
        forall|i: int| 0 <= i < s.len() ==> is_word_char(#[trigger] s[i]),
    ensures
        retained(s) == s,
    decreases s.len(),
{
    reveal(Seq::filter);
    if s.len() > 0 {
        lemma_retained_whole(s.drop_last());
    }
}

/// Of a string without word characters nothing is retained.
pub proof fn lemma_retained_nothing(s: Seq<char>)
    requires
        forall|i: int| 0 <= i < s.len() ==> !is_word_char(#[trigger] s[i]),
    ensures
        retained(s).len() == 0,
    decreases s.len(),
{
    reveal(Seq::filter);
    if s.len() > 0 {
        lemma_retained_nothing(s.drop_last());
    }
}

/// What is retained is made of word characters only.
pub proof fn lemma_retained_word_chars(s: Seq<char>)
    ensures
        forall|i: int| 0 <= i < retained(s).len() ==> is_word_char(#[trigger] retained(s)[i]),
{
    assert forall|i: int| 0 <= i < retained(s).len() implies is_word_char(
        #[trigger] retained(s)[i],
    ) by {
        s.lemma_filter_pred(|c: char| is_word_char(c), i);
    }
}

/// Normalizing a normalized word gives the same word.
pub proof fn lemma_normalized_stays(s: Seq<char>)
    requires
        is_normalized(s),
    ensures
        normal_form(s) == s,
{
    lemma_retained_whole(s);
}

/// Normalizing twice gives what normalizing once gives, wherever the lowercase form of
/// the retained characters is made of word characters and is its own lowercase form.
pub proof fn lemma_normal_form_idempotent(s: Seq<char>)
    requires
        is_normalized(normal_form(s)),
    ensures
        normal_form(normal_form(s)) == normal_form(s),
{
    lemma_normalized_stays(normal_form(s));
}

/// Characters that are not word characters make no difference to the normal form:
/// a fragment and what is retained of it have the same normal form.
pub proof fn lemma_normal_form_ignores_others(s: Seq<char>)
    ensures
        retained(retained(s)) == retained(s),
        normal_form(retained(s)) == normal_form(s),
{
    lemma_retained_word_chars(s);
    lemma_retained_whole(retained(s));
}

/// A fragment without word characters has the empty normal form, and a text without
/// word characters has no words.
pub proof fn lemma_no_word_chars_no_words(s: Seq<char>)
    requires
        forall|i: int| 0 <= i < s.len() ==> !is_word_char(#[trigger] s[i]),
    ensures
        normal_form(s).len() == 0,
        words_of(s).len() == 0,
{
    lemma_retained_nothing(s);
    lemma_fragments_runs(s);
    let normals = fragments(s).map_values(|f: Seq<char>| normal_form(f));
    assert forall|k: int| 0 <= k < normals.len() implies (#[trigger] normals[k]).len() == 0 by {
        let f = fragments(s)[k];
        assert forall|i: int| 0 <= i < f.len() implies !is_word_char(#[trigger] f[i]) by {
            assert(s.contains(fragments(s)[k][i]));
        }
        lemma_retained_nothing(f);
    }
    lemma_none_kept(normals);
}

/// A sequence of empty strings has no non-empty string to keep.
proof fn lemma_none_kept(normals: Seq<Seq<char>>)
    requires
        forall|k: int| 0 <= k < normals.len() ==> (#[trigger] normals[k]).len() == 0,
    ensures
        normals.filter(|w: Seq<char>| w.len() > 0).len() == 0,
    decreases normals.len(),
{
    reveal(Seq::filter);
    if normals.len() > 0 {
        lemma_none_kept(normals.drop_last());
    }
}

/// A text has at most as many words as it has characters.
pub proof fn lemma_words_bound(s: Seq<char>)
    ensures
        fragments(s).len() <= s.len(),
        words_of(s).len() <= s.len(),
    decreases s.len(),
{
    lemma_fragments_bound(s);
    let normals = fragments(s).map_values(|f: Seq<char>| normal_form(f));
    normals.lemma_filter_len(|w: Seq<char>| w.len() > 0);
}

/// A text has at most as many fragments as it has characters.
proof fn lemma_fragments_bound(s: Seq<char>)
    ensures
        fragments(s).len() <= s.len(),
    decreases s.len(),
{
    if s.len() == 0 {
    } else if char_is_whitespace(s[0]) {
        lemma_fragments_bound(s.drop_first());
    } else {
        lemma_leading_run_bounds(s);
        lemma_fragments_bound(s.skip(leading_run(s) as int));
    }
}

/// The characters of `text`, one by one.
pub fn chars_of(text: &str) -> (chars: Vec<char>)
    ensures
        chars@ == text@,
{
    broadcast use vstd::string::group_string_axioms;

    let mut chars: Vec<char> = Vec::new();
    for c in it: text.chars()
        invariant
            it.seq() == text@,
            chars@ == text@.take(it.index()),
    {
        chars.push(c);
    }
    chars
}

/// Whether `c` may stand in a word.
pub fn word_char(c: char) -> (r: bool)
    ensures
        r == is_word_char(c),
{
    c.is_alphanumeric() || c == '\''
}

/// Brings one fragment to its normal form: keeps its word characters and lowercases them.
pub fn normalize_word(word: &str) -> (normal: String)
    ensures
        normal@ == normal_form(word@),
{
    broadcast use vstd::string::group_string_axioms;

    let mut kept = String::new();
    for c in it: word.chars()
        invariant
            it.seq() == word@,
            kept@ == retained(word@.take(it.index())),
    {
        proof {
            let done = word@.take(it.index());
            assert(word@.take(it.index() + 1) == done.push(c));
            done.lemma_filter_push(c, |c: char| is_word_char(c));
        }
        if word_char(c) {
            kept.push(c);
        }
    }
    assert(word@.take(word@.len() as int) == word@);
    if kept.as_str().is_empty() {
        kept
    } else {
        kept.as_str().to_lowercase()
    }
}

/// Cuts `text` at whitespace: returns its maximal runs of non-whitespace characters,
/// in order. Whitespace itself belongs to no fragment, so none is empty.
pub fn split_whitespace(text: &str) -> (parts: Vec<String>)
    ensures
        views(parts@) == fragments(text@),
{
    let chars = chars_of(text);
    let mut parts: Vec<String> = Vec::new();
    let mut i: usize = 0;
    assert(text@.skip(0) == text@);
    while i < chars.len()
        invariant
            chars@ == text@,
            i <= chars.len(),
            views(parts@) + fragments(text@.skip(i as int)) == fragments(text@),
        decreases chars.len() - i,
    {
        let ghost rest = text@.skip(i as int);
        if chars[i].is_whitespace() {
            assert(rest.drop_first() == text@.skip(i + 1));
            i = i + 1;
        } else {
            let start = i;
            let mut part = String::new();
            while i < chars.len() && !chars[i].is_whitespace()
                invariant
                    chars@ == text@,
                    start <= i <= chars.len(),
                    part@ == text@.subrange(start as int, i as int),
                    forall|k: int| start <= k < i ==> !char_is_whitespace(#[trigger] text@[k]),
                decreases chars.len() - i,
            {
                part.push(chars[i]);
                i = i + 1;
            }
            proof {
                lemma_leading_run_found(text@, start as int, i as int);
                assert(rest.take(i - start) == text@.subrange(start as int, i as int));
                assert(rest.skip(i - start) == text@.skip(i as int));
            }
            parts.push(part);
        }
    }
    parts
}

/// The words of `text`: each whitespace-separated fragment in its normal form, in
/// order, without the fragments that have no word characters.
pub fn normalized_words(text: &str) -> (words: Vec<String>)
    ensures
        views(words@) == words_of(text@),
{
    let parts = split_whitespace(text);
    let ghost normals = fragments(text@).map_values(|f: Seq<char>| normal_form(f));
    let mut words: Vec<String> = Vec::new();
    let mut i: usize = 0;
    while i < parts.len()
        invariant
            i <= parts.len(),
            views(parts@) == fragments(text@),
            normals == fragments(text@).map_values(|f: Seq<char>| normal_form(f)),
            views(words@) == normals.take(i as int).filter(|w: Seq<char>| w.len() > 0),
        decreases parts.len() - i,
    {
        let word = normalize_word(parts[i].as_str());
        proof {
            let done = normals.take(i as int);
            assert(normals.take(i + 1) == done.push(word@));
            done.lemma_filter_push(word@, |w: Seq<char>| w.len() > 0);
        }
        if !word.as_str().is_empty() {
            words.push(word);
        }
        i = i + 1;
    }
    assert(normals.take(normals.len() as int) == normals);
    words
}

} // verus!
