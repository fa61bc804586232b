//! Cleaning of single words and of sentences, shared by the tokenizer and the
//! document processor.
use regex::Regex;
use unicode_segmentation::UnicodeSegmentation;
use vstd::prelude::*;
use vstd::string::{StrSliceExecFns, StringExecFns};
use crate::text::views;

verus! {

#[verifier::external_type_specification]
#[verifier::external_body]
pub struct ExRegex(Regex);

/// `s` less every `'s`, `,` and `.`, matched leftmost first.
pub open spec fn without_special_chars(s: Seq<char>) -> Seq<char>
    decreases s.len(),
{
    if s.len() == 0 {
        s
    } else if s.len() >= 2 && s[0] == '\'' && s[1] == 's' {
        without_special_chars(s.skip(2))
    } else if s[0] == ',' || s[0] == '.' {
        without_special_chars(s.skip(1))
    } else {
        seq![s[0]] + without_special_chars(s.skip(1))
    }
}

/// The compiled pattern of the characters removed from every word.
pub struct SpecialCharRegex {
    re: Regex,
}

/// Relies on `regex::Regex::new`: the fixed pattern `('s|,|\.)` is valid and compiles.
#[verifier::external_body]
pub fn get_special_char_regex() -> (r: SpecialCharRegex) {
    SpecialCharRegex { re: Regex::new(r"('s|,|\.)").unwrap() }
}

impl SpecialCharRegex {
    /// Relies on `regex::Regex::replace_all` with an empty replacement: each
    /// leftmost-first, non-overlapping match of `('s|,|\.)` is removed.
    #[verifier::external_body]
    pub(crate) fn remove(&self, s: &str) -> (r: String)
        ensures
            r@ == without_special_chars(s@),
    {
        self.re.replace_all(s, "").into_owned()
    }
}

/// A text without its leading and trailing whitespace.
pub uninterp spec fn trimmed(s: Seq<char>) -> Seq<char>;

/// A text in lowercase.
pub uninterp spec fn lowered(s: Seq<char>) -> Seq<char>;

/// The number of extended grapheme clusters of a text.
pub uninterp spec fn grapheme_count(s: Seq<char>) -> nat;

/// The pieces of a text between its Unicode word boundaries, in order.
pub uninterp spec fn word_bound_pieces(s: Seq<char>) -> Seq<Seq<char>>;

/// The Unicode sentences of a text, in order.
pub uninterp spec fn sentence_pieces(s: Seq<char>) -> Seq<Seq<char>>;

/// The lines of a text, in order.
pub uninterp spec fn line_pieces(s: Seq<char>) -> Seq<Seq<char>>;

/// Relies on `str::trim`: the result depends on the text alone.
#[verifier::external_body]
pub(crate) fn trim(s: &str) -> (r: &str)
    ensures
        r@ == trimmed(s@),
{
    s.trim()
}

/// Relies on `str::to_lowercase`: the result depends on the text alone.
#[verifier::external_body]
pub(crate) fn to_lowercase(s: &str) -> (r: String)
    ensures
        r@ == lowered(s@),
{
    s.to_lowercase()
}

/// Relies on `UnicodeSegmentation::graphemes` (extended clusters), counted.
#[verifier::external_body]
pub(crate) fn count_graphemes(s: &str) -> (r: usize)
    ensures
        r == grapheme_count(s@),
{
    s.graphemes(true).count()
}

/// Relies on `UnicodeSegmentation::split_word_bounds`: the pieces depend on the text alone.
#[verifier::external_body]
pub(crate) fn split_word_bounds(s: &str) -> (r: Vec<String>)
    ensures
        views(r@) == word_bound_pieces(s@),
{
    s.split_word_bounds().map(|w| w.to_string()).collect()
}

/// Relies on `UnicodeSegmentation::unicode_sentences`: the sentences depend on the text alone.
#[verifier::external_body]
pub(crate) fn unicode_sentences(s: &str) -> (r: Vec<String>)
    ensures
        views(r@) == sentence_pieces(s@),
{
    s.unicode_sentences().map(|w| w.to_string()).collect()
}

/// Relies on `str::lines`: the lines depend on the text alone.
#[verifier::external_body]
pub(crate) fn lines(s: &str) -> (r: Vec<String>)
    ensures
        views(r@) == line_pieces(s@),
{
    s.lines().map(|w| w.to_string()).collect()
}

/// A piece of text as a word: trimmed, without special characters, in lowercase.
pub open spec fn cleaned(w: Seq<char>) -> Seq<char> {
    lowered(without_special_chars(trimmed(w)))
}

/// A cleaned word counts as punctuation: it is empty, or one grapheme listed as punctuation.
pub open spec fn is_punctuation_spec(word: Seq<char>, punctuation: Seq<Seq<char>>) -> bool {
    word.len() == 0 || (grapheme_count(word) == 1 && punctuation.contains(word))
}

/// The word that a piece of text gives, unless it is punctuation or a stopword.
pub open spec fn kept_word(w: Seq<char>, stopwords: Seq<Seq<char>>, punctuation: Seq<Seq<char>>) -> Option<
    Seq<char>,
> {
    let word = cleaned(w);
    if is_punctuation_spec(word, punctuation) || stopwords.contains(word) {
        None
    } else {
        Some(word)
    }
}

/// The words kept from the first `k` pieces, in order.
pub open spec fn kept_words(
    pieces: Seq<Seq<char>>,
    stopwords: Seq<Seq<char>>,
    punctuation: Seq<Seq<char>>,
    k: int,
) -> Seq<Seq<char>>
    decreases k,
{
    if k <= 0 {
        seq![]
    } else {
        let p = kept_words(pieces, stopwords, punctuation, k - 1);
        match kept_word(pieces[k - 1], stopwords, punctuation) {
            Some(w) => p.push(w),
            None => p,
        }
    }
}

/// Words joined by single spaces.
pub open spec fn joined(words: Seq<Seq<char>>) -> Seq<char>
    decreases words.len(),
{
    if words.len() == 0 {
        seq![]
    } else if words.len() == 1 {
        words[0]
    } else {
        joined(words.drop_last()) + seq![' '] + words.last()
    }
}

/// A sentence as its kept words joined by spaces.
pub open spec fn clean_sentence(s: Seq<char>, stopwords: Seq<Seq<char>>, punctuation: Seq<Seq<char>>) -> Seq<char> {
    let pieces = word_bound_pieces(s);
    joined(kept_words(pieces, stopwords, punctuation, pieces.len() as int))
}

/// The cleaned sentences of the first `k` sentences, in order.
pub open spec fn clean_sentences(
    sentences: Seq<Seq<char>>,
    stopwords: Seq<Seq<char>>,
    punctuation: Seq<Seq<char>>,
    k: int,
) -> Seq<Seq<char>>
    decreases k,
{
    if k <= 0 {
        seq![]
    } else {
        clean_sentences(sentences, stopwords, punctuation, k - 1).push(
            clean_sentence(sentences[k - 1], stopwords, punctuation),
        )
    }
}

/// A text as its cleaned sentences joined by spaces.
pub open spec fn clean_text(t: Seq<char>, stopwords: Seq<Seq<char>>, punctuation: Seq<Seq<char>>) -> Seq<char> {
    let s = sentence_pieces(t);
    joined(clean_sentences(s, stopwords, punctuation, s.len() as int))
}

/// Whether `t` is among the strings of `v`.
pub fn contains_term(v: &Vec<String>, t: &str) -> (r: bool)
    ensures
        r == views(v@).contains(t@),
{
    let owned = t.to_owned();
    let mut k: usize = 0;
    while k < v.len()
        invariant
            owned@ == t@,
            k <= v@.len(),
            forall|q: int| 0 <= q < k ==> v@[q]@ != t@,
        decreases v@.len() - k,
    {
        if v[k] == owned {
            assert(views(v@).len() == v@.len());
            assert(views(v@)[k as int] == t@);
            return true;
        }
        k += 1;
    }
    false
}

/// Whether a cleaned word is punctuation: empty, or a single grapheme listed in `punctuation`.
pub fn is_punctuation(word: &str, punctuation: &Vec<String>) -> (r: bool)
    ensures
        r == is_punctuation_spec(word@, views(punctuation@)),
{
    if word.unicode_len() == 0 {
        true
    } else {
        count_graphemes(word) == 1 && contains_term(punctuation, word)
    }
}

/// The cleaned word of a piece of text, unless it is punctuation or a stopword.
pub fn process_word(
    w: &str,
    special_char_regex: &SpecialCharRegex,
    stopwords: &Vec<String>,
    punctuation: &Vec<String>,
) -> (r: Option<String>)
    ensures
        match r {
            Some(s) => kept_word(w@, views(stopwords@), views(punctuation@)) == Some(s@),
            None => kept_word(w@, views(stopwords@), views(punctuation@)) is None,
        },
{
    let word = to_lowercase(special_char_regex.remove(trim(w)).as_str());
    if is_punctuation(word.as_str(), punctuation) || contains_term(stopwords, word.as_str()) {
        None
    } else {
        Some(word)
    }
}

/// Words joined by single spaces.
pub fn join_words(words: &Vec<String>) -> (r: String)
    ensures
        r@ == joined(views(words@)),
{
    let mut r = String::new();
    let mut i: usize = 0;
    while i < words.len()
        invariant
            i <= words@.len(),
            r@ == joined(views(words@).subrange(0, i as int)),
        decreases words@.len() - i,
    {
        assert(views(words@).subrange(0, i + 1).drop_last() =~= views(words@).subrange(0, i as int));
        let ghost sub = views(words@).subrange(0, i + 1);
        assert(sub.last() == words@[i as int]@);
        if i > 0 {
            proof {
                reveal_strlit(" ");
            }
            r.append(" ");
        }
        r.append(words[i].as_str());
        i += 1;
    }
    assert(views(words@).subrange(0, words@.len() as int) =~= views(words@));
    r
}

/// The kept words of a piece sequence, in order.
pub fn process_pieces(
    pieces: &Vec<String>,
    special_char_regex: &SpecialCharRegex,
    stopwords: &Vec<String>,
    punctuation: &Vec<String>,
) -> (r: Vec<String>)
    ensures
        views(r@) == kept_words(views(pieces@), views(stopwords@), views(punctuation@), pieces@.len() as int),
{
    let ghost ps = views(pieces@);
    let mut r: Vec<String> = Vec::new();
    let mut i: usize = 0;
    while i < pieces.len()
        invariant
            ps == views(pieces@),
            i <= pieces@.len(),
            views(r@) == kept_words(ps, views(stopwords@), views(punctuation@), i as int),
        decreases pieces@.len() - i,
    {
        assert(ps[i as int] == pieces@[i as int]@);
        match process_word(pieces[i].as_str(), special_char_regex, stopwords, punctuation) {
            Some(w) => {
                r.push(w);
                assert(views(r@) =~= kept_words(ps, views(stopwords@), views(punctuation@), i + 1));
            },
            None => {},
        }
        i += 1;
    }
    r
}

/// A sentence as its kept words joined by spaces.
pub fn process_sentence(
    sentence: &str,
    special_char_regex: &SpecialCharRegex,
    stopwords: &Vec<String>,
    punctuation: &Vec<String>,
) -> (r: String)
    ensures
        r@ == clean_sentence(sentence@, views(stopwords@), views(punctuation@)),
{
    let pieces = split_word_bounds(sentence);
    let kept = process_pieces(&pieces, special_char_regex, stopwords, punctuation);
    join_words(&kept)
}

/// A text as its cleaned sentences joined by spaces.
pub fn process_text(
    text: &str,
    special_char_regex: &SpecialCharRegex,
    stopwords: &Vec<String>,
    punctuation: &Vec<String>,
) -> (r: String)
    ensures
        r@ == clean_text(text@, views(stopwords@), views(punctuation@)),
{
    let sentences = unicode_sentences(text);
    let ghost ss = views(sentences@);
    let mut cleaned: Vec<String> = Vec::new();
    let mut i: usize = 0;
    while i < sentences.len()
        invariant
            ss == views(sentences@),
            ss == sentence_pieces(text@),
            i <= sentences@.len(),
            views(cleaned@) == clean_sentences(ss, views(stopwords@), views(punctuation@), i as int),
        decreases sentences@.len() - i,
    {
        assert(ss[i as int] == sentences@[i as int]@);
        cleaned.push(process_sentence(sentences[i].as_str(), special_char_regex, stopwords, punctuation));
        assert(views(cleaned@) =~= clean_sentences(ss, views(stopwords@), views(punctuation@), i + 1));
        i += 1;
    }
    join_words(&cleaned)
}

} // verus!
