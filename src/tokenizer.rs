//! Splitting a raw text into cleaned words, sentences, phrases and paragraphs.
use vstd::prelude::*;
use vstd::string::{StrSliceExecFns, StringExecFns};
use crate::text::{split_whitespace, views, whitespace_tokens};
use crate::words::{
    clean_sentences, clean_text, cleaned, contains_term, get_special_char_regex, is_punctuation,
    is_punctuation_spec, kept_words, line_pieces, lines, process_pieces, process_sentence, process_text,
    sentence_pieces, split_word_bounds, to_lowercase, trim, trimmed, unicode_sentences, word_bound_pieces,
    SpecialCharRegex,
};

verus! {

/// The state of phrase splitting after one more piece of text: the phrases
/// found so far and the phrase being built.
pub open spec fn phrase_step(
    acc: (Seq<Seq<char>>, Seq<char>),
    piece: Seq<char>,
    stopwords: Seq<Seq<char>>,
    punctuation: Seq<Seq<char>>,
    length: Option<usize>,
) -> (Seq<Seq<char>>, Seq<char>) {
    let word = cleaned(piece);
    let phrases = acc.0;
    let phrase = acc.1;
    let next: (Seq<Seq<char>>, Seq<char>) = if is_punctuation_spec(word, punctuation) {
        (phrases, phrase)
    } else if stopwords.contains(word) {
        if phrase.len() > 0 {
            (phrases.push(phrase), seq![])
        } else {
            (phrases, phrase)
        }
    } else if phrase.len() > 0 {
        (phrases, phrase + seq![' '] + word)
    } else {
        (phrases, word)
    };
    match length {
        Some(n) => if whitespace_tokens(next.1).len() >= n {
            (next.0.push(next.1), seq![])
        } else {
            next
        },
        None => next,
    }
}

/// The state of phrase splitting after the first `k` pieces.
pub open spec fn phrase_fold(
    pieces: Seq<Seq<char>>,
    stopwords: Seq<Seq<char>>,
    punctuation: Seq<Seq<char>>,
    length: Option<usize>,
    k: int,
) -> (Seq<Seq<char>>, Seq<char>)
    decreases k,
{
    if k <= 0 {
        (seq![], seq![])
    } else {
        phrase_step(
            phrase_fold(pieces, stopwords, punctuation, length, k - 1),
            pieces[k - 1],
            stopwords,
            punctuation,
            length,
        )
    }
}

/// The phrases of a text: runs of kept words between stopwords, each cut at
/// `length` words where a length is given.
pub open spec fn phrases_of(
    text: Seq<char>,
    stopwords: Seq<Seq<char>>,
    punctuation: Seq<Seq<char>>,
    length: Option<usize>,
) -> Seq<Seq<char>> {
    let pieces = word_bound_pieces(text);
    let last = phrase_fold(pieces, stopwords, punctuation, length, pieces.len() as int);
    if last.1.len() > 0 {
        last.0.push(last.1)
    } else {
        last.0
    }
}

/// A line as a paragraph: none where it is blank.
pub open spec fn paragraph_of(line: Seq<char>, stopwords: Seq<Seq<char>>, punctuation: Seq<Seq<char>>) -> Option<
    Seq<char>,
> {
    if trimmed(line).len() == 0 {
        None
    } else {
        Some(clean_text(line, stopwords, punctuation))
    }
}

/// The paragraphs of the first `k` lines, in order.
pub open spec fn paragraphs_within(
    lines: Seq<Seq<char>>,
    stopwords: Seq<Seq<char>>,
    punctuation: Seq<Seq<char>>,
    k: int,
) -> Seq<Seq<char>>
    decreases k,
{
    if k <= 0 {
        seq![]
    } else {
        let p = paragraphs_within(lines, stopwords, punctuation, k - 1);
        match paragraph_of(lines[k - 1], stopwords, punctuation) {
            Some(x) => p.push(x),
            None => p,
        }
    }
}

/// One step of phrase splitting over the piece `base_word`.
pub fn create_phrase(
    phrases: Vec<String>,
    phrase: String,
    base_word: &str,
    special_char_regex: &SpecialCharRegex,
    punctuation: &Vec<String>,
    stopwords: &Vec<String>,
    length: Option<usize>,
) -> (r: (Vec<String>, String))
    ensures
        (views(r.0@), r.1@) == phrase_step(
            (views(phrases@), phrase@),
            base_word@,
            views(stopwords@),
            views(punctuation@),
            length,
        ),
{
    let ghost old_phrases = phrases@;
    let ghost old_phrase = phrase@;
    let mut phrases = phrases;
    let mut phrase = phrase;
    let word = to_lowercase(special_char_regex.remove(trim(base_word)).as_str());
    let ghost ps0 = views(phrases@);
    if !is_punctuation(word.as_str(), punctuation) {
        if contains_term(stopwords, word.as_str()) {
            if phrase.as_str().unicode_len() > 0 {
                phrases.push(phrase);
                assert(views(phrases@) =~= ps0.push(phrase@));
                phrase = String::new();
            }
        } else {
            if phrase.as_str().unicode_len() > 0 {
                proof {
                    reveal_strlit(" ");
                }
                phrase.append(" ");
            }
            let ghost before = phrase@;
            phrase.append(word.as_str());
            assert(before.len() == 0 ==> phrase@ =~= word@);
        }
    }
    let ghost mid = (views(phrases@), phrase@);
    assert(mid == {
        let w = cleaned(base_word@);
        let phrases0 = views(old_phrases);
        let phrase0 = old_phrase;
        if is_punctuation_spec(w, views(punctuation@)) {
            (phrases0, phrase0)
        } else if views(stopwords@).contains(w) {
            if phrase0.len() > 0 {
                (phrases0.push(phrase0), seq![])
            } else {
                (phrases0, phrase0)
            }
        } else if phrase0.len() > 0 {
            (phrases0, phrase0 + seq![' '] + w)
        } else {
            (phrases0, w)
        }
    });
    if let Some(length) = length {
        if split_whitespace(phrase.as_str()).len() >= length {
            let ghost ps1 = views(phrases@);
            phrases.push(phrase);
            assert(views(phrases@) =~= ps1.push(phrase@));
            phrase = String::new();
        }
    }
    (phrases, phrase)
}

/// A raw text together with the stopwords and punctuation that cleaning drops.
pub struct Tokenizer {
    text: String,
    stopwords: Vec<String>,
    punctuation: Vec<String>,
}

/// The punctuation marks dropped where no list is given.
pub fn default_punctuation() -> (r: Vec<String>) {
    let marks: [&str; 34] = [
        "!", "\"", "#", "$", "%", "&", "'", "(", ")", "*", "+", ",", "-", ".", "/", ":", ";", "<", "=", ">",
        "?", "@", "[", "\\", "]", "^", "_", "`", "{", "|", "}", "~", "\u{2013}", "\u{2014}",
    ];
    to_strings(&marks)
}

/// Owned copies of string slices.
pub fn to_strings(items: &[&str]) -> (r: Vec<String>)
    ensures
        views(r@) == items@.map_values(|s: &str| s@),
{
    let mut r: Vec<String> = Vec::new();
    let mut k: usize = 0;
    while k < items.len()
        invariant
            k <= items@.len(),
            r@.len() == k,
            forall|q: int| 0 <= q < k ==> #[trigger] r@[q]@ == items@[q]@,
        decreases items@.len() - k,
    {
        r.push(items[k].to_owned());
        k += 1;
    }
    assert(views(r@) =~= items@.map_values(|s: &str| s@));
    r
}

impl Tokenizer {
    pub closed spec fn text_view(&self) -> Seq<char> {
        self.text@
    }

    pub closed spec fn stopwords_view(&self) -> Seq<Seq<char>> {
        views(self.stopwords@)
    }

    pub closed spec fn punctuation_view(&self) -> Seq<Seq<char>> {
        views(self.punctuation@)
    }

    /// A tokenizer over `text`; without a punctuation list the default one is used.
    pub fn new(text: &str, stopwords: &[&str], punctuation: Option<&[&str]>) -> (r: Self)
        ensures
            r.text_view() == text@,
            r.stopwords_view() == stopwords@.map_values(|s: &str| s@),
            punctuation is Some ==> r.punctuation_view() == punctuation->0@.map_values(|s: &str| s@),
    {
        let punctuation = match punctuation {
            Some(p) => to_strings(p),
            None => default_punctuation(),
        };
        Tokenizer { text: text.to_owned(), stopwords: to_strings(stopwords), punctuation }
    }

    /// The kept words of the text, in order.
    pub fn split_into_words(&self) -> (r: Vec<String>)
        ensures
            views(r@) == kept_words(
                word_bound_pieces(self.text_view()),
                self.stopwords_view(),
                self.punctuation_view(),
                word_bound_pieces(self.text_view()).len() as int,
            ),
    {
        self.sync_split_into_words()
    }

    /// The kept words of the text, in order, on the calling thread.
    pub fn sync_split_into_words(&self) -> (r: Vec<String>)
        ensures
            views(r@) == kept_words(
                word_bound_pieces(self.text_view()),
                self.stopwords_view(),
                self.punctuation_view(),
                word_bound_pieces(self.text_view()).len() as int,
            ),
    {
        let special_char_regex = get_special_char_regex();
        let pieces = split_word_bounds(self.text.as_str());
        process_pieces(&pieces, &special_char_regex, &self.stopwords, &self.punctuation)
    }

    /// The cleaned sentences of the text, in order.
    pub fn split_into_sentences(&self) -> (r: Vec<String>)
        ensures
            views(r@) == clean_sentences(
                sentence_pieces(self.text_view()),
                self.stopwords_view(),
                self.punctuation_view(),
                sentence_pieces(self.text_view()).len() as int,
            ),
    {
        self.sync_split_into_sentences()
    }

    /// The cleaned sentences of the text, in order, on the calling thread.
    pub fn sync_split_into_sentences(&self) -> (r: Vec<String>)
        ensures
            views(r@) == clean_sentences(
                sentence_pieces(self.text_view()),
                self.stopwords_view(),
                self.punctuation_view(),
                sentence_pieces(self.text_view()).len() as int,
            ),
    {
        let special_char_regex = get_special_char_regex();
        let sentences = unicode_sentences(self.text.as_str());
        let ghost ss = views(sentences@);
        let mut r: Vec<String> = Vec::new();
        let mut i: usize = 0;
        while i < sentences.len()
            invariant
                ss == views(sentences@),
                ss == sentence_pieces(self.text_view()),
                i <= sentences@.len(),
                views(r@) == clean_sentences(ss, self.stopwords_view(), self.punctuation_view(), i as int),
            decreases sentences@.len() - i,
        {
            assert(ss[i as int] == sentences@[i as int]@);
            r.push(process_sentence(sentences[i].as_str(), &special_char_regex, &self.stopwords, &self.punctuation));
            assert(views(r@) =~= clean_sentences(ss, self.stopwords_view(), self.punctuation_view(), i + 1));
            i += 1;
        }
        r
    }

    /// The phrases of the text: runs of kept words between stopwords, each cut
    /// at `length` words where a length is given.
    pub fn split_into_phrases(&self, length: Option<usize>) -> (r: Vec<String>)
        ensures
            views(r@) == phrases_of(self.text_view(), self.stopwords_view(), self.punctuation_view(), length),
    {
        self.sync_split_into_phrases(length)
    }

    /// The phrases of the text, on the calling thread.
    pub fn sync_split_into_phrases(&self, length: Option<usize>) -> (r: Vec<String>)
        ensures
            views(r@) == phrases_of(self.text_view(), self.stopwords_view(), self.punctuation_view(), length),
    {
        let special_char_regex = get_special_char_regex();
        self.basic_phrase_split(&special_char_regex, length)
    }

    fn basic_phrase_split(&self, special_char_regex: &SpecialCharRegex, length: Option<usize>) -> (r: Vec<String>)
        ensures
            views(r@) == phrases_of(self.text_view(), self.stopwords_view(), self.punctuation_view(), length),
    {
        let pieces = split_word_bounds(self.text.as_str());
        let ghost ps = views(pieces@);
        let mut phrases: Vec<String> = Vec::new();
        let mut phrase = String::new();
        let mut i: usize = 0;
        proof {
            assert(views(phrases@) =~= seq![]);
        }
        while i < pieces.len()
            invariant
                ps == views(pieces@),
                ps == word_bound_pieces(self.text_view()),
                i <= pieces@.len(),
                (views(phrases@), phrase@) == phrase_fold(
                    ps,
                    self.stopwords_view(),
                    self.punctuation_view(),
                    length,
                    i as int,
                ),
            decreases pieces@.len() - i,
        {
            assert(ps[i as int] == pieces@[i as int]@);
            let (p, q) = create_phrase(
                phrases,
                phrase,
                pieces[i].as_str(),
                special_char_regex,
                &self.punctuation,
                &self.stopwords,
                length,
            );
            phrases = p;
            phrase = q;
            i += 1;
        }
        if phrase.as_str().unicode_len() > 0 {
            let ghost ps1 = views(phrases@);
            phrases.push(phrase);
            assert(views(phrases@) =~= ps1.push(phrase@));
        }
        phrases
    }

    /// The paragraphs of the text: each line that is not blank, cleaned.
    pub fn split_into_paragraphs(&self) -> (r: Vec<String>)
        ensures
            views(r@) == paragraphs_within(
                line_pieces(self.text_view()),
                self.stopwords_view(),
                self.punctuation_view(),
                line_pieces(self.text_view()).len() as int,
            ),
    {
        self.sync_split_into_paragraphs()
    }

    /// The paragraphs of the text, on the calling thread.
    pub fn sync_split_into_paragraphs(&self) -> (r: Vec<String>)
        ensures
            views(r@) == paragraphs_within(
                line_pieces(self.text_view()),
                self.stopwords_view(),
                self.punctuation_view(),
                line_pieces(self.text_view()).len() as int,
            ),
    {
        let special_char_regex = get_special_char_regex();
        let ls = lines(self.text.as_str());
        let ghost lv = views(ls@);
        let mut r: Vec<String> = Vec::new();
        let mut i: usize = 0;
        while i < ls.len()
            invariant
                lv == views(ls@),
                lv == line_pieces(self.text_view()),
                i <= ls@.len(),
                views(r@) == paragraphs_within(lv, self.stopwords_view(), self.punctuation_view(), i as int),
            decreases ls@.len() - i,
        {
            assert(lv[i as int] == ls@[i as int]@);
            match process_paragraph(ls[i].as_str(), &special_char_regex, &self.punctuation, &self.stopwords) {
                Some(p) => {
                    r.push(p);
                    assert(views(r@) =~= paragraphs_within(lv, self.stopwords_view(), self.punctuation_view(), i + 1));
                },
                None => {},
            }
            i += 1;
        }
        r
    }
}

/// A line as a paragraph: none where it is blank.
pub fn process_paragraph(
    paragraph: &str,
    special_char_regex: &SpecialCharRegex,
    punctuation: &Vec<String>,
    stopwords: &Vec<String>,
) -> (r: Option<String>)
    ensures
        match r {
            Some(s) => paragraph_of(paragraph@, views(stopwords@), views(punctuation@)) == Some(s@),
            None => paragraph_of(paragraph@, views(stopwords@), views(punctuation@)) is None,
        },
{
    if trim(paragraph).unicode_len() == 0 {
        return None;
    }
    Some(process_text(paragraph, special_char_regex, stopwords, punctuation))
}

} // verus!
