//! Cleaning a corpus of raw documents for term weighting.
use vstd::prelude::*;
use crate::text::views;
use crate::tokenizer::{default_punctuation, to_strings};
use crate::words::{clean_text, get_special_char_regex, process_text};

verus! {

/// A corpus of raw documents with the stopwords and punctuation that cleaning drops.
pub struct DocumentProcessor {
    documents: Vec<String>,
    stopwords: Vec<String>,
    punctuation: Vec<String>,
}

impl DocumentProcessor {
    pub closed spec fn documents_view(&self) -> Seq<Seq<char>> {
        views(self.documents@)
    }

    pub closed spec fn stopwords_view(&self) -> Seq<Seq<char>> {
        views(self.stopwords@)
    }

    pub closed spec fn punctuation_view(&self) -> Seq<Seq<char>> {
        views(self.punctuation@)
    }

    /// A processor over `documents`; without a punctuation list the default one is used.
    pub fn new(documents: &[&str], stopwords: &[&str], punctuation: Option<&[&str]>) -> (r: Self)
        ensures
            r.documents_view() == documents@.map_values(|s: &str| s@),
            r.stopwords_view() == stopwords@.map_values(|s: &str| s@),
            punctuation is Some ==> r.punctuation_view() == punctuation->0@.map_values(|s: &str| s@),
    {
        let punctuation = match punctuation {
            Some(p) => to_strings(p),
            None => default_punctuation(),
        };
        DocumentProcessor { documents: to_strings(documents), stopwords: to_strings(stopwords), punctuation }
    }

    /// Each document as its cleaned sentences joined by spaces, in order.
    pub fn process_documents(&self) -> (r: Vec<String>)
        ensures
            r@.len() == self.documents_view().len(),
            forall|i: int|
                0 <= i < r@.len() ==> #[trigger] r@[i]@ == clean_text(
                    self.documents_view()[i],
                    self.stopwords_view(),
                    self.punctuation_view(),
                ),
    {
        let special_char_regex = get_special_char_regex();
        let mut r: Vec<String> = Vec::new();
        let mut i: usize = 0;
        while i < self.documents.len()
            invariant
                i <= self.documents@.len(),
                r@.len() == i,
                forall|q: int|
                    0 <= q < i ==> #[trigger] r@[q]@ == clean_text(
                        self.documents_view()[q],
                        self.stopwords_view(),
                        self.punctuation_view(),
                    ),
            decreases self.documents@.len() - i,
        {
            assert(self.documents_view()[i as int] == self.documents@[i as int]@);
            r.push(process_text(self.documents[i].as_str(), &special_char_regex, &self.stopwords, &self.punctuation));
            i += 1;
        }
        r
    }
}

} // verus!
