//! A symmetric, normalized term-by-term co-occurrence matrix over a corpus.
//!
//! Pair counts are kept exactly as integers, saturating at `u64::MAX`; the
//! normalized strength of a pair is its count divided by the largest count.
use vstd::prelude::*;
use crate::text::{split_whitespace, views, whitespace_tokens};
use crate::window::{get_window_range, window_end};

verus! {

/// The label of `t` among the first `k` terms of `vocab`: the last position that holds it.
pub open spec fn label_within(vocab: Seq<Seq<char>>, t: Seq<char>, k: int) -> Option<usize>
    decreases k,
{
    if k <= 0 {
        None
    } else if vocab[k - 1] == t {
        Some((k - 1) as usize)
    } else {
        label_within(vocab, t, k - 1)
    }
}

/// The label of `t` in `vocab`, if `t` is a vocabulary term.
pub open spec fn label_of(vocab: Seq<Seq<char>>, t: Seq<char>) -> Option<usize> {
    label_within(vocab, t, vocab.len() as int)
}

/// The labels of a document's tokens (`None` for a token outside the vocabulary).
pub open spec fn doc_labels(vocab: Seq<Seq<char>>, toks: Seq<Seq<char>>) -> Seq<Option<usize>> {
    toks.map_values(|t: Seq<char>| label_of(vocab, t))
}

/// What one unordered pair of tokens labelled `x` and `y` adds to cell `(a, b)`:
/// it is counted once from each member's side.
pub open spec fn pair_weight(a: usize, b: usize, x: Option<usize>, y: Option<usize>) -> nat {
    (if x == Some(a) && y == Some(b) { 1nat } else { 0nat }) + (if x == Some(b) && y == Some(a) {
        1nat
    } else {
        0nat
    })
}

/// What the pairs `(i, j)` with `i < j < end` add to cell `(a, b)`.
pub open spec fn pair_sum(l: Seq<Option<usize>>, a: usize, b: usize, i: int, end: int) -> nat
    decreases end - i,
{
    if end <= i + 1 {
        0
    } else {
        pair_sum(l, a, b, i, end - 1) + pair_weight(a, b, l[i], l[end - 1])
    }
}

/// What the windows of the first `k` positions of a document add to cell `(a, b)`.
pub open spec fn doc_sum(l: Seq<Option<usize>>, w: int, a: usize, b: usize, k: int) -> nat
    decreases k,
{
    if k <= 0 {
        0
    } else {
        doc_sum(l, w, a, b, k - 1) + pair_sum(l, a, b, k - 1, window_end(w, k - 1, l.len() as int))
    }
}

/// What the first `d` documents add to cell `(a, b)`.
pub open spec fn corpus_sum(
    vocab: Seq<Seq<char>>,
    docs: Seq<Seq<Seq<char>>>,
    w: int,
    a: usize,
    b: usize,
    d: int,
) -> nat
    decreases d,
{
    if d <= 0 {
        0
    } else {
        let l = doc_labels(vocab, docs[d - 1]);
        corpus_sum(vocab, docs, w, a, b, d - 1) + doc_sum(l, w, a, b, l.len() as int)
    }
}

/// The co-occurrence count of labels `a` and `b`: over every document, each
/// unordered pair of positions at most `w` apart whose tokens are labelled `a`
/// and `b`, counted once from each member's side (so a pair labelled `a` and `a`
/// counts twice in cell `(a, a)`).
pub open spec fn co_count(vocab: Seq<Seq<char>>, docs: Seq<Seq<Seq<char>>>, w: int, a: usize, b: usize) -> nat {
    corpus_sum(vocab, docs, w, a, b, docs.len() as int)
}

/// A count held in a `u64`, which saturates.
pub open spec fn sat(x: nat) -> u64 {
    if x >= u64::MAX { u64::MAX } else { x as u64 }
}

/// The views of a corpus of tokenized documents.
pub open spec fn corpus_views(docs: Seq<Vec<String>>) -> Seq<Seq<Seq<char>>> {
    docs.map_values(|d: Vec<String>| views(d@))
}

/// The views of the vocabulary terms.
pub open spec fn term_views(words: Seq<&str>) -> Seq<Seq<char>> {
    words.map_values(|w: &str| w@)
}

/// The tokens of each raw document.
pub open spec fn corpus_tokens(documents: Seq<&str>) -> Seq<Seq<Seq<char>>> {
    documents.map_values(|s: &str| whitespace_tokens(s@))
}

/// `m` is the `n` by `n` count matrix of the corpus and `max` its largest cell.
pub open spec fn is_count_matrix(
    m: Seq<Vec<u64>>,
    max: u64,
    vocab: Seq<Seq<char>>,
    docs: Seq<Seq<Seq<char>>>,
    w: int,
) -> bool {
    &&& m.len() == vocab.len()
    &&& forall|a: int| 0 <= a < m.len() ==> #[trigger] m[a]@.len() == vocab.len()
    &&& forall|a: int, b: int|
        0 <= a < m.len() && 0 <= b < m.len() ==> #[trigger] m[a]@[b] == sat(
            co_count(vocab, docs, w, a as usize, b as usize),
        )
    &&& forall|a: int, b: int| 0 <= a < m.len() && 0 <= b < m.len() ==> #[trigger] m[a]@[b] <= max
    &&& max == 0 || exists|a: int, b: int|
        0 <= a < m.len() && 0 <= b < m.len() && #[trigger] m[a]@[b] == max
}

/// Finds the label of a token: the last vocabulary position holding it.
pub(crate) fn find_label(vocab: &Vec<String>, t: &String) -> (r: Option<usize>)
    ensures
        r == label_of(views(vocab@), t@),
        r is Some ==> r->0 < vocab@.len(),
{
    let mut k: usize = vocab.len();
    while k > 0
        invariant
            k <= vocab@.len(),
            label_of(views(vocab@), t@) == label_within(views(vocab@), t@, k as int),
        decreases k,
    {
        if vocab[k - 1] == *t {
            return Some(k - 1);
        }
        k -= 1;
    }
    None
}

/// The matrix is `n` by `n`.
pub open spec fn is_square(m: Seq<Vec<u64>>, n: int) -> bool {
    m.len() == n && forall|a: int| 0 <= a < n ==> #[trigger] m[a]@.len() == n
}

/// `max` is the largest cell of the `n` by `n` matrix `m`.
pub open spec fn is_max_cell(m: Seq<Vec<u64>>, n: int, max: u64) -> bool {
    &&& forall|a: int, b: int| 0 <= a < n && 0 <= b < n ==> #[trigger] m[a]@[b] <= max
    &&& max == 0 || exists|a: int, b: int| 0 <= a < n && 0 <= b < n && #[trigger] m[a]@[b] == max
}

/// Adds one to cell `(a, b)`, saturating, and keeps `max` the largest cell.
fn bump(matrix: &mut Vec<Vec<u64>>, max: &mut u64, n: usize, a: usize, b: usize)
    requires
        is_square(old(matrix)@, n as int),
        a < n,
        b < n,
        is_max_cell(old(matrix)@, n as int, *old(max)),
    ensures
        is_square(final(matrix)@, n as int),
        is_max_cell(final(matrix)@, n as int, *final(max)),
        forall|x: int, y: int|
            0 <= x < n && 0 <= y < n ==> #[trigger] final(matrix)@[x]@[y] == if x == a && y == b {
                sat((old(matrix)@[x]@[y] + 1) as nat)
            } else {
                old(matrix)@[x]@[y]
            },
{
    let ghost m0 = matrix@;
    let ghost mx0 = *max;
    let v = matrix[a][b].saturating_add(1);
    matrix[a][b] = v;
    if v > *max {
        *max = v;
    }
    proof {
        assert forall|x: int, y: int| 0 <= x < n && 0 <= y < n implies #[trigger] matrix@[x]@[y] == if x == a && y == b {
            sat((m0[x]@[y] + 1) as nat)
        } else {
            m0[x]@[y]
        } by {
            if x != a {
                assert(matrix@[x] == m0[x]);
            }
        }
        if mx0 != 0 && v <= mx0 {
            let (x0, y0) = choose|x0: int, y0: int| 0 <= x0 < n && 0 <= y0 < n && #[trigger] m0[x0]@[y0] == mx0;
            assert(matrix@[x0]@[y0] == *max);
        }
    }
}

/// Builds the count matrix of a tokenized corpus over a vocabulary, with its largest cell.
pub(crate) fn get_matrix(documents: &Vec<Vec<String>>, vocab: &Vec<String>, window_size: usize) -> (r: (Vec<Vec<u64>>, u64))
    ensures
        is_count_matrix(r.0@, r.1, views(vocab@), corpus_views(documents@), window_size as int),
{
    let ghost voc = views(vocab@);
    let ghost docs = corpus_views(documents@);
    let ghost w = window_size as int;
    let n = vocab.len();
    let mut matrix: Vec<Vec<u64>> = Vec::new();
    let mut x: usize = 0;
    while x < n
        invariant
            n == vocab@.len(),
            x <= n,
            matrix@.len() == x,
            forall|a: int| 0 <= a < x ==> #[trigger] matrix@[a]@.len() == n,
            forall|a: int, b: int| 0 <= a < x && 0 <= b < n ==> #[trigger] matrix@[a]@[b] == 0,
        decreases n - x,
    {
        let mut row: Vec<u64> = Vec::new();
        let mut y: usize = 0;
        while y < n
            invariant
                y <= n,
                row@.len() == y,
                forall|b: int| 0 <= b < y ==> row@[b] == 0,
            decreases n - y,
        {
            row.push(0);
            y += 1;
        }
        matrix.push(row);
        x += 1;
    }
    let mut max: u64 = 0;
    let mut d: usize = 0;
    while d < documents.len()
        invariant
            n == vocab@.len(),
            voc == views(vocab@),
            docs == corpus_views(documents@),
            w == window_size as int,
            d <= documents@.len(),
            matrix@.len() == n,
            forall|a: int| 0 <= a < n ==> #[trigger] matrix@[a]@.len() == n,
            forall|a: int, b: int|
                0 <= a < n && 0 <= b < n ==> #[trigger] matrix@[a]@[b] == sat(
                    corpus_sum(voc, docs, w, a as usize, b as usize, d as int),
                ),
            forall|a: int, b: int| 0 <= a < n && 0 <= b < n ==> #[trigger] matrix@[a]@[b] <= max,
            max == 0 || exists|a: int, b: int|
                0 <= a < n && 0 <= b < n && #[trigger] matrix@[a]@[b] == max,
        decreases documents@.len() - d,
    {
        let doc = &documents[d];
        let mut labels: Vec<Option<usize>> = Vec::new();
        let mut t: usize = 0;
        while t < doc.len()
            invariant
                voc == views(vocab@),
                t <= doc@.len(),
                labels@.len() == t,
                forall|q: int| 0 <= q < t ==> labels@[q] == label_of(voc, #[trigger] doc@[q]@),
                forall|q: int| 0 <= q < t ==> #[trigger] labels@[q] is Some ==> labels@[q]->0 < n,
                n == vocab@.len(),
            decreases doc@.len() - t,
        {
            labels.push(find_label(vocab, &doc[t]));
            t += 1;
        }
        let ghost l = doc_labels(voc, docs[d as int]);
        assert(labels@ =~= l);
        let len = labels.len();
        let mut i: usize = 0;
        while i < len
            invariant
                n == vocab@.len(),
                len == l.len(),
                labels@ == l,
                forall|q: int| 0 <= q < len ==> #[trigger] labels@[q] is Some ==> labels@[q]->0 < n,
                i <= len,
                w == window_size as int,
                voc == views(vocab@),
                docs == corpus_views(documents@),
                d < documents@.len(),
                matrix@.len() == n,
                forall|a: int| 0 <= a < n ==> #[trigger] matrix@[a]@.len() == n,
                forall|a: int, b: int|
                    0 <= a < n && 0 <= b < n ==> #[trigger] matrix@[a]@[b] == sat(
                        corpus_sum(voc, docs, w, a as usize, b as usize, d as int) + doc_sum(
                            l,
                            w,
                            a as usize,
                            b as usize,
                            i as int,
                        ),
                    ),
                forall|a: int, b: int| 0 <= a < n && 0 <= b < n ==> #[trigger] matrix@[a]@[b] <= max,
                max == 0 || exists|a: int, b: int|
                    0 <= a < n && 0 <= b < n && #[trigger] matrix@[a]@[b] == max,
            decreases len - i,
        {
            let end = get_window_range(window_size, i, len).end;
            let mut j: usize = i + 1;
            while j < end
                invariant
                    n == vocab@.len(),
                    len == l.len(),
                    labels@ == l,
                    forall|q: int| 0 <= q < len ==> #[trigger] labels@[q] is Some ==> labels@[q]->0 < n,
                    i < len,
                    w == window_size as int,
                    voc == views(vocab@),
                    docs == corpus_views(documents@),
                    d < documents@.len(),
                    i + 1 <= j <= end,
                    end == window_end(w, i as int, len as int),
                    end <= len,
                    matrix@.len() == n,
                    forall|a: int| 0 <= a < n ==> #[trigger] matrix@[a]@.len() == n,
                    forall|a: int, b: int|
                        0 <= a < n && 0 <= b < n ==> #[trigger] matrix@[a]@[b] == sat(
                            corpus_sum(voc, docs, w, a as usize, b as usize, d as int) + doc_sum(
                                l,
                                w,
                                a as usize,
                                b as usize,
                                i as int,
                            ) + pair_sum(l, a as usize, b as usize, i as int, j as int),
                        ),
                    forall|a: int, b: int| 0 <= a < n && 0 <= b < n ==> #[trigger] matrix@[a]@[b] <= max,
                    max == 0 || exists|a: int, b: int|
                        0 <= a < n && 0 <= b < n && #[trigger] matrix@[a]@[b] == max,
                decreases end - j,
            {
                let ghost m0 = matrix@;
                if let (Some(a), Some(b)) = (labels[i], labels[j]) {
                    bump(&mut matrix, &mut max, n, a, b);
                    bump(&mut matrix, &mut max, n, b, a);
                }
                proof {
                    assert forall|x: int, y: int| 0 <= x < n && 0 <= y < n implies #[trigger] matrix@[x]@[y]
                        == sat(
                        corpus_sum(voc, docs, w, x as usize, y as usize, d as int) + doc_sum(
                            l,
                            w,
                            x as usize,
                            y as usize,
                            i as int,
                        ) + pair_sum(l, x as usize, y as usize, i as int, j + 1),
                    ) by {
                        assert(pair_sum(l, x as usize, y as usize, i as int, j + 1) == pair_sum(
                            l,
                            x as usize,
                            y as usize,
                            i as int,
                            j as int,
                        ) + pair_weight(x as usize, y as usize, l[i as int], l[j as int]));
                        assert(m0[x]@[y] == sat(
                            corpus_sum(voc, docs, w, x as usize, y as usize, d as int) + doc_sum(
                                l,
                                w,
                                x as usize,
                                y as usize,
                                i as int,
                            ) + pair_sum(l, x as usize, y as usize, i as int, j as int),
                        ));
                    }
                }
                j += 1;
            }
            i += 1;
        }
        d += 1;
    }
    (matrix, max)
}

/// Labels with a positive count among the first `k` cells of a row, in order.
pub open spec fn nonzero_within(row: Seq<u64>, k: int) -> Seq<usize>
    decreases k,
{
    if k <= 0 {
        seq![]
    } else if row[k - 1] > 0 {
        nonzero_within(row, k - 1).push((k - 1) as usize)
    } else {
        nonzero_within(row, k - 1)
    }
}

/// A normalized co-occurrence strength, the fraction `count / scale`: a pair's
/// count over the largest count of its matrix (`scale` is 1 where every count is 0).
#[derive(Clone, Copy, Debug, PartialEq, Eq, Structural)]
pub struct Strength {
    pub count: u64,
    pub scale: u64,
}

/// A co-occurrence matrix over a fixed vocabulary; a term's label is its position
/// in the vocabulary.
pub struct CoOccurrence {
    matrix: Vec<Vec<u64>>,
    max: u64,
    words: Vec<String>,
}

impl CoOccurrence {
    /// The vocabulary, in label order.
    pub closed spec fn vocab(&self) -> Seq<Seq<char>> {
        views(self.words@)
    }

    /// The counts of the row of label `a`.
    pub closed spec fn row(&self, a: int) -> Seq<u64> {
        self.matrix@[a]@
    }

    /// The largest count of the matrix.
    pub closed spec fn max_count(&self) -> u64 {
        self.max
    }

    pub open spec fn size(&self) -> int {
        self.vocab().len() as int
    }

    pub open spec fn count(&self, a: int, b: int) -> u64 {
        self.row(a)[b]
    }

    /// The denominator of every normalized strength.
    pub open spec fn scale(&self) -> u64 {
        if self.max_count() == 0 {
            1
        } else {
            self.max_count()
        }
    }

    pub open spec fn strength(&self, a: int, b: int) -> Strength {
        Strength { count: self.count(a, b), scale: self.scale() }
    }

    /// The strength between two terms, if both are in the vocabulary.
    pub open spec fn relation(&self, t1: Seq<char>, t2: Seq<char>) -> Option<Strength> {
        match (label_of(self.vocab(), t1), label_of(self.vocab(), t2)) {
            (Some(a), Some(b)) => Some(self.strength(a as int, b as int)),
            _ => None,
        }
    }

    /// Well-formed: a square matrix over the vocabulary whose largest cell is `max_count`.
    pub closed spec fn wf(&self) -> bool {
        &&& is_square(self.matrix@, self.words@.len() as int)
        &&& is_max_cell(self.matrix@, self.words@.len() as int, self.max)
    }

    /// The matrix counts the co-occurrences of `docs` over `vocab` within radius `w`.
    pub open spec fn counts(&self, docs: Seq<Seq<Seq<char>>>, vocab: Seq<Seq<char>>, w: int) -> bool {
        &&& self.vocab() == vocab
        &&& forall|a: int, b: int|
            0 <= a < vocab.len() && 0 <= b < vocab.len() ==> #[trigger] self.count(a, b) == sat(
                co_count(vocab, docs, w, a as usize, b as usize),
            )
    }

    proof fn lemma_from_count_matrix(&self, docs: Seq<Seq<Seq<char>>>, w: int)
        requires
            is_count_matrix(self.matrix@, self.max, self.vocab(), docs, w),
            self.words@.len() == self.vocab().len(),
        ensures
            self.wf(),
            self.counts(docs, self.vocab(), w),
    {
    }

    /// Builds the matrix of a corpus of documents already split into tokens.
    pub fn from_tokens(documents: &Vec<Vec<String>>, words: &[&str], window_size: usize) -> (r: Self)
        ensures
            r.wf(),
            r.counts(corpus_views(documents@), term_views(words@), window_size as int),
    {
        let mut vocab: Vec<String> = Vec::new();
        let mut k: usize = 0;
        while k < words.len()
            invariant
                k <= words@.len(),
                vocab@.len() == k,
                forall|q: int| 0 <= q < k ==> #[trigger] vocab@[q]@ == words@[q]@,
            decreases words@.len() - k,
        {
            vocab.push(words[k].to_owned());
            k += 1;
        }
        assert(views(vocab@) =~= term_views(words@));
        let (matrix, max) = get_matrix(documents, &vocab, window_size);
        let r = CoOccurrence { matrix, max, words: vocab };
        proof {
            r.lemma_from_count_matrix(corpus_views(documents@), window_size as int);
        }
        r
    }

    /// Builds the matrix of a corpus of whitespace-delimited documents.
    pub fn new(documents: &[&str], words: &[&str], window_size: usize) -> (r: Self)
        ensures
            r.wf(),
            r.counts(corpus_tokens(documents@), term_views(words@), window_size as int),
    {
        let mut tokens: Vec<Vec<String>> = Vec::new();
        let mut d: usize = 0;
        while d < documents.len()
            invariant
                d <= documents@.len(),
                tokens@.len() == d,
                forall|q: int| 0 <= q < d ==> views(#[trigger] tokens@[q]@) == whitespace_tokens(documents@[q]@),
            decreases documents@.len() - d,
        {
            tokens.push(split_whitespace(documents[d]));
            d += 1;
        }
        assert(corpus_views(tokens@) =~= corpus_tokens(documents@));
        Self::from_tokens(&tokens, words, window_size)
    }

    /// The label of a term, if it is in the vocabulary.
    pub fn get_label(&self, word: &str) -> (r: Option<usize>)
        requires
            self.wf(),
        ensures
            r == label_of(self.vocab(), word@),
            r is Some ==> r->0 < self.size(),
    {
        let t = word.to_owned();
        find_label(&self.words, &t)
    }

    /// The term of a label, if the label is in range.
    pub fn get_word(&self, label: usize) -> (r: Option<&str>)
        ensures
            r is Some <==> label < self.size(),
            r is Some ==> r->0@ == self.vocab()[label as int],
    {
        if label < self.words.len() {
            Some(self.words[label].as_str())
        } else {
            None
        }
    }

    /// The vocabulary, in label order.
    pub fn get_labels(&self) -> (r: &Vec<String>)
        ensures
            views(r@) == self.vocab(),
    {
        &self.words
    }

    /// The normalized matrix, indexed by label.
    pub fn get_matrix(&self) -> (r: Vec<Vec<Strength>>)
        requires
            self.wf(),
        ensures
            r@.len() == self.size(),
            forall|a: int| 0 <= a < self.size() ==> #[trigger] r@[a]@.len() == self.size(),
            forall|a: int, b: int|
                0 <= a < self.size() && 0 <= b < self.size() ==> #[trigger] r@[a]@[b] == self.strength(a, b),
    {
        let mut r: Vec<Vec<Strength>> = Vec::new();
        let mut a: usize = 0;
        while a < self.words.len()
            invariant
                self.wf(),
                a <= self.size(),
                r@.len() == a,
                forall|x: int| 0 <= x < a ==> #[trigger] r@[x]@.len() == self.size(),
                forall|x: int, y: int|
                    0 <= x < a && 0 <= y < self.size() ==> #[trigger] r@[x]@[y] == self.strength(x, y),
            decreases self.size() - a,
        {
            r.push(self.row_strengths(a));
            a += 1;
        }
        r
    }

    /// The normalized strengths of the row of label `a`.
    fn row_strengths(&self, a: usize) -> (r: Vec<Strength>)
        requires
            self.wf(),
            a < self.size(),
        ensures
            r@.len() == self.size(),
            forall|b: int| 0 <= b < self.size() ==> #[trigger] r@[b] == self.strength(a as int, b),
    {
        let scale = if self.max == 0 { 1 } else { self.max };
        let row = &self.matrix[a];
        let mut r: Vec<Strength> = Vec::new();
        let mut b: usize = 0;
        while b < row.len()
            invariant
                self.wf(),
                a < self.size(),
                row@ == self.row(a as int),
                scale == self.scale(),
                b <= row@.len(),
                r@.len() == b,
                forall|y: int| 0 <= y < b ==> #[trigger] r@[y] == self.strength(a as int, y),
            decreases row@.len() - b,
        {
            r.push(Strength { count: row[b], scale });
            b += 1;
        }
        r
    }

    /// The normalized row of a term, if it is in the vocabulary.
    pub fn get_matrix_row(&self, word: &str) -> (r: Option<Vec<Strength>>)
        requires
            self.wf(),
        ensures
            r is None <==> label_of(self.vocab(), word@) is None,
            r is Some ==> {
                let a = label_of(self.vocab(), word@)->0 as int;
                &&& r->0@.len() == self.size()
                &&& forall|b: int| 0 <= b < self.size() ==> #[trigger] r->0@[b] == self.strength(a, b)
            },
    {
        match self.get_label(word) {
            Some(a) => Some(self.row_strengths(a)),
            None => None,
        }
    }

    /// The normalized strength between two terms, if both are in the vocabulary.
    pub fn get_relation(&self, word1: &str, word2: &str) -> (r: Option<Strength>)
        requires
            self.wf(),
        ensures
            r == self.relation(word1@, word2@),
    {
        let a = match self.get_label(word1) {
            Some(l) => l,
            None => return None,
        };
        let b = match self.get_label(word2) {
            Some(l) => l,
            None => return None,
        };
        let scale = if self.max == 0 { 1 } else { self.max };
        Some(Strength { count: self.matrix[a][b], scale })
    }

    /// `r` pairs each label of `ls` with its term and its strength against `a`.
    pub open spec fn lists_relations(&self, a: int, ls: Seq<usize>, r: Seq<(&str, Strength)>) -> bool {
        &&& r.len() == ls.len()
        &&& forall|i: int| 0 <= i < r.len() ==> #[trigger] self.relation_at(a, ls, r, i)
    }

    pub open spec fn relation_at(&self, a: int, ls: Seq<usize>, r: Seq<(&str, Strength)>, i: int) -> bool {
        &&& ls[i] < self.size()
        &&& r[i].0@ == self.vocab()[ls[i] as int]
        &&& r[i].1 == self.strength(a, ls[i] as int)
    }

    /// The terms that co-occur with `word`, with their strengths, in label order.
    pub fn get_relations(&self, word: &str) -> (r: Option<Vec<(&str, Strength)>>)
        requires
            self.wf(),
        ensures
            r is None <==> label_of(self.vocab(), word@) is None,
            r is Some ==> {
                let a = label_of(self.vocab(), word@)->0 as int;
                self.lists_relations(a, nonzero_within(self.row(a), self.size()), r->0@)
            },
    {
        let a = match self.get_label(word) {
            Some(l) => l,
            None => return None,
        };
        let scale = if self.max == 0 { 1 } else { self.max };
        let row = &self.matrix[a];
        let mut r: Vec<(&str, Strength)> = Vec::new();
        let mut b: usize = 0;
        while b < row.len()
            invariant
                self.wf(),
                a < self.size(),
                row@ == self.row(a as int),
                row@.len() == self.size(),
                scale == self.scale(),
                b <= row@.len(),
                self.lists_relations(a as int, nonzero_within(row@, b as int), r@),
            decreases row@.len() - b,
        {
            let ghost prev = nonzero_within(row@, b as int);
            let ghost r_old = r@;
            assert(nonzero_within(row@, b + 1) == if row@[b as int] > 0 {
                prev.push(b)
            } else {
                prev
            });
            assert(self.words@[b as int]@ == self.vocab()[b as int]);
            if row[b] > 0 {
                let t = self.words[b].as_str();
                assert(t@ == self.vocab()[b as int]);
                r.push((t, Strength { count: row[b], scale }));
                assert(r@[r@.len() - 1].0@ == self.vocab()[b as int]);
                assert(r@[r@.len() - 1].1 == self.strength(a as int, b as int));
            }
            let ghost next = nonzero_within(row@, b + 1);
            assert forall|i: int| 0 <= i < r@.len() implies #[trigger] self.relation_at(a as int, next, r@, i)
 by {
                if i < prev.len() {
                    assert(next[i] == prev[i]);
                    assert(r@[i] == r_old[i]);
                    assert(self.relation_at(a as int, prev, r_old, i));
                }
            }
            assert(r_old.len() == prev.len());
            assert(r@.len() == next.len());
            assert(self.lists_relations(a as int, next, r@));
            b += 1;
            assert(next == nonzero_within(row@, b as int));
        }
        Some(r)
    }
}

proof fn lemma_pair_sum_symmetric(l: Seq<Option<usize>>, a: usize, b: usize, i: int, end: int)
    ensures
        pair_sum(l, a, b, i, end) == pair_sum(l, b, a, i, end),
    decreases end - i,
{
    if end > i + 1 {
        lemma_pair_sum_symmetric(l, a, b, i, end - 1);
    }
}

proof fn lemma_doc_sum_symmetric(l: Seq<Option<usize>>, w: int, a: usize, b: usize, k: int)
    ensures
        doc_sum(l, w, a, b, k) == doc_sum(l, w, b, a, k),
    decreases k,
{
    if k > 0 {
        lemma_doc_sum_symmetric(l, w, a, b, k - 1);
        lemma_pair_sum_symmetric(l, a, b, k - 1, window_end(w, k - 1, l.len() as int));
    }
}

proof fn lemma_corpus_sum_symmetric(
    vocab: Seq<Seq<char>>,
    docs: Seq<Seq<Seq<char>>>,
    w: int,
    a: usize,
    b: usize,
    d: int,
)
    ensures
        corpus_sum(vocab, docs, w, a, b, d) == corpus_sum(vocab, docs, w, b, a, d),
    decreases d,
{
    if d > 0 {
        lemma_corpus_sum_symmetric(vocab, docs, w, a, b, d - 1);
        let l = doc_labels(vocab, docs[d - 1]);
        lemma_doc_sum_symmetric(l, w, a, b, l.len() as int);
    }
}

/// The co-occurrence count of two labels does not depend on their order.
pub proof fn lemma_co_count_symmetric(vocab: Seq<Seq<char>>, docs: Seq<Seq<Seq<char>>>, w: int, a: usize, b: usize)
    ensures
        co_count(vocab, docs, w, a, b) == co_count(vocab, docs, w, b, a),
{
    lemma_corpus_sum_symmetric(vocab, docs, w, a, b, docs.len() as int);
}

/// Symmetry: in a matrix built from a corpus, the relation between any two
/// terms is the relation between them in the other order.
pub proof fn lemma_relation_symmetric(
    c: &CoOccurrence,
    docs: Seq<Seq<Seq<char>>>,
    vocab: Seq<Seq<char>>,
    w: int,
    t1: Seq<char>,
    t2: Seq<char>,
)
    requires
        c.wf(),
        c.counts(docs, vocab, w),
    ensures
        c.relation(t1, t2) == c.relation(t2, t1),
{
    if let (Some(a), Some(b)) = (label_of(vocab, t1), label_of(vocab, t2)) {
        lemma_label_in_range(vocab, t1, vocab.len() as int);
        lemma_label_in_range(vocab, t2, vocab.len() as int);
        lemma_co_count_symmetric(vocab, docs, w, a, b);
        assert(c.count(a as int, b as int) == c.count(b as int, a as int));
    }
}

/// A label lies within the part of the vocabulary searched.
pub proof fn lemma_label_in_range(vocab: Seq<Seq<char>>, t: Seq<char>, k: int)
    ensures
        label_within(vocab, t, k) is Some ==> label_within(vocab, t, k)->0 < k,
    decreases k,
{
    if k > 0 {
        lemma_label_in_range(vocab, t, k - 1);
    }
}

/// Normalization: no strength exceeds 1; where some pair co-occurs, some
/// strength is exactly 1; otherwise every strength is 0.
pub proof fn lemma_normalized_peak(c: &CoOccurrence)
    requires
        c.wf(),
    ensures
        forall|a: int, b: int|
            0 <= a < c.size() && 0 <= b < c.size() ==> #[trigger] c.strength(a, b).count <= c.strength(a, b).scale,
        (exists|a: int, b: int| 0 <= a < c.size() && 0 <= b < c.size() && #[trigger] c.count(a, b) > 0) ==> exists|
            a: int,
            b: int,
        | 0 <= a < c.size() && 0 <= b < c.size() && #[trigger] c.strength(a, b).count == c.strength(a, b).scale,
        (forall|a: int, b: int| 0 <= a < c.size() && 0 <= b < c.size() ==> #[trigger] c.count(a, b) == 0)
            ==> forall|a: int, b: int|
            0 <= a < c.size() && 0 <= b < c.size() ==> #[trigger] c.strength(a, b).count == 0,
{
    assert(c.words@.len() == c.size());
    if exists|a: int, b: int| 0 <= a < c.size() && 0 <= b < c.size() && #[trigger] c.count(a, b) > 0 {
        let (a, b) = choose|a: int, b: int| 0 <= a < c.size() && 0 <= b < c.size() && #[trigger] c.count(a, b) > 0;
        assert(c.matrix@[a]@[b] <= c.max);
        let (x, y) = choose|x: int, y: int|
            0 <= x < c.size() && 0 <= y < c.size() && #[trigger] c.matrix@[x]@[y] == c.max;
        assert(c.strength(x, y).count == c.strength(x, y).scale);
    }
    assert forall|a: int, b: int| 0 <= a < c.size() && 0 <= b < c.size() implies #[trigger] c.strength(a, b).count
        <= c.strength(a, b).scale by {
        assert(c.matrix@[a]@[b] <= c.max);
    }
}

/// Determinism: two matrices built from the same corpus, vocabulary and window
/// hold the same vocabulary and the same strength for every pair of labels.
pub proof fn lemma_construction_deterministic(
    c1: &CoOccurrence,
    c2: &CoOccurrence,
    docs: Seq<Seq<Seq<char>>>,
    vocab: Seq<Seq<char>>,
    w: int,
)
    requires
        c1.wf(),
        c2.wf(),
        c1.counts(docs, vocab, w),
        c2.counts(docs, vocab, w),
    ensures
        c1.vocab() == c2.vocab(),
        forall|a: int, b: int|
            0 <= a < vocab.len() && 0 <= b < vocab.len() ==> #[trigger] c1.strength(a, b) == c2.strength(a, b),
{
    assert(c1.words@.len() == vocab.len() && c2.words@.len() == vocab.len());
    if c1.max != c2.max {
        if c1.max < c2.max {
            let (x, y) = choose|x: int, y: int|
                0 <= x < vocab.len() && 0 <= y < vocab.len() && #[trigger] c2.matrix@[x]@[y] == c2.max;
            assert(c1.count(x, y) == c2.count(x, y));
            assert(c1.matrix@[x]@[y] <= c1.max);
        } else {
            let (x, y) = choose|x: int, y: int|
                0 <= x < vocab.len() && 0 <= y < vocab.len() && #[trigger] c1.matrix@[x]@[y] == c1.max;
            assert(c1.count(x, y) == c2.count(x, y));
            assert(c2.matrix@[x]@[y] <= c2.max);
        }
    }
}

} // verus!
