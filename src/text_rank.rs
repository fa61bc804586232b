//! The weighted, undirected word graph that TextRank scores, and the lookups
//! that the power iteration and phrase scoring read from it.
//!
//! Two distinct words are joined by an edge whose weight counts how often one
//! follows the other within the window; a word never has an edge to itself.
use vstd::prelude::*;
use crate::co_occurrence::{
    co_count, corpus_sum, doc_labels, doc_sum, find_label, label_of, pair_sum, pair_weight, sat, term_views,
};
use crate::window::{get_window_range, window_end};
use crate::text::{split_whitespace, views, whitespace_tokens};
use crate::words::contains_term;

verus! {

/// The distinct terms of `s`, in order of first appearance.
pub open spec fn distinct_terms(s: Seq<Seq<char>>) -> Seq<Seq<char>>
    decreases s.len(),
{
    if s.len() == 0 {
        seq![]
    } else {
        let p = distinct_terms(s.drop_last());
        if p.contains(s.last()) {
            p
        } else {
            p.push(s.last())
        }
    }
}

/// The weight of the edge between nodes `a` and `b` of the graph of `words`.
pub open spec fn edge_weight(words: Seq<Seq<char>>, w: int, a: usize, b: usize) -> u64 {
    if a == b {
        0
    } else {
        sat(co_count(distinct_terms(words), seq![words], w, a, b))
    }
}

/// The weight that a row of `(label, weight)` entries gives label `b` (0 where absent).
pub open spec fn row_weight(row: Seq<(usize, u64)>, b: usize) -> u64
    decreases row.len(),
{
    if row.len() == 0 {
        0
    } else if row.last().0 == b {
        row.last().1
    } else {
        row_weight(row.drop_last(), b)
    }
}

/// The sum of the weights of a row's entries.
pub open spec fn entries_total(row: Seq<(usize, u64)>) -> nat
    decreases row.len(),
{
    if row.len() == 0 {
        0
    } else {
        (entries_total(row.drop_last()) + row.last().1) as nat
    }
}

/// A row lists distinct labels below `n`, each with a positive weight.
pub open spec fn is_row(row: Seq<(usize, u64)>, n: int) -> bool {
    &&& forall|i: int| 0 <= i < row.len() ==> #[trigger] row[i].0 < n && row[i].1 > 0
    &&& forall|i: int, j: int| 0 <= i < j < row.len() ==> row[i].0 != row[j].0
}

proof fn lemma_row_weight_absent(row: Seq<(usize, u64)>, b: usize)
    requires
        forall|i: int| 0 <= i < row.len() ==> row[i].0 != b,
    ensures
        row_weight(row, b) == 0,
    decreases row.len(),
{
    if row.len() > 0 {
        lemma_row_weight_absent(row.drop_last(), b);
    }
}

proof fn lemma_row_weight_at(row: Seq<(usize, u64)>, n: int, k: int)
    requires
        is_row(row, n),
        0 <= k < row.len(),
    ensures
        row_weight(row, row[k].0) == row[k].1,
    decreases row.len(),
{
    if k < row.len() - 1 {
        assert(row.drop_last()[k] == row[k]);
        lemma_row_weight_at(row.drop_last(), n, k);
    }
}

proof fn lemma_row_weight_update(row: Seq<(usize, u64)>, n: int, k: int, v: u64, y: usize)
    requires
        is_row(row, n),
        0 <= k < row.len(),
    ensures
        row_weight(row.update(k, (row[k].0, v)), y) == if y == row[k].0 {
            v
        } else {
            row_weight(row, y)
        },
    decreases row.len(),
{
    let r2 = row.update(k, (row[k].0, v));
    if k == row.len() - 1 {
        assert(r2.drop_last() =~= row.drop_last());
    } else {
        assert(r2.drop_last() =~= row.drop_last().update(k, (row[k].0, v)));
        assert(row.drop_last()[k] == row[k]);
        lemma_row_weight_update(row.drop_last(), n, k, v, y);
    }
}

/// Adds one to the weight of `b` in row `a`, saturating.
fn add_edge(adj: &mut Vec<Vec<(usize, u64)>>, n: usize, a: usize, b: usize)
    requires
        old(adj)@.len() == n,
        forall|x: int| 0 <= x < n ==> is_row(#[trigger] old(adj)@[x]@, n as int),
        a < n,
        b < n,
    ensures
        final(adj)@.len() == n,
        forall|x: int| 0 <= x < n ==> is_row(#[trigger] final(adj)@[x]@, n as int),
        forall|x: int, y: int|
            0 <= x < n && 0 <= y < n ==> #[trigger] row_weight(final(adj)@[x]@, y as usize) == if x == a && y
                == b {
                sat((row_weight(old(adj)@[x]@, y as usize) + 1) as nat)
            } else {
                row_weight(old(adj)@[x]@, y as usize)
            },
{
    let ghost m0 = adj@;
    let len = adj[a].len();
    let mut k: usize = 0;
    while k < len && adj[a][k].0 != b
        invariant
            adj@ == m0,
            a < n,
            m0.len() == n,
            len == m0[a as int]@.len(),
            k <= len,
            forall|q: int| 0 <= q < k ==> m0[a as int]@[q].0 != b,
        decreases len - k,
    {
        k += 1;
    }
    let ghost row0 = m0[a as int]@;
    if k < len {
        let v = adj[a][k].1.saturating_add(1);
        proof {
            lemma_row_weight_at(row0, n as int, k as int);
        }
        adj[a][k] = (b, v);
        proof {
            assert(adj@[a as int]@ == row0.update(k as int, (row0[k as int].0, v)));
            assert forall|y: int| 0 <= y < n implies #[trigger] row_weight(adj@[a as int]@, y as usize) == if y
                == b {
                sat((row_weight(row0, y as usize) + 1) as nat)
            } else {
                row_weight(row0, y as usize)
            } by {
                lemma_row_weight_update(row0, n as int, k as int, v, y as usize);
            }
        }
    } else {
        proof {
            lemma_row_weight_absent(row0, b);
        }
        adj[a].push((b, 1));
        proof {
            assert(adj@[a as int]@.drop_last() =~= row0);
        }
    }
    proof {
        assert forall|x: int| 0 <= x < n && x != a implies #[trigger] adj@[x] == m0[x] by {}
    }
}

/// A word graph. Its nodes are labelled by position in `get_words`; a word with
/// no edge is listed but is no node of the ranking.
pub struct WordGraph {
    words: Vec<String>,
    adj: Vec<Vec<(usize, u64)>>,
}

pub struct TextRankLogic;

impl WordGraph {
    /// The words, in label order.
    pub closed spec fn terms(&self) -> Seq<Seq<char>> {
        views(self.words@)
    }

    /// The edges of label `a`, as `(neighbour, weight)` entries.
    pub closed spec fn neighbors(&self, a: int) -> Seq<(usize, u64)> {
        self.adj@[a]@
    }

    pub open spec fn size(&self) -> int {
        self.terms().len() as int
    }

    pub open spec fn weight(&self, a: int, b: int) -> u64 {
        row_weight(self.neighbors(a), b as usize)
    }

    /// Node `a` has an edge, so it takes part in the ranking.
    pub open spec fn is_node(&self, a: int) -> bool {
        exists|b: usize| b < self.size() && #[trigger] self.weight(a, b as int) > 0
    }

    pub closed spec fn wf(&self) -> bool {
        &&& self.adj@.len() == self.words@.len()
        &&& forall|a: int| 0 <= a < self.adj@.len() ==> is_row(#[trigger] self.adj@[a]@, self.words@.len() as int)
    }

    /// The graph is the word graph of `words` with a forward window of `w`.
    pub open spec fn graph_of(&self, words: Seq<Seq<char>>, w: int) -> bool {
        &&& self.terms() == distinct_terms(words)
        &&& forall|a: int, b: int|
            0 <= a < self.size() && 0 <= b < self.size() ==> #[trigger] self.weight(a, b) == edge_weight(
                words,
                w,
                a as usize,
                b as usize,
            )
    }

    /// The words, in label order.
    pub fn get_words(&self) -> (r: &Vec<String>)
        ensures
            views(r@) == self.terms(),
    {
        &self.words
    }

    /// The number of labels.
    pub fn len(&self) -> (r: usize)
        ensures
            r == self.size(),
    {
        self.words.len()
    }

    /// The weight of the edge between labels `a` and `b` (0 where there is none).
    pub fn get_weight(&self, a: usize, b: usize) -> (r: u64)
        requires
            self.wf(),
            a < self.size(),
            b < self.size(),
        ensures
            r == self.weight(a as int, b as int),
    {
        let row = &self.adj[a];
        let mut k: usize = 0;
        while k < row.len()
            invariant
                self.wf(),
                a < self.size(),
                row@ == self.neighbors(a as int),
                k <= row@.len(),
                forall|q: int| 0 <= q < k ==> row@[q].0 != b,
            decreases row@.len() - k,
        {
            if row[k].0 == b {
                proof {
                    lemma_row_weight_at(row@, self.size(), k as int);
                }
                return row[k].1;
            }
            k += 1;
        }
        proof {
            lemma_row_weight_absent(row@, b);
        }
        0
    }

    /// The sum of the weights of the edges of label `a`, saturating.
    pub fn get_outgoing_weight_sum(&self, a: usize) -> (r: u64)
        requires
            self.wf(),
            a < self.size(),
        ensures
            r == sat(entries_total(self.neighbors(a as int))),
    {
        let row = &self.adj[a];
        let mut total: u64 = 0;
        let mut k: usize = 0;
        while k < row.len()
            invariant
                row@ == self.neighbors(a as int),
                k <= row@.len(),
                total == sat(entries_total(row@.subrange(0, k as int))),
            decreases row@.len() - k,
        {
            assert(row@.subrange(0, k + 1).drop_last() =~= row@.subrange(0, k as int));
            total = total.saturating_add(row[k].1);
            k += 1;
        }
        assert(row@.subrange(0, row@.len() as int) =~= row@);
        total
    }

    /// The edges of label `a`: each neighbour once, with the edge's weight.
    pub fn get_neighbors(&self, a: usize) -> (r: Vec<(usize, u64)>)
        requires
            self.wf(),
            a < self.size(),
        ensures
            r@ == self.neighbors(a as int),
            forall|i: int|
                0 <= i < r@.len() ==> #[trigger] r@[i].0 < self.size() && r@[i].1 > 0 && r@[i].1 == self.weight(
                    a as int,
                    r@[i].0 as int,
                ),
            forall|i: int, j: int| 0 <= i < j < r@.len() ==> r@[i].0 != r@[j].0,
            forall|b: usize|
                b < self.size() && #[trigger] self.weight(a as int, b as int) > 0 ==> exists|i: int|
                    0 <= i < r@.len() && r@[i].0 == b,
    {
        let row = &self.adj[a];
        let mut r: Vec<(usize, u64)> = Vec::new();
        let mut k: usize = 0;
        while k < row.len()
            invariant
                row@ == self.neighbors(a as int),
                k <= row@.len(),
                r@ == row@.subrange(0, k as int),
            decreases row@.len() - k,
        {
            r.push(row[k]);
            k += 1;
        }
        assert(r@ =~= row@);
        proof {
            let n = self.size();
            assert(is_row(row@, n));
            assert forall|i: int| 0 <= i < r@.len() implies #[trigger] r@[i].0 < self.size() && r@[i].1 > 0
                && r@[i].1 == self.weight(a as int, r@[i].0 as int) by {
                lemma_row_weight_at(row@, n, i);
            }
            assert forall|b: usize| b < self.size() && #[trigger] self.weight(a as int, b as int) > 0 implies exists|
                i: int,
            | 0 <= i < r@.len() && r@[i].0 == b by {
                if !(exists|i: int| 0 <= i < r@.len() && r@[i].0 == b) {
                    assert forall|i: int| 0 <= i < row@.len() implies row@[i].0 != b by {
                        assert(r@[i] == row@[i]);
                    }
                    lemma_row_weight_absent(row@, b);
                }
            }
        }
        r
    }

    fn has_edges(&self, a: usize) -> (r: bool)
        requires
            self.wf(),
            a < self.size(),
        ensures
            r == self.is_node(a as int),
    {
        let row = &self.adj[a];
        proof {
            if row@.len() > 0 {
                lemma_row_weight_at(row@, self.size(), 0);
                let b = row@[0].0;
                assert(self.weight(a as int, b as int) > 0);
            }
        }
        row.len() > 0
    }

    /// The labels of the ranking's nodes: those with an edge, in label order.
    pub fn get_nodes(&self) -> (r: Vec<usize>)
        requires
            self.wf(),
        ensures
            forall|i: int| 0 <= i < r@.len() ==> #[trigger] r@[i] < self.size() && self.is_node(r@[i] as int),
            forall|a: int| 0 <= a < self.size() && #[trigger] self.is_node(a) ==> r@.contains(a as usize),
            forall|i: int, j: int| 0 <= i < j < r@.len() ==> r@[i] < r@[j],
    {
        let mut r: Vec<usize> = Vec::new();
        let mut a: usize = 0;
        while a < self.words.len()
            invariant
                self.wf(),
                a <= self.size(),
                forall|i: int| 0 <= i < r@.len() ==> #[trigger] r@[i] < a && self.is_node(r@[i] as int),
                forall|x: int| 0 <= x < a && #[trigger] self.is_node(x) ==> r@.contains(x as usize),
                forall|i: int, j: int| 0 <= i < j < r@.len() ==> r@[i] < r@[j],
            decreases self.size() - a,
        {
            let ghost r_old = r@;
            if self.has_edges(a) {
                r.push(a);
                assert(r@[r@.len() - 1] == a);
            }
            assert forall|x: int| 0 <= x < a + 1 && #[trigger] self.is_node(x) implies r@.contains(x as usize) by {
                if x < a {
                    let k = choose|k: int| 0 <= k < r_old.len() && r_old[k] == x as usize;
                    assert(r@[k] == x as usize);
                } else {
                    assert(r@[r@.len() - 1] == a);
                }
            }
            a += 1;
        }
        r
    }

    /// The label of a word, if it is a node of the ranking.
    pub fn get_node(&self, word: &str) -> (r: Option<usize>)
        requires
            self.wf(),
        ensures
            r == match label_of(self.terms(), word@) {
                Some(a) => if self.is_node(a as int) {
                    Some(a)
                } else {
                    None
                },
                None => None,
            },
    {
        let t = word.to_owned();
        match find_label(&self.words, &t) {
            Some(a) => if self.has_edges(a) {
                Some(a)
            } else {
                None
            },
            None => None,
        }
    }

    /// The node of each word of a whitespace-delimited phrase, in order; a word
    /// that is no node of the ranking gives `None`. A phrase's score is the sum
    /// of its nodes' scores over the number of its words.
    pub fn phrase_nodes(&self, phrase: &str) -> (r: Vec<Option<usize>>)
        requires
            self.wf(),
        ensures
            r@.len() == whitespace_tokens(phrase@).len(),
            forall|i: int| 0 <= i < r@.len() ==> #[trigger] r@[i] == match label_of(self.terms(), whitespace_tokens(phrase@)[i]) {
                Some(a) => if self.is_node(a as int) {
                    Some(a)
                } else {
                    None
                },
                None => None,
            },
    {
        let toks = split_whitespace(phrase);
        assert(views(toks@).len() == toks@.len());
        let mut r: Vec<Option<usize>> = Vec::new();
        let mut i: usize = 0;
        while i < toks.len()
            invariant
                self.wf(),
                views(toks@) == whitespace_tokens(phrase@),
                i <= toks@.len(),
                r@.len() == i,
                forall|q: int| 0 <= q < i ==> #[trigger] r@[q] == match label_of(self.terms(), whitespace_tokens(phrase@)[q]) {
                    Some(a) => if self.is_node(a as int) {
                        Some(a)
                    } else {
                        None
                    },
                    None => None,
                },
            decreases toks@.len() - i,
        {
            assert(views(toks@)[i as int] == toks@[i as int]@);
            r.push(self.get_node(toks[i].as_str()));
            i += 1;
        }
        r
    }
}

impl TextRankLogic {
    /// Builds the word graph of a word sequence: each word is joined to each of
    /// the next `window_size` words that differs from it.
    pub fn create_graph(words: &[&str], window_size: usize) -> (r: WordGraph)
        ensures
            r.wf(),
            r.graph_of(term_views(words@), window_size as int),
    {
        let ghost ws = term_views(words@);
        let ghost w = window_size as int;
        let mut seq_words: Vec<String> = Vec::new();
        let mut distinct: Vec<String> = Vec::new();
        let mut k: usize = 0;
        while k < words.len()
            invariant
                ws == term_views(words@),
                k <= words@.len(),
                seq_words@.len() == k,
                views(seq_words@) == ws.subrange(0, k as int),
                views(distinct@) == distinct_terms(ws.subrange(0, k as int)),
                distinct@.len() <= k,
            decreases words@.len() - k,
        {
            let t = words[k].to_owned();
            assert(ws.subrange(0, k + 1).drop_last() =~= ws.subrange(0, k as int));
            if !contains_term(&distinct, t.as_str()) {
                distinct.push(t.clone());
                assert(views(distinct@) =~= distinct_terms(ws.subrange(0, k + 1)));
            }
            seq_words.push(t);
            assert(views(seq_words@) =~= ws.subrange(0, k + 1));
            k += 1;
        }
        assert(ws.subrange(0, words@.len() as int) =~= ws);
        let ghost voc = views(distinct@);
        let n = distinct.len();
        let len = seq_words.len();
        let mut labels: Vec<Option<usize>> = Vec::new();
        let mut t: usize = 0;
        while t < len
            invariant
                voc == views(distinct@),
                n == distinct@.len(),
                len == seq_words@.len(),
                t <= len,
                labels@.len() == t,
                forall|q: int| 0 <= q < t ==> labels@[q] == label_of(voc, #[trigger] seq_words@[q]@),
                forall|q: int| 0 <= q < t ==> #[trigger] labels@[q] is Some ==> labels@[q]->0 < n,
            decreases len - t,
        {
            labels.push(find_label(&distinct, &seq_words[t]));
            t += 1;
        }
        let ghost l = doc_labels(voc, ws);
        assert(labels@ =~= l);
        let mut adj: Vec<Vec<(usize, u64)>> = Vec::new();
        let mut x: usize = 0;
        while x < n
            invariant
                x <= n,
                adj@.len() == x,
                forall|q: int| 0 <= q < x ==> #[trigger] adj@[q]@.len() == 0,
            decreases n - x,
        {
            adj.push(Vec::new());
            x += 1;
        }
        assert forall|q: int| 0 <= q < n implies is_row(#[trigger] adj@[q]@, n as int) by {}
        let mut i: usize = 0;
        while i < len
            invariant
                w == window_size as int,
                n == distinct@.len(),
                len == l.len(),
                labels@ == l,
                forall|q: int| 0 <= q < len ==> #[trigger] labels@[q] is Some ==> labels@[q]->0 < n,
                i <= len,
                adj@.len() == n,
                forall|q: int| 0 <= q < n ==> is_row(#[trigger] adj@[q]@, n as int),
                forall|x: int, y: int|
                    0 <= x < n && 0 <= y < n ==> #[trigger] row_weight(adj@[x]@, y as usize) == if x == y {
                        0
                    } else {
                        sat(doc_sum(l, w, x as usize, y as usize, i as int))
                    },
            decreases len - i,
        {
            let end = get_window_range(window_size, i, len).end;
            let mut j: usize = i + 1;
            while j < end
                invariant
                    w == window_size as int,
                    n == distinct@.len(),
                    len == l.len(),
                    labels@ == l,
                    forall|q: int| 0 <= q < len ==> #[trigger] labels@[q] is Some ==> labels@[q]->0 < n,
                    i < len,
                    i + 1 <= j <= end,
                    end == window_end(w, i as int, len as int),
                    end <= len,
                    adj@.len() == n,
                    forall|q: int| 0 <= q < n ==> is_row(#[trigger] adj@[q]@, n as int),
                    forall|x: int, y: int|
                        0 <= x < n && 0 <= y < n ==> #[trigger] row_weight(adj@[x]@, y as usize) == if x == y {
                            0
                        } else {
                            sat(
                                doc_sum(l, w, x as usize, y as usize, i as int) + pair_sum(
                                    l,
                                    x as usize,
                                    y as usize,
                                    i as int,
                                    j as int,
                                ),
                            )
                        },
                decreases end - j,
            {
                let ghost m0 = adj@;
                if let (Some(a), Some(b)) = (labels[i], labels[j]) {
                    if a != b {
                        add_edge(&mut adj, n, a, b);
                        add_edge(&mut adj, n, b, a);
                    }
                }
                proof {
                    assert forall|x: int, y: int| 0 <= x < n && 0 <= y < n implies #[trigger] row_weight(
                        adj@[x]@,
                        y as usize,
                    ) == if x == y {
                        0
                    } else {
                        sat(
                            doc_sum(l, w, x as usize, y as usize, i as int) + pair_sum(
                                l,
                                x as usize,
                                y as usize,
                                i as int,
                                j + 1,
                            ),
                        )
                    } by {
                        assert(pair_sum(l, x as usize, y as usize, i as int, j + 1) == pair_sum(
                            l,
                            x as usize,
                            y as usize,
                            i as int,
                            j as int,
                        ) + pair_weight(x as usize, y as usize, l[i as int], l[j as int]));
                        assert(row_weight(m0[x]@, y as usize) == if x == y {
                            0
                        } else {
                            sat(
                                doc_sum(l, w, x as usize, y as usize, i as int) + pair_sum(
                                    l,
                                    x as usize,
                                    y as usize,
                                    i as int,
                                    j as int,
                                ),
                            )
                        });
                    }
                }
                j += 1;
            }
            i += 1;
        }
        let r = WordGraph { words: distinct, adj };
        proof {
            assert forall|x: int, y: int| 0 <= x < n && 0 <= y < n implies #[trigger] r.weight(x, y) == edge_weight(
                ws,
                w,
                x as usize,
                y as usize,
            ) by {
                assert(seq![ws][0] == ws);
                assert(corpus_sum(voc, seq![ws], w, x as usize, y as usize, 1) == corpus_sum(
                    voc,
                    seq![ws],
                    w,
                    x as usize,
                    y as usize,
                    0,
                ) + doc_sum(l, w, x as usize, y as usize, len as int));
            }
        }
        r
    }
}

/// Determinism: two graphs built from the same words and window have the same
/// words and the same weight on every pair of labels.
pub proof fn lemma_graph_deterministic(g1: &WordGraph, g2: &WordGraph, words: Seq<Seq<char>>, w: int)
    requires
        g1.graph_of(words, w),
        g2.graph_of(words, w),
    ensures
        g1.terms() == g2.terms(),
        forall|a: int, b: int|
            0 <= a < g1.size() && 0 <= b < g1.size() ==> #[trigger] g1.weight(a, b) == g2.weight(a, b),
{
}

/// The graph is undirected: an edge weighs the same from either end, and no
/// word has an edge to itself.
pub proof fn lemma_graph_symmetric(g: &WordGraph, words: Seq<Seq<char>>, w: int, a: int, b: int)
    requires
        g.graph_of(words, w),
        0 <= a < g.size(),
        0 <= b < g.size(),
    ensures
        g.weight(a, b) == g.weight(b, a),
        g.weight(a, a) == 0,
{
    crate::co_occurrence::lemma_co_count_symmetric(distinct_terms(words), seq![words], w, a as usize, b as usize);
}

} // verus!
