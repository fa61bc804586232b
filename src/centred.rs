//! The co-occurrence count as a centred window scan: each position holding one
//! label, against every other position within the radius.
use vstd::prelude::*;
use crate::co_occurrence::{sat, CoOccurrence, co_count, corpus_sum, doc_labels, doc_sum, pair_sum, pair_weight};
use crate::window::{window_end, window_start};

verus! {

/// `f(s) + f(s + 1) + ... + f(e - 1)`.
pub open spec fn range_sum(f: spec_fn(int) -> nat, s: int, e: int) -> nat
    decreases e - s,
{
    if e <= s {
        0
    } else {
        range_sum(f, s, e - 1) + f(e - 1)
    }
}

/// Position `j` of the centred window of position `i` adds one to cell `(a, b)`.
pub open spec fn centre_hit(l: Seq<Option<usize>>, a: usize, b: usize, i: int, j: int) -> nat {
    if j != i && l[i] == Some(a) && l[j] == Some(b) {
        1
    } else {
        0
    }
}

/// What the centred windows of the first `k` positions of a document add to cell `(a, b)`.
pub open spec fn centred_doc_sum(l: Seq<Option<usize>>, w: int, a: usize, b: usize, k: int) -> nat
    decreases k,
{
    if k <= 0 {
        0
    } else {
        centred_doc_sum(l, w, a, b, k - 1) + range_sum(
            |j: int| centre_hit(l, a, b, k - 1, j),
            window_start(w, k - 1),
            window_end(w, k - 1, l.len() as int),
        )
    }
}

proof fn lemma_range_sum_split(f: spec_fn(int) -> nat, s: int, m: int, e: int)
    requires
        s <= m <= e,
    ensures
        range_sum(f, s, e) == range_sum(f, s, m) + range_sum(f, m, e),
    decreases e - m,
{
    if e > m {
        lemma_range_sum_split(f, s, m, e - 1);
    }
}

proof fn lemma_range_sum_ext(f: spec_fn(int) -> nat, g: spec_fn(int) -> nat, s: int, e: int)
    requires
        forall|j: int| s <= j < e ==> #[trigger] f(j) == g(j),
    ensures
        range_sum(f, s, e) == range_sum(g, s, e),
    decreases e - s,
{
    if e > s {
        lemma_range_sum_ext(f, g, s, e - 1);
    }
}

proof fn lemma_range_sum_add(f: spec_fn(int) -> nat, g: spec_fn(int) -> nat, h: spec_fn(int) -> nat, s: int, e: int)
    requires
        forall|j: int| s <= j < e ==> #[trigger] h(j) == f(j) + g(j),
    ensures
        range_sum(h, s, e) == range_sum(f, s, e) + range_sum(g, s, e),
    decreases e - s,
{
    if e > s {
        lemma_range_sum_add(f, g, h, s, e - 1);
    }
}

proof fn lemma_range_sum_zero(f: spec_fn(int) -> nat, s: int, e: int)
    requires
        forall|j: int| s <= j < e ==> #[trigger] f(j) == 0,
    ensures
        range_sum(f, s, e) == 0,
    decreases e - s,
{
    if e > s {
        lemma_range_sum_zero(f, s, e - 1);
    }
}

/// A backward hit: position `j` before `i`, `j` holding `b` and `i` holding `a`.
pub open spec fn back_hit(l: Seq<Option<usize>>, a: usize, b: usize, j: int, i: int) -> nat {
    if l[j] == Some(b) && l[i] == Some(a) {
        1
    } else {
        0
    }
}

/// Hits of the backward halves of the windows of the first `m` positions.
pub open spec fn back_total(l: Seq<Option<usize>>, w: int, a: usize, b: usize, m: int) -> nat
    decreases m,
{
    if m <= 0 {
        0
    } else {
        back_total(l, w, a, b, m - 1) + range_sum(|j: int| back_hit(l, a, b, j, m - 1), window_start(w, m - 1), m - 1)
    }
}

/// The same hits counted from the earlier position, forward windows cut at `m`,
/// over the first `k` positions.
pub open spec fn fwd_total(l: Seq<Option<usize>>, w: int, a: usize, b: usize, m: int, k: int) -> nat
    decreases k,
{
    if k <= 0 {
        0
    } else {
        fwd_total(l, w, a, b, m, k - 1) + range_sum(|i: int| back_hit(l, a, b, k - 1, i), k, window_end(w, k - 1, m))
    }
}

proof fn lemma_fwd_total_step(l: Seq<Option<usize>>, w: int, a: usize, b: usize, m: int, k: int)
    requires
        0 <= k <= m,
        0 <= w,
    ensures
        fwd_total(l, w, a, b, m + 1, k) == fwd_total(l, w, a, b, m, k) + range_sum(
            |j: int| if j >= m - w { back_hit(l, a, b, j, m) } else { 0 },
            0,
            k,
        ),
    decreases k,
{
    if k > 0 {
        lemma_fwd_total_step(l, w, a, b, m, k - 1);
        let j = k - 1;
        let f = |i: int| back_hit(l, a, b, j, i);
        if j + w + 1 <= m {
        } else {
            assert(window_end(w, j, m) == m);
            assert(window_end(w, j, m + 1) == m + 1);
            assert(range_sum(f, k, m + 1) == range_sum(f, k, m) + f(m));
        }
    }
}

proof fn lemma_back_fwd_swap(l: Seq<Option<usize>>, w: int, a: usize, b: usize, m: int)
    requires
        0 <= m,
        0 <= w,
    ensures
        back_total(l, w, a, b, m) == fwd_total(l, w, a, b, m, m),
    decreases m,
{
    if m > 0 {
        let p = m - 1;
        lemma_back_fwd_swap(l, w, a, b, p);
        lemma_fwd_total_step(l, w, a, b, p, p);
        let g = |j: int| if j >= p - w { back_hit(l, a, b, j, p) } else { 0 };
        let h = |j: int| back_hit(l, a, b, j, p);
        let st = window_start(w, p);
        lemma_range_sum_split(g, 0, st, p);
        lemma_range_sum_zero(g, 0, st);
        lemma_range_sum_ext(g, h, st, p);
        assert(fwd_total(l, w, a, b, m, m) == fwd_total(l, w, a, b, m, p) + range_sum(
            |i: int| back_hit(l, a, b, p, i),
            m,
            window_end(w, p, m),
        ));
        assert(window_end(w, p, m) == m);
    }
}

/// A forward hit: position `i` holding `a` and a later position `j` holding `b`.
pub open spec fn fwd_hit(l: Seq<Option<usize>>, a: usize, b: usize, i: int, j: int) -> nat {
    if l[i] == Some(a) && l[j] == Some(b) {
        1
    } else {
        0
    }
}

/// Hits of the forward halves of the windows of the first `k` positions.
pub open spec fn fa_total(l: Seq<Option<usize>>, w: int, a: usize, b: usize, k: int) -> nat
    decreases k,
{
    if k <= 0 {
        0
    } else {
        fa_total(l, w, a, b, k - 1) + range_sum(
            |j: int| fwd_hit(l, a, b, k - 1, j),
            k,
            window_end(w, k - 1, l.len() as int),
        )
    }
}

proof fn lemma_pair_sum_range(l: Seq<Option<usize>>, a: usize, b: usize, i: int, end: int)
    ensures
        pair_sum(l, a, b, i, end) == range_sum(|j: int| pair_weight(a, b, l[i], l[j]), i + 1, end),
    decreases end - i,
{
    if end > i + 1 {
        lemma_pair_sum_range(l, a, b, i, end - 1);
    }
}

proof fn lemma_doc_sum_split(l: Seq<Option<usize>>, w: int, a: usize, b: usize, k: int)
    requires
        0 <= k <= l.len(),
        0 <= w,
    ensures
        doc_sum(l, w, a, b, k) == fa_total(l, w, a, b, k) + fwd_total(l, w, a, b, l.len() as int, k),
    decreases k,
{
    if k > 0 {
        lemma_doc_sum_split(l, w, a, b, k - 1);
        let i = k - 1;
        let end = window_end(w, i, l.len() as int);
        lemma_pair_sum_range(l, a, b, i, end);
        lemma_range_sum_add(
            |j: int| fwd_hit(l, a, b, i, j),
            |j: int| back_hit(l, a, b, i, j),
            |j: int| pair_weight(a, b, l[i], l[j]),
            i + 1,
            end,
        );
    }
}

proof fn lemma_centred_split(l: Seq<Option<usize>>, w: int, a: usize, b: usize, k: int)
    requires
        0 <= k <= l.len(),
        0 <= w,
    ensures
        centred_doc_sum(l, w, a, b, k) == back_total(l, w, a, b, k) + fa_total(l, w, a, b, k),
    decreases k,
{
    if k > 0 {
        lemma_centred_split(l, w, a, b, k - 1);
        let i = k - 1;
        let st = window_start(w, i);
        let end = window_end(w, i, l.len() as int);
        let c = |j: int| centre_hit(l, a, b, i, j);
        lemma_range_sum_split(c, st, i, end);
        lemma_range_sum_split(c, i, i + 1, end);
        lemma_range_sum_ext(c, |j: int| back_hit(l, a, b, j, i), st, i);
        lemma_range_sum_ext(c, |j: int| fwd_hit(l, a, b, i, j), i + 1, end);
        assert(range_sum(c, i, i + 1) == range_sum(c, i, i) + c(i));
        assert(centred_doc_sum(l, w, a, b, k) == centred_doc_sum(l, w, a, b, i) + range_sum(c, st, end));
        assert(back_total(l, w, a, b, k) == back_total(l, w, a, b, i) + range_sum(
            |j: int| back_hit(l, a, b, j, i),
            st,
            i,
        ));
        assert(fa_total(l, w, a, b, k) == fa_total(l, w, a, b, i) + range_sum(
            |j: int| fwd_hit(l, a, b, i, j),
            i + 1,
            end,
        ));
    }
}

/// Within one document, the forward-pair count equals the centred window scan.
pub proof fn lemma_doc_sum_centred(l: Seq<Option<usize>>, w: int, a: usize, b: usize)
    requires
        0 <= w,
    ensures
        doc_sum(l, w, a, b, l.len() as int) == centred_doc_sum(l, w, a, b, l.len() as int),
{
    lemma_centred_split(l, w, a, b, l.len() as int);
    lemma_doc_sum_split(l, w, a, b, l.len() as int);
    lemma_back_fwd_swap(l, w, a, b, l.len() as int);
}

/// What the centred window scans of the first `d` documents add to cell `(a, b)`.
pub open spec fn centred_corpus_sum(
    vocab: Seq<Seq<char>>,
    docs: Seq<Seq<Seq<char>>>,
    w: int,
    a: usize,
    b: usize,
    d: int,
) -> nat
    decreases d,
{
    if d <= 0 {
        0
    } else {
        let l = doc_labels(vocab, docs[d - 1]);
        centred_corpus_sum(vocab, docs, w, a, b, d - 1) + centred_doc_sum(l, w, a, b, l.len() as int)
    }
}

proof fn lemma_corpus_sum_centred(
    vocab: Seq<Seq<char>>,
    docs: Seq<Seq<Seq<char>>>,
    w: int,
    a: usize,
    b: usize,
    d: int,
)
    requires
        0 <= w,
    ensures
        corpus_sum(vocab, docs, w, a, b, d) == centred_corpus_sum(vocab, docs, w, a, b, d),
    decreases d,
{
    if d > 0 {
        lemma_corpus_sum_centred(vocab, docs, w, a, b, d - 1);
        lemma_doc_sum_centred(doc_labels(vocab, docs[d - 1]), w, a, b);
    }
}

/// The co-occurrence count is the centred window scan: for each document, each
/// position `i` labelled `a`, and each other position `j` of the window
/// `[max(0, i - w), min(len, i + w + 1))` labelled `b`, one.
pub proof fn lemma_co_count_centred(vocab: Seq<Seq<char>>, docs: Seq<Seq<Seq<char>>>, w: int, a: usize, b: usize)
    requires
        0 <= w,
    ensures
        co_count(vocab, docs, w, a, b) == centred_corpus_sum(vocab, docs, w, a, b, docs.len() as int),
{
    lemma_corpus_sum_centred(vocab, docs, w, a, b, docs.len() as int);
}

/// Each cell of a matrix built from a corpus holds the centred window scan's
/// count of its pair of labels (saturating at `u64::MAX`).
pub proof fn lemma_matrix_centred(
    c: &CoOccurrence,
    docs: Seq<Seq<Seq<char>>>,
    vocab: Seq<Seq<char>>,
    w: int,
    a: usize,
    b: usize,
)
    requires
        c.counts(docs, vocab, w),
        0 <= w,
        a < vocab.len(),
        b < vocab.len(),
    ensures
        c.count(a as int, b as int) == sat(centred_corpus_sum(vocab, docs, w, a, b, docs.len() as int)),
{
    lemma_co_count_centred(vocab, docs, w, a, b);
}

} // verus!
