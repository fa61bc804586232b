use keyword_rank::ranking::{get_ranked_scores, get_ranked_strings, sort_ranked_map};

fn entries(items: &[(&str, u64)]) -> Vec<(String, u64)> {
    items.iter().map(|(t, k)| (t.to_string(), *k)).collect()
}

#[test]
fn ties_broken_by_term() {
    let e = entries(&[("b", 10), ("a", 10)]);
    assert_eq!(
        get_ranked_scores(&e, 2),
        vec![("a".to_string(), 10), ("b".to_string(), 10)]
    );
}

#[test]
fn higher_score_first() {
    let e = entries(&[("apple", 3), ("zebra", 9), ("mango", 5)]);
    assert_eq!(get_ranked_strings(&e, 3), vec!["zebra", "mango", "apple"]);
}

#[test]
fn top_n_is_a_prefix() {
    let e = entries(&[("apple", 3), ("zebra", 9), ("mango", 5)]);
    assert_eq!(get_ranked_strings(&e, 2), vec!["zebra", "mango"]);
}

#[test]
fn zero_requested_is_empty() {
    let e = entries(&[("apple", 3), ("zebra", 9)]);
    assert!(get_ranked_strings(&e, 0).is_empty());
    assert!(get_ranked_scores(&e, 0).is_empty());
}

#[test]
fn more_requested_than_present() {
    let e = entries(&[("apple", 3), ("zebra", 9)]);
    assert_eq!(
        get_ranked_scores(&e, 10),
        vec![("zebra".to_string(), 9), ("apple".to_string(), 3)]
    );
}

#[test]
fn empty_map_ranks_empty() {
    let e: Vec<(String, u64)> = Vec::new();
    assert!(get_ranked_strings(&e, 5).is_empty());
}

#[test]
fn equal_zero_scores_sorted_by_term() {
    let e = entries(&[("delta", 0), ("alpha", 0), ("charlie", 0), ("bravo", 0)]);
    assert_eq!(get_ranked_strings(&e, 4), vec!["alpha", "bravo", "charlie", "delta"]);
}

#[test]
fn prefix_term_sorts_first() {
    let e = entries(&[("cats", 1), ("cat", 1), ("ca", 1)]);
    assert_eq!(get_ranked_strings(&e, 3), vec!["ca", "cat", "cats"]);
}

#[test]
fn non_ascii_terms_sort_by_bytes() {
    let e = entries(&[("été", 1), ("zoo", 1), ("ant", 1)]);
    assert_eq!(get_ranked_strings(&e, 3), vec!["ant", "zoo", "été"]);
}

#[test]
fn sort_is_a_permutation() {
    let e = entries(&[("c", 1), ("a", 2), ("b", 2)]);
    assert_eq!(sort_ranked_map(&e), vec![1, 2, 0]);
}

#[test]
fn ranking_is_deterministic() {
    let e = entries(&[("x", 4), ("y", 4), ("w", 7), ("v", 1)]);
    assert_eq!(get_ranked_scores(&e, 4), get_ranked_scores(&e, 4));
}

#[test]
fn many_entries_follow_score_then_term() {
    let e: Vec<(String, u64)> = (0..200u64)
        .map(|i| (format!("t{:03}", (i * 53) % 200), (i * 37) % 11))
        .collect();
    let mut expected = e.clone();
    expected.sort_by(|a, b| b.1.cmp(&a.1).then(a.0.cmp(&b.0)));
    assert_eq!(get_ranked_scores(&e, 200), expected);
    assert_eq!(get_ranked_scores(&e, 17), expected[..17].to_vec());
}
