use keyword_rank::text_rank::TextRankLogic;

#[test]
fn graph_counts_forward_pairs() {
    let g = TextRankLogic::create_graph(&["a", "b", "a", "c"], 1);
    assert_eq!(g.get_words(), &vec!["a".to_string(), "b".to_string(), "c".to_string()]);
    assert_eq!(g.get_weight(0, 1), 2);
    assert_eq!(g.get_weight(1, 0), 2);
    assert_eq!(g.get_weight(0, 2), 1);
    assert_eq!(g.get_weight(1, 2), 0);
    assert_eq!(g.get_outgoing_weight_sum(0), 3);
    assert_eq!(g.get_outgoing_weight_sum(1), 2);
    assert_eq!(g.get_outgoing_weight_sum(2), 1);
    assert_eq!(g.get_neighbors(0), vec![(1, 2), (2, 1)]);
    assert_eq!(g.get_nodes(), vec![0, 1, 2]);
}

#[test]
fn graph_has_no_self_loops() {
    let g = TextRankLogic::create_graph(&["x", "x", "y"], 2);
    assert_eq!(g.get_weight(0, 0), 0);
    assert_eq!(g.get_weight(0, 1), 2);
    assert_eq!(g.get_weight(1, 0), 2);
}

#[test]
fn isolated_word_is_no_node() {
    let g = TextRankLogic::create_graph(&["solo", "solo"], 3);
    assert_eq!(g.len(), 1);
    assert!(g.get_nodes().is_empty());
    assert_eq!(g.get_node("solo"), None);
}

#[test]
fn wider_window_adds_edges() {
    let g = TextRankLogic::create_graph(&["a", "b", "c"], 2);
    assert_eq!(g.get_weight(0, 2), 1);
    let g1 = TextRankLogic::create_graph(&["a", "b", "c"], 1);
    assert_eq!(g1.get_weight(0, 2), 0);
}

#[test]
fn phrase_words_resolve_to_nodes() {
    let g = TextRankLogic::create_graph(&["quick", "fox", "lazy", "dog"], 1);
    assert_eq!(g.phrase_nodes("quick fox"), vec![Some(0), Some(1)]);
    assert_eq!(g.phrase_nodes("quick  unknown\tdog"), vec![Some(0), None, Some(3)]);
    assert!(g.phrase_nodes("").is_empty());
}

#[test]
fn graph_is_deterministic() {
    let words = ["a", "b", "c", "a", "d", "b"];
    let g1 = TextRankLogic::create_graph(&words, 2);
    let g2 = TextRankLogic::create_graph(&words, 2);
    for a in 0..g1.len() {
        assert_eq!(g1.get_neighbors(a), g2.get_neighbors(a));
    }
}

#[test]
fn empty_word_sequence() {
    let g = TextRankLogic::create_graph(&[], 2);
    assert_eq!(g.len(), 0);
    assert!(g.get_nodes().is_empty());
}
