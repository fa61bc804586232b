use keyword_rank::co_occurrence::{CoOccurrence, Strength};

fn animals(window: usize) -> CoOccurrence {
    CoOccurrence::new(
        &["cat chased dog", "dog chased mouse"],
        &["cat", "dog", "mouse"],
        window,
    )
}

#[test]
fn radius_one_scenario() {
    let c = animals(1);
    // With radius 1 no two vocabulary terms are neighbours in either document.
    assert_eq!(c.get_relation("cat", "dog"), Some(Strength { count: 0, scale: 1 }));
    assert_eq!(c.get_relation("cat", "mouse"), Some(Strength { count: 0, scale: 1 }));
}

#[test]
fn radius_two_scenario() {
    let c = animals(2);
    assert_eq!(c.get_relation("cat", "dog"), Some(Strength { count: 1, scale: 1 }));
    assert_eq!(c.get_relation("dog", "mouse"), Some(Strength { count: 1, scale: 1 }));
    assert_eq!(c.get_relation("cat", "mouse"), Some(Strength { count: 0, scale: 1 }));
}

#[test]
fn unknown_term_is_absent() {
    let c = animals(2);
    assert_eq!(c.get_relation("cat", "unknown_term"), None);
    assert_eq!(c.get_relation("unknown_term", "cat"), None);
    assert_eq!(c.get_matrix_row("unknown_term"), None);
    assert_eq!(c.get_relations("unknown_term"), None);
    assert_eq!(c.get_label("unknown_term"), None);
}

#[test]
fn relation_is_symmetric() {
    let c = CoOccurrence::new(&["a b c a b", "c c a"], &["a", "b", "c"], 2);
    for x in ["a", "b", "c"] {
        for y in ["a", "b", "c"] {
            assert_eq!(c.get_relation(x, y), c.get_relation(y, x));
        }
    }
}

#[test]
fn counts_and_normalization() {
    // "a b a": pairs within radius 1 are (a,b) twice; radius 2 adds (a,a).
    let c = CoOccurrence::new(&["a b a"], &["a", "b"], 2);
    assert_eq!(c.get_relation("a", "b"), Some(Strength { count: 2, scale: 2 }));
    assert_eq!(c.get_relation("a", "a"), Some(Strength { count: 2, scale: 2 }));
    assert_eq!(c.get_relation("b", "b"), Some(Strength { count: 0, scale: 2 }));
}

#[test]
fn largest_strength_is_one() {
    let c = CoOccurrence::new(&["x y z x y", "y z"], &["x", "y", "z"], 1);
    let m = c.get_matrix();
    let mut peak = 0;
    for row in &m {
        for s in row {
            assert!(s.count <= s.scale);
            if s.count == s.scale {
                peak += 1;
            }
        }
    }
    assert!(peak > 0);
    // x-y twice, y-z twice, z-x once.
    assert_eq!(c.get_relation("y", "z"), Some(Strength { count: 2, scale: 2 }));
    assert_eq!(c.get_relation("x", "y"), Some(Strength { count: 2, scale: 2 }));
    assert_eq!(c.get_relation("x", "z"), Some(Strength { count: 1, scale: 2 }));
}

#[test]
fn no_co_occurrence_gives_zero_matrix() {
    let c = CoOccurrence::new(&["a", "b", "nothing here"], &["a", "b"], 3);
    for row in c.get_matrix() {
        for s in row {
            assert_eq!(s, Strength { count: 0, scale: 1 });
        }
    }
}

#[test]
fn whitespace_of_any_kind_splits_tokens() {
    let c = CoOccurrence::new(&["  cat\tdog\n  "], &["cat", "dog"], 1);
    assert_eq!(c.get_relation("cat", "dog"), Some(Strength { count: 1, scale: 1 }));
}

#[test]
fn labels_and_words() {
    let c = animals(1);
    assert_eq!(c.get_label("cat"), Some(0));
    assert_eq!(c.get_label("mouse"), Some(2));
    assert_eq!(c.get_word(1), Some("dog"));
    assert_eq!(c.get_word(3), None);
    assert_eq!(c.get_labels(), &vec!["cat".to_string(), "dog".to_string(), "mouse".to_string()]);
}

#[test]
fn rows_and_relations() {
    let c = animals(2);
    assert_eq!(
        c.get_matrix_row("dog"),
        Some(vec![
            Strength { count: 1, scale: 1 },
            Strength { count: 0, scale: 1 },
            Strength { count: 1, scale: 1 },
        ])
    );
    assert_eq!(
        c.get_relations("dog"),
        Some(vec![("cat", Strength { count: 1, scale: 1 }), ("mouse", Strength { count: 1, scale: 1 })])
    );
    assert_eq!(c.get_relations("cat"), Some(vec![("dog", Strength { count: 1, scale: 1 })]));
}

#[test]
fn from_tokens_matches_new() {
    let docs = vec![
        vec!["cat".to_string(), "chased".to_string(), "dog".to_string()],
        vec!["dog".to_string(), "chased".to_string(), "mouse".to_string()],
    ];
    let a = CoOccurrence::from_tokens(&docs, &["cat", "dog", "mouse"], 2);
    let b = animals(2);
    assert_eq!(a.get_matrix(), b.get_matrix());
}

#[test]
fn construction_is_deterministic() {
    let a = CoOccurrence::new(&["a b c d a c", "d d b"], &["a", "b", "c", "d"], 2);
    let b = CoOccurrence::new(&["a b c d a c", "d d b"], &["a", "b", "c", "d"], 2);
    assert_eq!(a.get_matrix(), b.get_matrix());
}

#[test]
fn empty_vocabulary() {
    let c = CoOccurrence::new(&["a b"], &[], 2);
    assert!(c.get_matrix().is_empty());
    assert_eq!(c.get_relation("a", "b"), None);
}
