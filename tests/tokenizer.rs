use keyword_rank::document_processor::DocumentProcessor;
use keyword_rank::tokenizer::Tokenizer;
use keyword_rank::words::{get_special_char_regex, is_punctuation, process_word};

fn strings(items: &[&str]) -> Vec<String> {
    items.iter().map(|s| s.to_string()).collect()
}

#[test]
fn words_are_cleaned() {
    let t = Tokenizer::new("The quick brown fox's tail.", &["the"], None);
    assert_eq!(t.split_into_words(), strings(&["quick", "brown", "fox", "tail"]));
    assert_eq!(t.sync_split_into_words(), t.split_into_words());
}

#[test]
fn sentences_are_cleaned() {
    let t = Tokenizer::new("Hello world. Bye now.", &[], None);
    assert_eq!(t.split_into_sentences(), strings(&["hello world", "bye now"]));
    assert_eq!(t.sync_split_into_sentences(), t.split_into_sentences());
}

#[test]
fn phrases_split_on_stopwords() {
    let t = Tokenizer::new("Quick fox and lazy dog", &["and"], None);
    assert_eq!(t.split_into_phrases(None), strings(&["quick fox", "lazy dog"]));
    assert_eq!(t.sync_split_into_phrases(None), strings(&["quick fox", "lazy dog"]));
}

#[test]
fn phrases_cut_at_length() {
    let t = Tokenizer::new("quick brown fox jumps", &[], None);
    assert_eq!(t.split_into_phrases(Some(2)), strings(&["quick brown", "fox jumps"]));
    assert_eq!(t.split_into_phrases(Some(3)), strings(&["quick brown fox", "jumps"]));
}

#[test]
fn paragraphs_skip_blank_lines() {
    let t = Tokenizer::new("First line.\n\n   \nSecond line", &[], None);
    assert_eq!(t.split_into_paragraphs(), strings(&["first line", "second line"]));
    assert_eq!(t.sync_split_into_paragraphs(), t.split_into_paragraphs());
}

#[test]
fn custom_punctuation() {
    let t = Tokenizer::new("a ! b", &[], Some(&["?"]));
    assert_eq!(t.split_into_words(), strings(&["a", "!", "b"]));
}

#[test]
fn documents_are_cleaned() {
    let p = DocumentProcessor::new(&["The Cat, sat.", "Dogs run!"], &["the"], None);
    assert_eq!(p.process_documents(), strings(&["cat sat", "dogs run"]));
}

#[test]
fn single_words() {
    let re = get_special_char_regex();
    let stop = strings(&["a"]);
    let punct = strings(&["!", ","]);
    assert_eq!(process_word("  Dog's ", &re, &stop, &punct), Some("dog".to_string()));
    assert_eq!(process_word("Hello.", &re, &stop, &punct), Some("hello".to_string()));
    assert_eq!(process_word(",", &re, &stop, &punct), None);
    assert_eq!(process_word("!", &re, &stop, &punct), None);
    assert_eq!(process_word("A", &re, &stop, &punct), None);
    assert_eq!(process_word("   ", &re, &stop, &punct), None);
}

#[test]
fn punctuation_test() {
    let punct = strings(&["!", "ab"]);
    assert!(is_punctuation("", &punct));
    assert!(is_punctuation("!", &punct));
    assert!(!is_punctuation("?", &punct));
    assert!(!is_punctuation("ab", &punct));
}
