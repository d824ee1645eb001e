use handcrafted::text::tokenize_raw;
use handcrafted::tokenizer::{Tokenizer, VocabError};

const CORPUS: &str = "The cat sat on the mat. A robot sat on the computer.";

fn words(t: &Tokenizer) -> Vec<String> {
    t.words().clone()
}

#[test]
fn tokenize_raw_lowercases_and_strips_punctuation() {
    assert_eq!(tokenize_raw("Hello, World!"), vec!["hello".to_string(), "world".to_string()]);
    assert_eq!(tokenize_raw("  a  b\tc\n"), vec!["a", "b", "c"]);
    assert_eq!(tokenize_raw("... 123 !!"), Vec::<String>::new());
    assert_eq!(tokenize_raw(""), Vec::<String>::new());
    assert_eq!(tokenize_raw("don't"), vec!["dont"]);
}

#[test]
fn build_assigns_special_ids_first() {
    let t = Tokenizer::build_from_text(CORPUS);
    assert_eq!(t.pad_id(), 0);
    assert_eq!(t.unk_id(), 1);
    assert_eq!(t.bos_id(), 2);
    assert_eq!(t.eos_id(), 3);
    assert_eq!(
        words(&t),
        vec!["<pad>", "<unk>", "<bos>", "<eos>", "the", "cat", "sat", "on", "mat", "a", "robot", "computer"]
    );
    assert_eq!(t.vocab_size(), 12);
}

#[test]
fn encode_known_sentence() {
    let t = Tokenizer::build_from_text(CORPUS);
    assert_eq!(t.encode("the robot sat on the mat"), vec![4, 10, 6, 7, 4, 8]);
}

#[test]
fn encode_unknown_word_is_unk() {
    let t = Tokenizer::build_from_text(CORPUS);
    assert_eq!(t.encode("the dinosaur sat on the computer"), vec![4, 1, 6, 7, 4, 11]);
}

#[test]
fn decode_roundtrip() {
    let t = Tokenizer::build_from_text(CORPUS);
    let ids = t.encode("The robot, sat on the MAT!");
    assert_eq!(t.decode(&ids), "the robot sat on the mat");
}

#[test]
fn decode_skips_markers_and_maps_out_of_range_to_unk() {
    let t = Tokenizer::build_from_text(CORPUS);
    assert_eq!(t.decode(&[2, 4, 0, 5, 3]), "the cat");
    assert_eq!(t.decode(&[4, 99, 1]), "the <unk> <unk>");
    assert_eq!(t.decode(&[]), "");
    assert_eq!(t.decode(&[0, 2, 3]), "");
}

#[test]
fn lookup_finds_ids() {
    let t = Tokenizer::build_from_text(CORPUS);
    assert_eq!(t.lookup(&"robot".to_string()), Some(10));
    assert_eq!(t.lookup(&"dinosaur".to_string()), None);
}

#[test]
fn from_words_keeps_any_list() {
    let t = Tokenizer::from_words(vec!["<pad>".into(), "<unk>".into(), "<bos>".into(), "<eos>".into(), "hi".into()]);
    assert_eq!(t.encode("hi there"), vec![4, 1]);
    let partial = Tokenizer::from_words(vec!["<pad>".into(), "<unk>".into(), "hi".into()]);
    assert_eq!(partial.vocab_size(), 3);
    assert_eq!(partial.encode("hi you"), vec![2, 1]);
    assert_eq!(partial.encode(""), Vec::<usize>::new());
    assert_eq!(partial.decode(&[0]), "");
    let empty = Tokenizer::from_words(vec![]);
    assert_eq!(empty.vocab_size(), 0);
    assert_eq!(empty.decode(&[]), "");
    assert_eq!(empty.lookup(&"hi".to_string()), None);
}

#[test]
fn from_words_duplicate_word_takes_last_position() {
    let t = Tokenizer::from_words(vec![
        "<pad>".into(), "<unk>".into(), "<bos>".into(), "<eos>".into(), "hi".into(), "hi".into(),
    ]);
    assert_eq!(t.encode("hi"), vec![5]);
}

#[test]
fn vocabulary_json_roundtrip() {
    let t = Tokenizer::build_from_text(CORPUS);
    let json = t.vocabulary_json();
    assert!(json.contains("\"robot\""));
    let back = Tokenizer::from_vocabulary_json(&json).unwrap();
    assert_eq!(words(&back), words(&t));
}

#[test]
fn vocabulary_json_errors() {
    assert_eq!(Tokenizer::from_vocabulary_json("not json").err(), Some(VocabError::InvalidJson));
    assert_eq!(Tokenizer::from_vocabulary_json("[1, 2]").err(), Some(VocabError::InvalidJson));
    assert_eq!(Tokenizer::from_vocabulary_json("[\"a\"] x").err(), Some(VocabError::InvalidJson));
    let t = Tokenizer::from_vocabulary_json("[\"a\", \"b\"]").unwrap();
    assert_eq!(words(&t), vec!["a", "b"]);
}

#[test]
fn training_text_has_no_unknown_words() {
    let t = Tokenizer::build_from_text(CORPUS);
    let ids = t.encode(CORPUS);
    assert_eq!(ids.len(), 12);
    assert!(!ids.contains(&t.unk_id()));
    let toks = tokenize_raw(CORPUS);
    for (id, tok) in ids.iter().zip(toks.iter()) {
        assert_eq!(&t.words()[*id], tok);
    }
}

#[test]
fn tokenize_raw_unicode_lowercase() {
    assert_eq!(tokenize_raw("ÉCOLE Straße"), vec!["école", "straße"]);
    // str::to_lowercase turns a word-final capital sigma into the final form.
    assert_eq!(tokenize_raw("ΟΔΟΣ"), vec!["οδο\u{3c2}"]);
    assert_eq!(tokenize_raw("数字 123abc"), vec!["数字", "abc"]);
}

#[test]
fn vocabulary_grows_in_first_occurrence_order() {
    let t = Tokenizer::build_from_text("b a b c a");
    assert_eq!(words(&t)[4..].to_vec(), vec!["b", "a", "c"]);
}

#[test]
fn tokenizer_clone_keeps_words() {
    let t = Tokenizer::build_from_text(CORPUS);
    let c = t.clone();
    assert_eq!(words(&c), words(&t));
}

#[test]
fn punctuation_inside_a_word_is_removed() {
    assert_eq!(tokenize_raw("State-of-the-art"), vec!["stateoftheart"]);
}

#[test]
fn encode_after_decode_gives_ids_back() {
    let t = Tokenizer::build_from_text(CORPUS);
    let ids = vec![10, 6, 7, 11, 4];
    assert_eq!(t.encode(&t.decode(&ids)), ids);
}
