use query_embeddings::error::ParseError;
use query_embeddings::vocab::Vocabulary;

fn chars(s: &str) -> Vec<char> {
    s.chars().collect()
}

#[test]
fn vocab_ids_follow_line_order() {
    let content: Vec<u8> = b"\"red\"\n\"car\"\n\"blue\"\n".to_vec();
    let vocab = Vocabulary::from_bytes(&content).unwrap();
    assert_eq!(vocab.len(), 3);
    assert_eq!(vocab.get(&chars("red")), Some(0));
    assert_eq!(vocab.get(&chars("car")), Some(1));
    assert_eq!(vocab.get(&chars("blue")), Some(2));
    assert_eq!(vocab.get(&chars("plane")), None);
}

#[test]
fn vocab_without_trailing_newline() {
    let content: Vec<u8> = b"\"red\"\n\"car\"".to_vec();
    let vocab = Vocabulary::from_bytes(&content).unwrap();
    assert_eq!(vocab.len(), 2);
    assert_eq!(vocab.get(&chars("car")), Some(1));
}

#[test]
fn vocab_crlf_lines() {
    let content: Vec<u8> = b"\"red\"\r\n\"car\"\r\n".to_vec();
    let vocab = Vocabulary::from_bytes(&content).unwrap();
    assert_eq!(vocab.len(), 2);
    assert_eq!(vocab.get(&chars("red")), Some(0));
    assert_eq!(vocab.get(&chars("car")), Some(1));
}

#[test]
fn vocab_duplicate_word_last_line_wins() {
    let content: Vec<u8> = b"\"red\"\n\"car\"\n\"red\"\n".to_vec();
    let vocab = Vocabulary::from_bytes(&content).unwrap();
    assert_eq!(vocab.len(), 3);
    assert_eq!(vocab.get(&chars("red")), Some(2));
    assert_eq!(vocab.get(&chars("car")), Some(1));
}

#[test]
fn vocab_malformed_line_fails() {
    let content: Vec<u8> = b"\"red\"\nnot json\n".to_vec();
    let r = Vocabulary::from_bytes(&content);
    assert!(matches!(r, Err(ParseError::MalformedLine)));
}

#[test]
fn vocab_empty_file_is_valid() {
    let content: Vec<u8> = Vec::new();
    let vocab = Vocabulary::from_bytes(&content).unwrap();
    assert_eq!(vocab.len(), 0);
    assert_eq!(vocab.get(&chars("red")), None);
}

#[test]
fn vocab_json_escapes_are_decoded() {
    // the stored word is the decoded text, not the raw line
    let content: Vec<u8> = b"\"a b\"\n\"caf\\u00e9\"\n".to_vec();
    let vocab = Vocabulary::from_bytes(&content).unwrap();
    assert_eq!(vocab.get(&chars("a b")), Some(0));
    assert_eq!(vocab.get(&chars("caf\u{00e9}")), Some(1));
    assert_eq!(vocab.get(&chars("\"a b\"")), None);
}
