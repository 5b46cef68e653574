use query_embeddings::vocab::Vocabulary;

fn vocab_red_car() -> Vocabulary {
    let content: Vec<u8> = b"\"red\"\n\"car\"\n".to_vec();
    Vocabulary::from_bytes(&content).unwrap()
}

#[test]
fn line_with_prefixes_uses_text_after_last_colon() {
    let vocab = vocab_red_car();
    assert_eq!(vocab.tokenize_line("q1:region:red car"), vec![0, 1]);
}

#[test]
fn line_without_colon_uses_whole_line() {
    let vocab = vocab_red_car();
    assert_eq!(vocab.tokenize_line("red car"), vec![0, 1]);
}

#[test]
fn line_with_one_colon_strips_prefix() {
    let vocab = vocab_red_car();
    // "red" sits in the stripped prefix and must not contribute a token
    assert_eq!(vocab.tokenize_line("red:car"), vec![1]);
}

#[test]
fn unknown_terms_are_dropped_in_place() {
    let vocab = vocab_red_car();
    assert_eq!(vocab.tokenize_line("red plane car"), vec![0, 1]);
}

#[test]
fn token_order_follows_source_order() {
    let vocab = vocab_red_car();
    assert_eq!(vocab.tokenize_line("car red car"), vec![1, 0, 1]);
}

#[test]
fn repeated_whitespace_yields_no_extra_terms() {
    let vocab = vocab_red_car();
    assert_eq!(vocab.tokenize_line("  red \t car  "), vec![0, 1]);
}

#[test]
fn all_unknown_terms_give_empty_sequence() {
    let vocab = vocab_red_car();
    assert_eq!(vocab.tokenize_line("plane train"), Vec::<usize>::new());
}

#[test]
fn empty_line_gives_empty_sequence() {
    let vocab = vocab_red_car();
    assert_eq!(vocab.tokenize_line(""), Vec::<usize>::new());
}

#[test]
fn trailing_colon_gives_empty_sequence() {
    let vocab = vocab_red_car();
    assert_eq!(vocab.tokenize_line("red car:"), Vec::<usize>::new());
}
