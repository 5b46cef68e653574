use std::io::Write;

use query_embeddings::error::ParseError;
use query_embeddings::parts::{build_query_dataset, Part};
use query_embeddings::vocab::Vocabulary;

fn vocab_red_car_blue() -> Vocabulary {
    let content: Vec<u8> = b"\"red\"\n\"car\"\n\"blue\"\n".to_vec();
    Vocabulary::from_bytes(&content).unwrap()
}

fn part(name: &str, content: &[u8]) -> Part {
    Part { name: name.as_bytes().to_vec(), content: content.to_vec() }
}

fn gzip(bytes: &[u8]) -> Vec<u8> {
    let mut encoder =
        flate2::write::GzEncoder::new(Vec::new(), flate2::Compression::default());
    encoder.write_all(bytes).unwrap();
    encoder.finish().unwrap()
}

#[test]
fn single_file_part_is_tokenized_line_by_line() {
    let vocab = vocab_red_car_blue();
    let parts = vec![part("q.log", b"\"q1:red car\"\n\"q2:blue\"\n")];
    let ds = build_query_dataset(parts, &vocab).unwrap();
    assert_eq!(ds.queries, vec![vec![0, 1], vec![2]]);
}

#[test]
fn parts_merge_in_ascending_name_order() {
    let vocab = vocab_red_car_blue();
    let part_b = part("b.log", b"\"q:blue\"\n");
    let part_a = part("a.log", b"\"q:red car\"\n");
    // listed out of order, as a filesystem might hand them out
    let ds = build_query_dataset(vec![part_b, part_a], &vocab).unwrap();
    assert_eq!(ds.queries, vec![vec![0, 1], vec![2]]);
}

#[test]
fn merge_order_ignores_listing_order() {
    let vocab = vocab_red_car_blue();
    let names = ["c.log", "a.log", "b.log"];
    let contents: [&[u8]; 3] = [b"\"q:blue\"\n", b"\"q:red\"\n", b"\"q:car\"\n"];
    let listed: Vec<Part> = (0..3).map(|i| part(names[i], contents[i])).collect();
    let reversed: Vec<Part> = (0..3).rev().map(|i| part(names[i], contents[i])).collect();
    let ds1 = build_query_dataset(listed, &vocab).unwrap();
    let ds2 = build_query_dataset(reversed, &vocab).unwrap();
    assert_eq!(ds1.queries, ds2.queries);
    assert_eq!(ds1.queries, vec![vec![0], vec![1], vec![2]]);
}

#[test]
fn gzip_part_equals_plain_part() {
    let vocab = vocab_red_car_blue();
    let text: &[u8] = b"\"q1:red car\"\n\"q2:blue red\"\n";
    let plain = build_query_dataset(vec![part("q.log", text)], &vocab).unwrap();
    let zipped = build_query_dataset(vec![part("q.log.gz", &gzip(text))], &vocab).unwrap();
    assert_eq!(plain.queries, zipped.queries);
    assert_eq!(plain.queries, vec![vec![0, 1], vec![2, 0]]);
}

#[test]
fn invalid_gzip_part_fails() {
    let vocab = vocab_red_car_blue();
    let r = build_query_dataset(vec![part("bad.gz", b"not gzip at all")], &vocab);
    assert!(matches!(r, Err(ParseError::InvalidGzip)));
}

#[test]
fn malformed_query_line_fails() {
    let vocab = vocab_red_car_blue();
    let r = build_query_dataset(vec![part("q.log", b"\"ok:red\"\nbroken\n")], &vocab);
    assert!(matches!(r, Err(ParseError::MalformedLine)));
}

#[test]
fn empty_listing_gives_empty_dataset() {
    let vocab = vocab_red_car_blue();
    let ds = build_query_dataset(Vec::new(), &vocab).unwrap();
    assert_eq!(ds.len(), 0);
    assert_eq!(ds.queries, Vec::<Vec<usize>>::new());
}

#[test]
fn empty_part_gives_no_queries() {
    let vocab = vocab_red_car_blue();
    let ds = build_query_dataset(vec![part("q.log", b"")], &vocab).unwrap();
    assert_eq!(ds.len(), 0);
}

#[test]
fn all_unknown_line_stays_as_empty_query() {
    let vocab = vocab_red_car_blue();
    let ds = build_query_dataset(vec![part("q.log", b"\"q:plane train\"\n")], &vocab).unwrap();
    assert_eq!(ds.queries, vec![Vec::<usize>::new()]);
}

#[test]
fn error_messages_are_not_empty() {
    assert!(!ParseError::MalformedLine.message().is_empty());
    assert!(!ParseError::InvalidGzip.message().is_empty());
}
