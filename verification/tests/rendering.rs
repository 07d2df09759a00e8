//! Tests of the text utilities: tokenizing, joining, and decimal
//! rendering.

use sentence_reconstruction::text::{join_tokens, parse_usize, render_usize, tokenize};
use sentence_reconstruction::chain::expand_sentence;
use sentence_reconstruction::combine::combine_bounded;
use sentence_reconstruction::driver::start_candidates;
use sentence_reconstruction::index::build_index;
use sentence_reconstruction::record::parse_line;
use sentence_reconstruction::render::render_chain_block;
use sentence_reconstruction::render::render_triple_line;

#[test]
fn tokenize_splits_on_any_whitespace() {
    let toks = tokenize(" a\t bb  c ");
    assert_eq!(toks, vec!["a".to_string(), "bb".to_string(), "c".to_string()]);
    assert!(tokenize("").is_empty());
    assert!(tokenize(" \t ").is_empty());
}

#[test]
fn join_is_single_spaced() {
    let toks = vec!["a".to_string(), "bb".to_string(), "c".to_string()];
    assert_eq!(join_tokens(&toks), "a bb c");
    assert_eq!(join_tokens(&Vec::new()), "");
    assert_eq!(join_tokens(&vec!["x".to_string()]), "x");
}

#[test]
fn parse_usize_exact_values() {
    assert_eq!(parse_usize("0"), Some(0));
    assert_eq!(parse_usize("00123"), Some(123));
    assert_eq!(parse_usize(&usize::MAX.to_string()), Some(usize::MAX));
    assert_eq!(parse_usize(""), None);
    assert_eq!(parse_usize("+5"), None);
    assert_eq!(parse_usize("5x"), None);
    assert_eq!(parse_usize("184467440737095516159999"), None);
}

#[test]
fn render_usize_round_trips() {
    assert_eq!(render_usize(0), "0");
    assert_eq!(render_usize(7), "7");
    assert_eq!(render_usize(90210), "90210");
    assert_eq!(render_usize(usize::MAX), usize::MAX.to_string());
    assert_eq!(parse_usize(&render_usize(123456789)), Some(123456789));
}

#[test]
fn chain_block_exact_text() {

    let lines = ["_ the cat sat 5", "the cat sat on 3", "cat sat on the_ 2"];
    let records: Vec<_> = lines.iter().filter_map(|l| parse_line(l, 4)).collect();
    let idx = build_index(&records, 4);
    let starts = start_candidates(&records);
    let res = expand_sentence(&starts[0], &idx);
    let block = render_chain_block(&res);
    let expected = "_ the cat sat on the_ => 10\n    [1] _ the cat sat (5)\n    [2] the cat sat on (3)\n    [3] cat sat on the_ (2)\n\n";
    assert_eq!(block, expected);
}

#[test]
fn triple_line_exact_text() {

    let lines = ["_ a b 1", "a b c 2", "b c e_ 8"];
    let records: Vec<_> = lines.iter().filter_map(|l| parse_line(l, 3)).collect();
    let idx = build_index(&records, 3);
    let triples = combine_bounded(&records[0], &idx);
    assert_eq!(triples.len(), 1);
    assert_eq!(render_triple_line(&triples[0]), "_ a b | a b c | b c e_ => 11\n");
}
