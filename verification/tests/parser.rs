//! Tests of the record parser: well-formed lines, malformed lines, and
//! frequency parsing edge cases.

use sentence_reconstruction::record::parse_line;

fn toks(words: &[&str]) -> Vec<String> {
    words.iter().map(|w| w.to_string()).collect()
}

#[test]
fn parses_well_formed_line() {
    let rec = parse_line("_ the cat sat 5", 4).expect("line should parse");
    assert_eq!(rec.tokens, toks(&["_", "the", "cat", "sat"]));
    assert_eq!(rec.freq, 5);
    assert_eq!(rec.phrase(), "_ the cat sat");
}

#[test]
fn collapses_whitespace() {
    let rec = parse_line("  the \t cat   sat\t7 ", 3).expect("line should parse");
    assert_eq!(rec.tokens, toks(&["the", "cat", "sat"]));
    assert_eq!(rec.freq, 7);
    assert_eq!(rec.phrase(), "the cat sat");
}

#[test]
fn skips_short_line() {
    // Two tokens plus a frequency is too few fields for n = 3.
    assert!(parse_line("the cat 4", 3).is_none());
}

#[test]
fn accepts_exact_field_count() {
    // The same line is enough for n = 2.
    let rec = parse_line("the cat 4", 2).expect("line should parse");
    assert_eq!(rec.tokens, toks(&["the", "cat"]));
    assert_eq!(rec.freq, 4);
}

#[test]
fn skips_non_numeric_frequency() {
    assert!(parse_line("_ the cat sat five", 4).is_none());
}

#[test]
fn skips_negative_frequency() {
    assert!(parse_line("_ the cat sat -5", 4).is_none());
}

#[test]
fn skips_overflowing_frequency() {
    assert!(parse_line("_ the cat sat 99999999999999999999999999", 4).is_none());
}

#[test]
fn accepts_max_frequency() {
    let line = format!("_ the cat sat {}", usize::MAX);
    let rec = parse_line(&line, 4).expect("line should parse");
    assert_eq!(rec.freq, usize::MAX);
}

#[test]
fn skips_empty_line() {
    assert!(parse_line("", 3).is_none());
    assert!(parse_line("   ", 3).is_none());
}

#[test]
fn extra_tokens_go_into_phrase() {
    // More than n tokens before the frequency: everything but the last
    // field belongs to the phrase.
    let rec = parse_line("a b c d e 9", 3).expect("line should parse");
    assert_eq!(rec.tokens, toks(&["a", "b", "c", "d", "e"]));
    assert_eq!(rec.freq, 9);
}

#[test]
fn zero_frequency_is_valid() {
    let rec = parse_line("a b c 0", 2).expect("line should parse");
    assert_eq!(rec.freq, 0);
}
