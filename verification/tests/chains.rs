//! Tests of the overlap index, the full-chain strategy, and the bounded
//! combiner, including the boundary-rule and cycle-guard scenarios.

use sentence_reconstruction::chain::expand_sentence;
use sentence_reconstruction::combine::combine_bounded;
use sentence_reconstruction::driver::start_candidates;
use sentence_reconstruction::index::build_index;
use sentence_reconstruction::record::{parse_line, Record};

fn rec(phrase: &str, freq: usize) -> Record {
    Record {
        tokens: phrase.split_whitespace().map(|w| w.to_string()).collect(),
        freq,
    }
}

fn parse_all(lines: &[&str], n: usize) -> Vec<Record> {
    lines.iter().filter_map(|l| parse_line(l, n)).collect()
}

#[test]
fn index_lookup_finds_records_in_input_order() {
    let records = vec![
        rec("a b c", 1),
        rec("a b d", 2),
        rec("b c e", 3),
        rec("a b", 9), // wrong token count: not indexed
    ];
    let idx = build_index(&records, 3);
    let key: Vec<String> = vec!["a".to_string(), "b".to_string()];
    let items = idx.lookup(&key).expect("key should be present");
    assert_eq!(items.len(), 2);
    assert_eq!(items[0].phrase(), "a b c");
    assert_eq!(items[0].freq, 1);
    assert_eq!(items[1].phrase(), "a b d");
    assert_eq!(items[1].freq, 2);
    let missing: Vec<String> = vec!["z".to_string(), "z".to_string()];
    assert!(idx.lookup(&missing).is_none());
}

#[test]
fn full_chain_example_traces_all_records() {
    // Three overlapping 4-grams reconstruct one full sentence.
    let lines = ["_ the cat sat 5", "the cat sat on 3", "cat sat on the_ 2"];
    let records = parse_all(&lines, 4);
    assert_eq!(records.len(), 3);
    let idx = build_index(&records, 4);
    let starts = start_candidates(&records);
    assert_eq!(starts.len(), 1);
    assert_eq!(starts[0].phrase(), "_ the cat sat");

    let res = expand_sentence(&starts[0], &idx);
    assert_eq!(res.sentence(), "_ the cat sat on the_");
    assert_eq!(res.total, 10);
    assert_eq!(res.used.len(), 3);
    assert_eq!(res.used[0].phrase(), "_ the cat sat");
    assert_eq!(res.used[1].phrase(), "the cat sat on");
    assert_eq!(res.used[2].phrase(), "cat sat on the_");
}

#[test]
fn short_line_never_indexed_nor_start() {
    // Two tokens plus a frequency with n = 3: skipped by the parser, so
    // it can neither be indexed nor become a start candidate.
    let lines = ["the cat 4", "_ a b 1", "a b c_ 2"];
    let records = parse_all(&lines, 3);
    assert_eq!(records.len(), 2);
    let starts = start_candidates(&records);
    assert_eq!(starts.len(), 1);
    assert_eq!(starts[0].phrase(), "_ a b");
}

#[test]
fn reconstructor_skips_boundary_invalid_candidate() {
    // Two records share the overlap key; the first in file order carries
    // an internal boundary token and must be skipped in favour of the
    // second, valid one.
    let lines = [
        "_ a b 1",
        "a b _x 7", // boundary character inside a continuation token: invalid link
        "a b c_ 2", // valid terminal continuation
    ];
    let records = parse_all(&lines, 3);
    let idx = build_index(&records, 3);
    let starts = start_candidates(&records);
    assert_eq!(starts.len(), 1);
    let res = expand_sentence(&starts[0], &idx);
    assert_eq!(res.sentence(), "_ a b c_");
    assert_eq!(res.total, 3);
    assert_eq!(res.used.len(), 2);
    assert_eq!(res.used[1].phrase(), "a b c_");
}

#[test]
fn cycle_guard_stops_adversarial_loop() {
    // a b -> b a -> a b would loop forever without the cycle guard.
    let lines = ["_ a b 1", "a b a 1", "b a b 1"];
    let records = parse_all(&lines, 3);
    let idx = build_index(&records, 3);
    let starts = start_candidates(&records);
    assert_eq!(starts.len(), 1);
    let res = expand_sentence(&starts[0], &idx);
    // Constituents must be distinct phrases.
    for i in 0..res.used.len() {
        for j in 0..i {
            assert_ne!(res.used[i].phrase(), res.used[j].phrase());
        }
    }
    assert_eq!(res.sentence(), "_ a b a b");
    assert_eq!(res.total, 3);
}

#[test]
fn dead_end_still_returns_start_only_result() {
    let lines = ["_ a b 4"];
    let records = parse_all(&lines, 3);
    let idx = build_index(&records, 3);
    let res = expand_sentence(&records[0], &idx);
    assert_eq!(res.sentence(), "_ a b");
    assert_eq!(res.total, 4);
    assert_eq!(res.used.len(), 1);
}

#[test]
fn total_is_exact_sum_of_constituents() {
    let lines = ["_ a b 10", "a b c 20", "b c d_ 30"];
    let records = parse_all(&lines, 3);
    let idx = build_index(&records, 3);
    let starts = start_candidates(&records);
    let res = expand_sentence(&starts[0], &idx);
    let sum: usize = res.used.iter().map(|r| r.freq).sum();
    assert_eq!(res.total, sum);
    assert_eq!(res.total, 60);
}

#[test]
fn combiner_enumerates_all_valid_triples() {
    let lines = [
        "_ a b 1",
        "a b c 2",
        "a b d 4",
        "b c e_ 8",
        "b d f_ 16",
        "b c g 32", // not terminal: cannot end a triple
    ];
    let records = parse_all(&lines, 3);
    let idx = build_index(&records, 3);
    let triples = combine_bounded(&records[0], &idx);
    assert_eq!(triples.len(), 2);
    assert_eq!(triples[0].first.phrase(), "_ a b");
    assert_eq!(triples[0].second.phrase(), "a b c");
    assert_eq!(triples[0].third.phrase(), "b c e_");
    assert_eq!(triples[0].total, 11);
    assert_eq!(triples[1].second.phrase(), "a b d");
    assert_eq!(triples[1].third.phrase(), "b d f_");
    assert_eq!(triples[1].total, 21);
}

#[test]
fn combiner_rejects_terminal_middle() {
    // The middle segment ends with the boundary token, so no triple
    // may be emitted through it.
    let lines = ["_ a b 1", "a b c_ 2", "b c_ d_ 4"];
    let records = parse_all(&lines, 3);
    let idx = build_index(&records, 3);
    let triples = combine_bounded(&records[0], &idx);
    assert!(triples.is_empty());
}

#[test]
fn combiner_requires_boundary_start_of_exact_size() {
    let lines = ["a b c 1", "b c d_ 2", "c d_ e_ 3"];
    let records = parse_all(&lines, 3);
    let idx = build_index(&records, 3);
    // Does not start with the boundary token: nothing is emitted.
    let triples = combine_bounded(&records[0], &idx);
    assert!(triples.is_empty());
}

#[test]
fn both_strategies_are_idempotent() {
    let lines = [
        "_ a b 1",
        "a b c 2",
        "a b d 4",
        "b c e_ 8",
        "b d f_ 16",
    ];
    let records = parse_all(&lines, 3);
    let idx = build_index(&records, 3);
    let starts = start_candidates(&records);

    let first_run: Vec<String> = starts
        .iter()
        .map(|s| {
            let r = expand_sentence(s, &idx);
            format!("{} => {}", r.sentence(), r.total)
        })
        .collect();
    let second_run: Vec<String> = starts
        .iter()
        .map(|s| {
            let r = expand_sentence(s, &idx);
            format!("{} => {}", r.sentence(), r.total)
        })
        .collect();
    assert_eq!(first_run, second_run);

    let t1: Vec<usize> = combine_bounded(&records[0], &idx).iter().map(|t| t.total).collect();
    let t2: Vec<usize> = combine_bounded(&records[0], &idx).iter().map(|t| t.total).collect();
    assert_eq!(t1, t2);
}

#[test]
fn boundary_only_start_token() {
    // A lone boundary token is a valid start candidate; expansion stops
    // at once because the sentence is shorter than the overlap key.
    let lines = ["_ 3", "x y z 1"];
    let records = parse_all(&lines, 3);
    // "_ 3" has one token plus frequency: too short for n = 3, skipped.
    assert_eq!(records.len(), 1);
}

#[test]
fn oversized_record_can_still_start_a_chain() {
    // A record with more than n tokens is never indexed, but it remains
    // eligible as a start candidate; its chain extends through indexed
    // records from its trailing overlap key.
    let lines = ["_ a b c 1", "b c d_ 2"];
    let records = parse_all(&lines, 3);
    let idx = build_index(&records, 3);
    let starts = start_candidates(&records);
    assert_eq!(starts.len(), 1);
    assert_eq!(starts[0].phrase(), "_ a b c");

    let res = expand_sentence(&starts[0], &idx);
    assert_eq!(res.sentence(), "_ a b c d_");
    assert_eq!(res.total, 3);

    // The oversized record itself must not be in the index.
    let key: Vec<String> = vec!["_".to_string(), "a".to_string()];
    assert!(idx.lookup(&key).is_none());
}

#[test]
fn start_with_internal_boundary_is_excluded() {
    let lines = ["_ a b_ 1", "_ c d 2"];
    let records = parse_all(&lines, 3);
    let starts = start_candidates(&records);
    assert_eq!(starts.len(), 1);
    assert_eq!(starts[0].phrase(), "_ c d");
}
