//! Cross-cutting laws of the two reconstruction strategies, stated and
//! proved over the same specifications their contracts use.

use vstd::prelude::*;

use crate::chain::{
    chain_done, chain_spec, chain_step_ok, first_valid, key_of, phrase_used, sent_toks, sum_freqs,
};
use crate::combine::{combine_spec, suffix_key, triple_ok, triples_p2, triples_p3, TripleV};
use crate::index::Index;
use crate::record::{ends_with_boundary, is_start_cand, starts_with_boundary, RecV};

verus! {

proof fn lemma_triples_p3_member(p1: RecV, p2: RecV, c3: Seq<RecV>, i: int)
    requires
        0 <= i < triples_p3(p1, p2, c3).len(),
    ensures
        ({
            let t = triples_p3(p1, p2, c3)[i];
            &&& t.first == p1
            &&& t.second == p2
            &&& ends_with_boundary(t.third.toks)
            &&& t.total == p1.freq + p2.freq + t.third.freq
        }),
    decreases c3.len(),
{
    if c3.len() > 0 {
        let whole = triples_p3(p1, p2, c3);
        if triple_ok(p1, p2, c3[0]) {
            if i > 0 {
                assert(whole[i] == triples_p3(p1, p2, c3.drop_first())[i - 1]);
                lemma_triples_p3_member(p1, p2, c3.drop_first(), i - 1);
            }
        } else {
            assert(whole[i] == triples_p3(p1, p2, c3.drop_first())[i]);
            lemma_triples_p3_member(p1, p2, c3.drop_first(), i);
        }
    }
}

proof fn lemma_triples_p2_member(idx: Index, p1: RecV, c2: Seq<RecV>, i: int)
    requires
        0 <= i < triples_p2(idx, p1, c2).len(),
    ensures
        ({
            let t = triples_p2(idx, p1, c2)[i];
            &&& t.first == p1
            &&& !ends_with_boundary(t.second.toks)
            &&& ends_with_boundary(t.third.toks)
            &&& t.total == t.first.freq + t.second.freq + t.third.freq
        }),
    decreases c2.len(),
{
    if c2.len() > 0 {
        let whole = triples_p2(idx, p1, c2);
        if !ends_with_boundary(c2[0].toks) {
            let head = triples_p3(p1, c2[0], idx.spec_get(suffix_key(c2[0])));
            if i < head.len() {
                assert(whole[i] == head[i]);
                lemma_triples_p3_member(p1, c2[0], idx.spec_get(suffix_key(c2[0])), i);
            } else {
                assert(whole[i] == triples_p2(idx, p1, c2.drop_first())[i - head.len()]);
                lemma_triples_p2_member(idx, p1, c2.drop_first(), i - head.len());
            }
        } else {
            assert(whole[i] == triples_p2(idx, p1, c2.drop_first())[i]);
            lemma_triples_p2_member(idx, p1, c2.drop_first(), i);
        }
    }
}

/// Every triple the bounded combiner emits keeps the boundary discipline:
/// its start is the given record (so, when the driver hands it a start
/// candidate, it begins with the boundary token and contains no other
/// occurrence of it), its middle is not terminal, its end is terminal,
/// and its total is exactly the sum of the three frequencies.
pub proof fn lemma_combiner_triples(idx: Index, p1: RecV, i: int)
    requires
        0 <= i < combine_spec(idx, p1).len(),
    ensures
        ({
            let t = combine_spec(idx, p1)[i];
            &&& t.first == p1
            &&& starts_with_boundary(t.first.toks)
            &&& is_start_cand(p1.toks) ==> is_start_cand(t.first.toks)
            &&& !ends_with_boundary(t.second.toks)
            &&& ends_with_boundary(t.third.toks)
            &&& t.total == t.first.freq + t.second.freq + t.third.freq
        }),
{
    lemma_triples_p2_member(idx, p1, idx.spec_get(suffix_key(p1)), i);
}

/// The bounded combiner is deterministic: two runs over the same index
/// and start record emit the same triples, hence the same set of output
/// lines.
pub proof fn lemma_combine_deterministic(idx: Index, p1: RecV, r1: Seq<TripleV>, r2: Seq<TripleV>)
    requires
        r1 == combine_spec(idx, p1),
        r2 == combine_spec(idx, p1),
    ensures
        r1 == r2,
{
}

proof fn lemma_chain_prefix_eq(idx: Index, u1: Seq<RecV>, u2: Seq<RecV>, j: int)
    requires
        u1.len() >= 1,
        u2.len() >= 1,
        u1[0] == u2[0],
        forall|m: int| 1 <= m < u1.len() ==> chain_step_ok(idx, u1, m),
        forall|m: int| 1 <= m < u2.len() ==> chain_step_ok(idx, u2, m),
        1 <= j <= u1.len(),
        j <= u2.len(),
    ensures
        u1.subrange(0, j) == u2.subrange(0, j),
    decreases j,
{
    if j == 1 {
        assert(u1.subrange(0, 1) =~= u2.subrange(0, 1));
    } else {
        lemma_chain_prefix_eq(idx, u1, u2, j - 1);
        assert(chain_step_ok(idx, u1, j - 1));
        assert(chain_step_ok(idx, u2, j - 1));
        assert(u1.subrange(0, j - 1) == u2.subrange(0, j - 1));
        assert(u1[j - 1] == u2[j - 1]);
        assert(u1.subrange(0, j) =~= u1.subrange(0, j - 1).push(u1[j - 1]));
        assert(u2.subrange(0, j) =~= u2.subrange(0, j - 1).push(u2[j - 1]));
    }
}

proof fn lemma_chain_no_longer(idx: Index, start: RecV, u1: Seq<RecV>, u2: Seq<RecV>)
    requires
        chain_spec(idx, start, u1),
        chain_spec(idx, start, u2),
    ensures
        u2.len() <= u1.len(),
{
    if u1.len() >= u2.len() {
        return;
    }
    let l = u1.len() as int;
    lemma_chain_prefix_eq(idx, u1, u2, l);
    assert(u1.subrange(0, l) =~= u1);
    assert(u2.subrange(0, l) == u1);
    assert(chain_step_ok(idx, u2, l));
    let toks = sent_toks(u1);
    let n = idx.n as int;
    let fv = first_valid(idx.spec_get(key_of(toks, n)));
    assert(toks.len() >= n - 1);
    assert(fv == Some(u2[l]));
    if l >= 2 {
        assert(u2[l - 1] == u1[l - 1]);
        assert(!ends_with_boundary(u1[l - 1].toks));
    }
    assert(!phrase_used(u1, u2[l].toks));
    assert(sum_freqs(u2.subrange(0, l + 1)) <= usize::MAX);
    assert(u2.subrange(0, l + 1).drop_last() =~= u1);
    assert(u2.subrange(0, l + 1).last() == u2[l]);
    assert(sum_freqs(u2.subrange(0, l + 1)) == sum_freqs(u1) + u2[l].freq);
    assert(!chain_done(idx, u1));
}

/// The full-chain strategy is deterministic: any two finished chains from
/// the same start over the same index are equal, record for record, so
/// repeated runs over identical input produce identical results.
pub proof fn lemma_chain_deterministic(idx: Index, start: RecV, u1: Seq<RecV>, u2: Seq<RecV>)
    requires
        chain_spec(idx, start, u1),
        chain_spec(idx, start, u2),
    ensures
        u1 == u2,
{
    lemma_chain_no_longer(idx, start, u1, u2);
    lemma_chain_no_longer(idx, start, u2, u1);
    let l = u1.len() as int;
    lemma_chain_prefix_eq(idx, u1, u2, l);
    assert(u1.subrange(0, l) =~= u1);
    assert(u2.subrange(0, l) =~= u2);
}

} // verus!
