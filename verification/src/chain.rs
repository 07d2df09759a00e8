//! The chain reconstructor: greedy unbounded expansion of a start record
//! into a full sentence, following `(n-1)`-token overlaps.

use vstd::prelude::*;

use crate::index::{bucket_get, items_v, recs_v, Bucket, Index};
use crate::record::{ends_with_boundary, link_valid, RecV, Record};
use vstd::set::group_set_axioms;
use vstd::seq_lib::seq_to_set_is_finite;

verus! {

/// A reconstructed sentence: its tokens, its cumulative frequency, and the
/// constituent records in the order they were incorporated.
pub struct ChainResult {
    pub tokens: Vec<String>,
    pub total: usize,
    pub used: Vec<Record>,
}

/// The first boundary-valid candidate at or after position `i`.
pub open spec fn first_valid_from(cands: Seq<RecV>, i: int) -> Option<RecV>
    decreases cands.len() - i,
    when 0 <= i <= cands.len()
{
    if i == cands.len() {
        None
    } else if link_valid(cands[i].toks) {
        Some(cands[i])
    } else {
        first_valid_from(cands, i + 1)
    }
}

/// The first boundary-valid candidate of a bucket, if any.
pub open spec fn first_valid(cands: Seq<RecV>) -> Option<RecV> {
    first_valid_from(cands, 0)
}

/// The sum of the records' frequencies.
pub open spec fn sum_freqs(rs: Seq<RecV>) -> int
    decreases rs.len(),
{
    if rs.len() == 0 {
        0
    } else {
        sum_freqs(rs.drop_last()) + rs.last().freq
    }
}

/// The sentence tokens after incorporating `used`: the start record's
/// whole phrase, then the final token of each later record in order.
pub open spec fn sent_toks(used: Seq<RecV>) -> Seq<Seq<char>> {
    if used.len() == 0 {
        Seq::empty()
    } else {
        used[0].toks + used.subrange(1, used.len() as int).map_values(|r: RecV| r.toks.last())
    }
}

/// The trailing `n - 1` tokens, used to look continuations up.
pub open spec fn key_of(toks: Seq<Seq<char>>, n: int) -> Seq<Seq<char>> {
    toks.subrange(toks.len() - (n - 1), toks.len() as int)
}

/// The phrase `p` is already carried by one of the records of `used`.
pub open spec fn phrase_used(used: Seq<RecV>, p: Seq<Seq<char>>) -> bool {
    exists|m: int| 0 <= m < used.len() && (#[trigger] used[m]).toks == p
}

/// Step `j` of a chain is the unique greedy continuation: the sentence so
/// far is long enough to have a key, the previous record was not terminal,
/// the record taken is the first boundary-valid candidate of that key's
/// bucket, its phrase is new to the chain, and the running total still
/// fits the counter.
pub open spec fn chain_step_ok(idx: Index, used: Seq<RecV>, j: int) -> bool
    recommends
        1 <= j < used.len(),
{
    let pre = used.subrange(0, j);
    let toks = sent_toks(pre);
    let n = idx.n as int;
    &&& toks.len() >= n - 1
    &&& (j >= 2 ==> !ends_with_boundary(used[j - 1].toks))
    &&& first_valid(idx.spec_get(key_of(toks, n))) == Some(used[j])
    &&& !phrase_used(pre, used[j].toks)
    &&& sum_freqs(used.subrange(0, j + 1)) <= usize::MAX
}

/// A finished chain: the last record was terminal, or the sentence is too
/// short to have a key, or the key's bucket offers no boundary-valid
/// candidate, or the candidate was already used, or incorporating it would
/// overflow the frequency counter.
pub open spec fn chain_done(idx: Index, used: Seq<RecV>) -> bool {
    let toks = sent_toks(used);
    let n = idx.n as int;
    let fv = first_valid(idx.spec_get(key_of(toks, n)));
    ||| (used.len() >= 2 && ends_with_boundary(used[used.len() - 1].toks))
    ||| toks.len() < n - 1
    ||| fv is None
    ||| (fv matches Some(c) && (phrase_used(used, c.toks) || sum_freqs(used) + c.freq
        > usize::MAX))
}

/// The set of phrases held anywhere in the index's buckets. It is finite,
/// and it bounds how long a chain can grow, since every continuation
/// consumes a fresh phrase out of it.
pub open spec fn phrase_pool(bs: Seq<Bucket>) -> Set<Seq<Seq<char>>>
    decreases bs.len(),
{
    if bs.len() == 0 {
        Set::empty()
    } else {
        items_v(bs[0]).map_values(|r: RecV| r.toks).to_set().union(phrase_pool(bs.drop_first()))
    }
}

/// The set of phrases already used by a chain.
pub open spec fn used_set(uv: Seq<RecV>) -> Set<Seq<Seq<char>>> {
    uv.map_values(|r: RecV| r.toks).to_set()
}

proof fn lemma_pool_finite(bs: Seq<Bucket>)
    ensures
        phrase_pool(bs).finite(),
    decreases bs.len(),
{
    broadcast use group_set_axioms, seq_to_set_is_finite;

    if bs.len() > 0 {
        lemma_pool_finite(bs.drop_first());
    }
}

proof fn lemma_bucket_member_in_pool(bs: Seq<Bucket>, k: Seq<Seq<char>>, m: int)
    requires
        0 <= m < bucket_get(bs, k).len(),
    ensures
        phrase_pool(bs).contains(bucket_get(bs, k)[m].toks),
    decreases bs.len(),
{
    broadcast use group_set_axioms;

    if bs.len() == 0 {
        assert(bucket_get(bs, k).len() == 0);
    } else if key_v_matches(bs, k) {
        let s = items_v(bs[0]).map_values(|r: RecV| r.toks);
        assert(s[m] == bucket_get(bs, k)[m].toks);
        assert(s.contains(s[m]));
        assert(s.to_set().contains(s[m]));
    } else {
        lemma_bucket_member_in_pool(bs.drop_first(), k, m);
    }
}

/// Whether the first bucket carries key `k` (helper for induction over
/// the association list).
pub open spec fn key_v_matches(bs: Seq<Bucket>, k: Seq<Seq<char>>) -> bool {
    bs.len() > 0 && crate::index::key_v(bs[0]) == k
}

/// The full characterization of a finished chain from `start`: it begins
/// with the start record, every later record is the unique greedy step,
/// and the chain is finished.
pub open spec fn chain_spec(idx: Index, start: RecV, used: Seq<RecV>) -> bool {
    &&& used.len() >= 1
    &&& used[0] == start
    &&& forall|j: int| 1 <= j < used.len() ==> chain_step_ok(idx, used, j)
    &&& chain_done(idx, used)
}

/// Whether the phrase of `cand` already occurs among `used`.
fn contains_phrase(used: &Vec<Record>, cand: &Record) -> (b: bool)
    ensures
        b == phrase_used(recs_v(used@), cand@.toks),
{
    let mut m: usize = 0;
    while m < used.len()
        invariant
            0 <= m <= used@.len(),
            forall|p: int| 0 <= p < m ==> (#[trigger] recs_v(used@)[p]).toks != cand@.toks,
        decreases used@.len() - m,
    {
        if crate::index::keys_equal(&used[m].tokens, &cand.tokens) {
            proof {
                assert(recs_v(used@)[m as int].toks == cand@.toks);
            }
            return true;
        }
        m = m + 1;
    }
    false
}

/// The position of the first boundary-valid candidate, if any.
fn find_first_valid(cands: &Vec<Record>) -> (r: Option<usize>)
    ensures
        r matches Some(ci) ==> ci < cands@.len() && first_valid(recs_v(cands@)) == Some(
            recs_v(cands@)[ci as int],
        ) && link_valid(recs_v(cands@)[ci as int].toks),
        r is None ==> first_valid(recs_v(cands@)) is None,
{
    let ghost cv = recs_v(cands@);
    let mut ci: usize = 0;
    while ci < cands.len()
        invariant
            0 <= ci <= cands@.len(),
            cv == recs_v(cands@),
            first_valid(cv) == first_valid_from(cv, ci as int),
        decreases cands@.len() - ci,
    {
        if cands[ci].is_link_valid() {
            proof {
                assert(link_valid(cv[ci as int].toks));
            }
            return Some(ci);
        }
        ci = ci + 1;
    }
    None
}

/// Expands a start record into a sentence by repeatedly taking the first
/// boundary-valid continuation of the sentence's trailing `(n-1)`-token
/// key, guarding against phrase reuse, until the chain finishes.
///
/// The result always exists and always contains at least the start record;
/// its total is the exact sum of the constituents' frequencies, and its
/// tokens are the start phrase followed by each continuation's final
/// token, in order.
pub fn expand_sentence(start: &Record, idx: &Index) -> (res: ChainResult)
    requires
        idx.wf(),
    ensures
        ({
            let uv = recs_v(res.used@);
            &&& chain_spec(*idx, start@, uv)
            &&& res.tokens@.map_values(|t: String| t@) == sent_toks(uv)
            &&& res.total as int == sum_freqs(uv)
            &&& forall|a: int, b: int|
                0 <= a < b < uv.len() ==> (#[trigger] uv[a]).toks != (#[trigger] uv[b]).toks
            &&& forall|j: int| 1 <= j < uv.len() ==> link_valid((#[trigger] uv[j]).toks)
        }),
{
    let n = idx.n;
    let mut tokens = crate::index::clone_range(&start.tokens, 0, start.tokens.len());
    let mut total = start.freq;
    let mut used: Vec<Record> = Vec::new();
    used.push(start.duplicate());
    proof {
        let uv = recs_v(used@);
        assert(uv =~= seq![start@]);
        assert(uv.subrange(1, uv.len() as int) =~= Seq::<RecV>::empty());
        assert(sent_toks(uv) =~= start@.toks);
        assert(uv.drop_last() =~= Seq::<RecV>::empty());
        assert(tokens@.map_values(|t: String| t@) == start@.toks.subrange(
            0,
            start@.toks.len() as int,
        ));
        assert(start@.toks.subrange(0, start@.toks.len() as int) =~= start@.toks);
        assert(sum_freqs(Seq::<RecV>::empty()) == 0);
        assert(sum_freqs(recs_v(used@)) == sum_freqs(Seq::<RecV>::empty()) + start@.freq);
    }
    loop
        invariant
            idx.wf(),
            n == idx.n,
            ({
                let uv = recs_v(used@);
                &&& uv.len() >= 1
                &&& uv[0] == start@
                &&& forall|j: int| 1 <= j < uv.len() ==> chain_step_ok(*idx, uv, j)
                &&& tokens@.map_values(|t: String| t@) == sent_toks(uv)
                &&& total as int == sum_freqs(uv)
                &&& forall|a: int, b: int|
                    0 <= a < b < uv.len() ==> (#[trigger] uv[a]).toks != (#[trigger] uv[b]).toks
                &&& forall|j: int| 1 <= j < uv.len() ==> link_valid((#[trigger] uv[j]).toks)
                &&& (uv.len() >= 2 ==> !ends_with_boundary(uv[uv.len() - 1].toks))
            }),
        decreases phrase_pool(idx.buckets@).difference(used_set(recs_v(used@))).len(),
    {
        let ghost uv = recs_v(used@);
        if tokens.len() < n - 1 {
            return ChainResult { tokens, total, used };
        }
        let lo = tokens.len() - (n - 1);
        let key = crate::index::clone_range(&tokens, lo, tokens.len());
        let ghost kv = key_of(sent_toks(uv), n as int);
        proof {
            assert(key@.map_values(|t: String| t@) == kv);
        }
        let cands_opt = idx.lookup(&key);
        match cands_opt {
            None => {
                proof {
                    assert(first_valid(idx.spec_get(kv)) is None);
                }
                return ChainResult { tokens, total, used };
            },
            Some(cands) => {
                let found = find_first_valid(cands);
                match found {
                    None => {
                        return ChainResult { tokens, total, used };
                    },
                    Some(ci) => {
                        let cand = &cands[ci];
                        proof {
                            assert(recs_v(cands@)[ci as int] == cand@);
                            idx.lemma_members(kv);
                            assert(cand@.toks.len() == n);
                        }
                        if contains_phrase(&used, cand) {
                            return ChainResult { tokens, total, used };
                        }
                        if cand.freq > usize::MAX - total {
                            return ChainResult { tokens, total, used };
                        }
                        let last_tok = cand.tokens[cand.tokens.len() - 1].clone();
                        proof {
                            assert(cand@.toks.last() == last_tok@);
                        }
                        let ghost old_toks = tokens@.map_values(|t: String| t@);
                        tokens.push(last_tok);
                        total = total + cand.freq;
                        used.push(cand.duplicate());
                        let terminal = cand.ends_boundary();
                        proof {
                            let uv2 = recs_v(used@);
                            assert(uv2 =~= uv.push(cand@));
                            assert(uv2.drop_last() =~= uv);
                            assert(uv2.subrange(0, uv.len() as int) =~= uv);
                            assert(uv2.subrange(1, uv2.len() as int) =~= uv.subrange(
                                1,
                                uv.len() as int,
                            ).push(cand@));
                            assert(uv2.subrange(1, uv2.len() as int).map_values(
                                |r: RecV| r.toks.last(),
                            ) =~= uv.subrange(1, uv.len() as int).map_values(
                                |r: RecV| r.toks.last(),
                            ).push(cand@.toks.last()));
                            assert(sent_toks(uv2) =~= sent_toks(uv).push(cand@.toks.last()));
                            assert(tokens@.map_values(|t: String| t@) =~= old_toks.push(
                                last_tok@,
                            ));
                            assert(total as int == sum_freqs(uv2));
                            assert forall|j: int| 1 <= j < uv2.len() implies chain_step_ok(
                                *idx,
                                uv2,
                                j,
                            ) by {
                                assert(uv2.subrange(0, j) =~= uv.subrange(0, j));
                                if j < uv.len() {
                                    assert(uv2.subrange(0, j + 1) =~= uv.subrange(0, j + 1));
                                    assert(chain_step_ok(*idx, uv, j));
                                } else {
                                    assert(j == uv.len());
                                    assert(uv2.subrange(0, j) =~= uv);
                                    assert(uv2.subrange(0, j + 1) =~= uv2);
                                    assert(sum_freqs(uv2) <= usize::MAX);
                                    assert(first_valid(idx.spec_get(key_of(sent_toks(uv), n as int)))
                                        == Some(cand@));
                                }
                            }
                        }
                        proof {
                            broadcast use group_set_axioms;

                            let uv2 = recs_v(used@);
                            let p = cand@.toks;
                            let pool = phrase_pool(idx.buckets@);
                            let m_old = uv.map_values(|r: RecV| r.toks);
                            let m_new = uv2.map_values(|r: RecV| r.toks);
                            lemma_pool_finite(idx.buckets@);
                            lemma_bucket_member_in_pool(idx.buckets@, kv, ci as int);
                            assert(pool.contains(p));
                            assert(m_new =~= m_old.push(p));
                            assert forall|x: Seq<Seq<char>>| m_new.to_set().contains(x) implies
                                m_old.to_set().contains(x) || x == p by {
                                let w = choose|w: int| 0 <= w < m_new.len() && m_new[w] == x;
                                if w < m_old.len() {
                                    assert(m_old.contains(x));
                                }
                            }
                            assert forall|x: Seq<Seq<char>>|
                                m_old.to_set().contains(x) || x == p implies
                                m_new.to_set().contains(x) by {
                                if m_old.to_set().contains(x) {
                                    let w = choose|w: int|
                                        0 <= w < m_old.len() && m_old[w] == x;
                                    assert(m_new[w] == x);
                                    assert(m_new.contains(x));
                                } else {
                                    assert(m_new[m_old.len() as int] == p);
                                    assert(m_new.contains(p));
                                }
                            }
                            assert(used_set(uv2) =~= used_set(uv).insert(p));
                            assert(!used_set(uv).contains(p)) by {
                                if m_old.to_set().contains(p) {
                                    let w = choose|w: int|
                                        0 <= w < m_old.len() && m_old[w] == p;
                                    assert(uv[w].toks == p);
                                    assert(phrase_used(uv, p));
                                }
                            }
                            assert(pool.difference(used_set(uv2)) =~= pool.difference(
                                used_set(uv),
                            ).remove(p));
                            assert(pool.difference(used_set(uv)).finite());
                            assert(pool.difference(used_set(uv)).contains(p));
                            assert(pool.difference(used_set(uv2)).len() < pool.difference(
                                used_set(uv),
                            ).len());
                        }
                        if terminal {
                            proof {
                                let uv2 = recs_v(used@);
                                assert(uv2[uv2.len() - 1] == cand@);
                                assert(chain_done(*idx, uv2));
                            }
                            return ChainResult { tokens, total, used };
                        }
                    },
                }
            },
        }
    }
}

} // verus!
