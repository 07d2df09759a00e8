//! Driver-side helpers: selecting start candidates and rendering a
//! reconstructed sentence's text.

use vstd::prelude::*;

use crate::chain::{sent_toks, ChainResult};
use crate::index::recs_v;
use crate::record::{is_start_cand, RecV, Record};
use crate::text::{join_spaces, join_tokens};

verus! {

/// The records eligible to begin a sentence, in input order: phrase
/// starts with the boundary token and contains no other occurrence of it.
pub fn start_candidates(records: &Vec<Record>) -> (r: Vec<Record>)
    ensures
        recs_v(r@) == recs_v(records@).filter(|rv: RecV| is_start_cand(rv.toks)),
{
    let ghost all = recs_v(records@);
    let ghost pred = |rv: RecV| is_start_cand(rv.toks);
    let mut r: Vec<Record> = Vec::new();
    let mut i: usize = 0;
    while i < records.len()
        invariant
            0 <= i <= records@.len(),
            all == recs_v(records@),
            pred == (|rv: RecV| is_start_cand(rv.toks)),
            recs_v(r@) == all.subrange(0, i as int).filter(pred),
        decreases records@.len() - i,
    {
        let rec = &records[i];
        let ghost rv = rec@;
        let ghost prev = all.subrange(0, i as int);
        let ghost cur = all.subrange(0, i as int + 1);
        proof {
            assert(cur =~= prev + seq![rv]);
            reveal(Seq::filter);
            Seq::<RecV>::filter_distributes_over_add(prev, seq![rv], pred);
            assert(seq![rv].drop_last() =~= Seq::<RecV>::empty());
            assert(Seq::<RecV>::empty().filter(pred) == Seq::<RecV>::empty());
            assert(seq![rv].filter(pred) =~= (if pred(rv) {
                seq![rv]
            } else {
                Seq::<RecV>::empty()
            }));
        }
        if rec.is_start_candidate() {
            let ghost pre = recs_v(r@);
            r.push(rec.duplicate());
            proof {
                assert(recs_v(r@) =~= pre.push(rv));
                assert(recs_v(r@) =~= cur.filter(pred));
            }
        }
        i = i + 1;
    }
    proof {
        assert(all.subrange(0, records@.len() as int) =~= all);
    }
    r
}

impl ChainResult {
    /// The sentence's text: its tokens joined with single spaces.
    pub fn sentence(&self) -> (r: String)
        ensures
            r@ == join_spaces(self.tokens@.map_values(|t: String| t@)),
    {
        join_tokens(&self.tokens)
    }
}

/// Appending one more token to a sentence appends exactly one space and
/// that token to its text.
pub proof fn lemma_join_push(ts: Seq<Seq<char>>, t: Seq<char>)
    requires
        ts.len() > 0,
    ensures
        join_spaces(ts.push(t)) == join_spaces(ts) + seq![' '] + t,
{
    let e = ts.push(t);
    assert(e.drop_last() =~= ts);
    assert(e.last() == t);
}

/// The sentence text of a chain is the start record's phrase with each
/// continuation's final token appended, space-separated, in order.
pub proof fn lemma_chain_text(uv: Seq<RecV>, j: int)
    requires
        uv.len() >= 1,
        uv[0].toks.len() > 0,
        1 <= j <= uv.len(),
    ensures
        join_spaces(sent_toks(uv.subrange(0, j))) == if j == 1 {
            join_spaces(uv[0].toks)
        } else {
            join_spaces(sent_toks(uv.subrange(0, j - 1))) + seq![' '] + uv[j - 1].toks.last()
        },
    decreases j,
{
    if j == 1 {
        let pre = uv.subrange(0, 1);
        assert(pre[0] == uv[0]);
        assert(pre.subrange(1, 1).map_values(|r: RecV| r.toks.last()) =~= Seq::<Seq<char>>::empty());
        assert(sent_toks(pre) =~= uv[0].toks);
    } else {
        let pre = uv.subrange(0, j);
        let shorter = uv.subrange(0, j - 1);
        assert(pre[0] == uv[0] && shorter[0] == uv[0]);
        assert(pre.subrange(1, j).map_values(|r: RecV| r.toks.last()) =~= shorter.subrange(
            1,
            j - 1,
        ).map_values(|r: RecV| r.toks.last()).push(uv[j - 1].toks.last()));
        assert(sent_toks(pre) =~= sent_toks(shorter).push(uv[j - 1].toks.last()));
        assert(sent_toks(shorter).len() > 0);
        lemma_join_push(sent_toks(shorter), uv[j - 1].toks.last());
    }
}

} // verus!
