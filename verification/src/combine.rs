//! The bounded combiner: exhaustive enumeration of three-segment chains
//! (start, middle, end) whose `(n-1)`-token overlaps line up.

use vstd::prelude::*;

use crate::index::{recs_v, Index};
use crate::record::{ends_with_boundary, starts_with_boundary, RecV, Record};

verus! {

/// Abstract value of a [`Triple`].
pub ghost struct TripleV {
    pub first: RecV,
    pub second: RecV,
    pub third: RecV,
    pub total: nat,
}

/// One accepted three-segment chain and its summed frequency.
pub struct Triple {
    pub first: Record,
    pub second: Record,
    pub third: Record,
    pub total: usize,
}

impl View for Triple {
    type V = TripleV;

    open spec fn view(&self) -> TripleV {
        TripleV {
            first: self.first@,
            second: self.second@,
            third: self.third@,
            total: self.total as nat,
        }
    }
}

/// The abstract values of a triple list.
pub open spec fn triples_v(ts: Seq<Triple>) -> Seq<TripleV> {
    ts.map_values(|t: Triple| t@)
}

/// The suffix key of a record: all tokens but the first.
pub open spec fn suffix_key(r: RecV) -> Seq<Seq<char>> {
    r.toks.subrange(1, r.toks.len() as int)
}

/// Whether a `(p1, p2, p3)` combination is accepted: the end segment must
/// close with the boundary token, and the three frequencies must fit the
/// counter when summed.
pub open spec fn triple_ok(p1: RecV, p2: RecV, p3: RecV) -> bool {
    ends_with_boundary(p3.toks) && p1.freq + p2.freq + p3.freq <= usize::MAX
}

/// The accepted triples for fixed `p1` and `p2` over the end candidates
/// `c3`, in candidate order.
pub open spec fn triples_p3(p1: RecV, p2: RecV, c3: Seq<RecV>) -> Seq<TripleV>
    decreases c3.len(),
{
    if c3.len() == 0 {
        Seq::empty()
    } else {
        let head = if triple_ok(p1, p2, c3[0]) {
            seq![
                TripleV {
                    first: p1,
                    second: p2,
                    third: c3[0],
                    total: (p1.freq + p2.freq + c3[0].freq) as nat,
                },
            ]
        } else {
            Seq::<TripleV>::empty()
        };
        head + triples_p3(p1, p2, c3.drop_first())
    }
}

/// The accepted triples for fixed `p1` over the middle candidates `c2`:
/// a middle segment must not be terminal; each contributes the triples of
/// its own suffix-key bucket, in order.
pub open spec fn triples_p2(idx: Index, p1: RecV, c2: Seq<RecV>) -> Seq<TripleV>
    decreases c2.len(),
{
    if c2.len() == 0 {
        Seq::empty()
    } else {
        let head = if !ends_with_boundary(c2[0].toks) {
            triples_p3(p1, c2[0], idx.spec_get(suffix_key(c2[0])))
        } else {
            Seq::<TripleV>::empty()
        };
        head + triples_p2(idx, p1, c2.drop_first())
    }
}

/// All triples the bounded combiner emits for start record `p1`: none
/// unless `p1` begins with the boundary token and has exactly `n` tokens;
/// otherwise every lined-up `(p1, p2, p3)` with a non-terminal middle and
/// a terminal end, in bucket order.
pub open spec fn combine_spec(idx: Index, p1: RecV) -> Seq<TripleV> {
    if starts_with_boundary(p1.toks) && p1.toks.len() == idx.n {
        triples_p2(idx, p1, idx.spec_get(suffix_key(p1)))
    } else {
        Seq::empty()
    }
}

proof fn lemma_triples_p3_prefix(p1: RecV, p2: RecV, c3: Seq<RecV>, i: int)
    requires
        0 <= i < c3.len(),
    ensures
        triples_p3(p1, p2, c3.subrange(0, i + 1)) == triples_p3(p1, p2, c3.subrange(0, i)) + (
        if triple_ok(p1, p2, c3[i]) {
            seq![
                TripleV {
                    first: p1,
                    second: p2,
                    third: c3[i],
                    total: (p1.freq + p2.freq + c3[i].freq) as nat,
                },
            ]
        } else {
            Seq::<TripleV>::empty()
        }),
    decreases i,
{
    let a = c3.subrange(0, i + 1);
    let b = c3.subrange(0, i);
    if i == 0 {
        assert(a.drop_first() =~= Seq::<RecV>::empty());
        assert(b =~= Seq::<RecV>::empty());
        assert(triples_p3(p1, p2, a) =~= triples_p3(p1, p2, b) + (if triple_ok(p1, p2, c3[0]) {
            seq![
                TripleV {
                    first: p1,
                    second: p2,
                    third: c3[0],
                    total: (p1.freq + p2.freq + c3[0].freq) as nat,
                },
            ]
        } else {
            Seq::<TripleV>::empty()
        }));
    } else {
        lemma_triples_p3_prefix(p1, p2, c3.drop_first(), i - 1);
        assert(a.drop_first() =~= c3.drop_first().subrange(0, i));
        assert(b.drop_first() =~= c3.drop_first().subrange(0, i - 1));
        assert(c3.drop_first()[i - 1] == c3[i]);
        assert(a[0] == c3[0] && b[0] == c3[0]);
        assert(triples_p3(p1, p2, a) =~= triples_p3(p1, p2, b) + (if triple_ok(p1, p2, c3[i]) {
            seq![
                TripleV {
                    first: p1,
                    second: p2,
                    third: c3[i],
                    total: (p1.freq + p2.freq + c3[i].freq) as nat,
                },
            ]
        } else {
            Seq::<TripleV>::empty()
        }));
    }
}

proof fn lemma_triples_p2_prefix(idx: Index, p1: RecV, c2: Seq<RecV>, i: int)
    requires
        0 <= i < c2.len(),
    ensures
        triples_p2(idx, p1, c2.subrange(0, i + 1)) == triples_p2(idx, p1, c2.subrange(0, i)) + (
        if !ends_with_boundary(c2[i].toks) {
            triples_p3(p1, c2[i], idx.spec_get(suffix_key(c2[i])))
        } else {
            Seq::<TripleV>::empty()
        }),
    decreases i,
{
    let a = c2.subrange(0, i + 1);
    let b = c2.subrange(0, i);
    if i == 0 {
        assert(a.drop_first() =~= Seq::<RecV>::empty());
        assert(b =~= Seq::<RecV>::empty());
        assert(triples_p2(idx, p1, a) =~= triples_p2(idx, p1, b) + (if !ends_with_boundary(
            c2[0].toks,
        ) {
            triples_p3(p1, c2[0], idx.spec_get(suffix_key(c2[0])))
        } else {
            Seq::<TripleV>::empty()
        }));
    } else {
        lemma_triples_p2_prefix(idx, p1, c2.drop_first(), i - 1);
        assert(a.drop_first() =~= c2.drop_first().subrange(0, i));
        assert(b.drop_first() =~= c2.drop_first().subrange(0, i - 1));
        assert(c2.drop_first()[i - 1] == c2[i]);
        assert(a[0] == c2[0] && b[0] == c2[0]);
        assert(triples_p2(idx, p1, a) =~= triples_p2(idx, p1, b) + (if !ends_with_boundary(
            c2[i].toks,
        ) {
            triples_p3(p1, c2[i], idx.spec_get(suffix_key(c2[i])))
        } else {
            Seq::<TripleV>::empty()
        }));
    }
}

/// Enumerates every accepted three-segment chain starting at `p1`: the
/// start must begin with the boundary token and have exactly `n` tokens;
/// middles come from the start's suffix-key bucket and must not be
/// terminal; ends come from the middle's suffix-key bucket and must be
/// terminal. Each emitted triple carries the exact sum of the three
/// frequencies.
pub fn combine_bounded(p1: &Record, idx: &Index) -> (res: Vec<Triple>)
    requires
        idx.wf(),
    ensures
        triples_v(res@) == combine_spec(*idx, p1@),
{
    let mut res: Vec<Triple> = Vec::new();
    let n = idx.n;
    if p1.tokens.len() != n {
        proof {
            assert(triples_v(res@) =~= combine_spec(*idx, p1@));
        }
        return res;
    }
    let starts = {
        if p1.tokens.len() == 0 {
            false
        } else {
            let first = &p1.tokens[0];
            if first.unicode_len() == 0 {
                false
            } else {
                first.get_char(0) == '_'
            }
        }
    };
    proof {
        assert(p1.tokens@.len() > 0 ==> p1@.toks[0] == p1.tokens@[0]@);
    }
    if !starts {
        proof {
            assert(!starts_with_boundary(p1@.toks));
            assert(triples_v(res@) =~= combine_spec(*idx, p1@));
        }
        return res;
    }
    let key1 = crate::index::clone_range(&p1.tokens, 1, p1.tokens.len());
    proof {
        assert(key1@.map_values(|t: String| t@) == suffix_key(p1@));
    }
    let c2_opt = idx.lookup(&key1);
    let c2 = match c2_opt {
        None => {
            proof {
                assert(triples_p2(*idx, p1@, idx.spec_get(suffix_key(p1@)))
                    == Seq::<TripleV>::empty());
                assert(triples_v(res@) =~= combine_spec(*idx, p1@));
            }
            return res;
        },
        Some(c2) => c2,
    };
    let ghost c2v = recs_v(c2@);
    let mut i: usize = 0;
    while i < c2.len()
        invariant
            idx.wf(),
            n == idx.n,
            c2v == recs_v(c2@),
            c2v == idx.spec_get(suffix_key(p1@)),
            starts_with_boundary(p1@.toks) && p1@.toks.len() == idx.n,
            0 <= i <= c2v.len(),
            triples_v(res@) == triples_p2(*idx, p1@, c2v.subrange(0, i as int)),
        decreases c2v.len() - i,
    {
        let p2 = &c2[i];
        proof {
            assert(c2v[i as int] == p2@);
            idx.lemma_members(suffix_key(p1@));
            assert(p2@.toks.len() == n);
        }
        let ghost old_res = triples_v(res@);
        if !p2.ends_boundary() {
            let key2 = crate::index::clone_range(&p2.tokens, 1, p2.tokens.len());
            proof {
                assert(key2@.map_values(|t: String| t@) == suffix_key(p2@));
            }
            let c3_opt = idx.lookup(&key2);
            match c3_opt {
                None => {
                    proof {
                        assert(triples_p3(p1@, p2@, idx.spec_get(suffix_key(p2@)))
                            == Seq::<TripleV>::empty());
                    }
                },
                Some(c3) => {
                    let ghost c3v = recs_v(c3@);
                    let mut j: usize = 0;
                    while j < c3.len()
                        invariant
                            c3v == recs_v(c3@),
                            0 <= j <= c3v.len(),
                            triples_v(res@) == old_res + triples_p3(
                                p1@,
                                p2@,
                                c3v.subrange(0, j as int),
                            ),
                            p1.freq as nat == p1@.freq,
                            p2@ == recs_v(c2@)[i as int],
                            0 <= i < c2@.len(),
                            p2@.freq == c2@[i as int]@.freq,
                        decreases c3v.len() - j,
                    {
                        let p3 = &c3[j];
                        proof {
                            assert(c3v[j as int] == p3@);
                            lemma_triples_p3_prefix(p1@, p2@, c3v, j as int);
                        }
                        if p3.ends_boundary() {
                            let ghost pre = triples_v(res@);
                            if !(p2.freq > usize::MAX - p1.freq) {
                                let s12 = p1.freq + p2.freq;
                                if !(p3.freq > usize::MAX - s12) {
                                    let t = Triple {
                                        first: p1.duplicate(),
                                        second: p2.duplicate(),
                                        third: p3.duplicate(),
                                        total: s12 + p3.freq,
                                    };
                                    proof {
                                        assert(triple_ok(p1@, p2@, p3@));
                                    }
                                    res.push(t);
                                    proof {
                                        assert(triples_v(res@) =~= pre.push(
                                            TripleV {
                                                first: p1@,
                                                second: p2@,
                                                third: p3@,
                                                total: (p1@.freq + p2@.freq
                                                    + p3@.freq) as nat,
                                            },
                                        ));
                                        assert(triples_v(res@) =~= old_res + triples_p3(
                                            p1@,
                                            p2@,
                                            c3v.subrange(0, j as int + 1),
                                        ));
                                    }
                                } else {
                                    proof {
                                        assert(!triple_ok(p1@, p2@, p3@));
                                        assert(triples_v(res@) =~= old_res + triples_p3(
                                            p1@,
                                            p2@,
                                            c3v.subrange(0, j as int + 1),
                                        ));
                                    }
                                }
                            } else {
                                proof {
                                    assert(!triple_ok(p1@, p2@, p3@));
                                    assert(triples_v(res@) =~= old_res + triples_p3(
                                        p1@,
                                        p2@,
                                        c3v.subrange(0, j as int + 1),
                                    ));
                                }
                            }
                        } else {
                            proof {
                                assert(!triple_ok(p1@, p2@, p3@));
                                assert(triples_v(res@) =~= old_res + triples_p3(
                                    p1@,
                                    p2@,
                                    c3v.subrange(0, j as int + 1),
                                ));
                            }
                        }
                        j = j + 1;
                    }
                    proof {
                        assert(c3v.subrange(0, c3v.len() as int) =~= c3v);
                    }
                },
            }
        }
        proof {
            lemma_triples_p2_prefix(*idx, p1@, c2v, i as int);
            assert(triples_v(res@) == triples_p2(*idx, p1@, c2v.subrange(0, i as int + 1)));
        }
        i = i + 1;
    }
    proof {
        assert(c2v.subrange(0, c2v.len() as int) =~= c2v);
    }
    res
}

} // verus!
