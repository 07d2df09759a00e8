//! Records: frequency-annotated phrases, their boundary-token predicates,
//! and the line parser.

use vstd::prelude::*;

use crate::text::{
    all_digits, digits_val, join_spaces, join_tokens, parse_usize, split_ws, tokenize, wf_tokens,
    lemma_split_ws_wf,
};

verus! {

/// Abstract value of a [`Record`]: its phrase as a sequence of tokens, and
/// its observed frequency.
pub ghost struct RecV {
    pub toks: Seq<Seq<char>>,
    pub freq: nat,
}

/// A phrase with an observed frequency. The phrase is kept as its
/// whitespace-split tokens; the rendered form joins them with single spaces.
pub struct Record {
    pub tokens: Vec<String>,
    pub freq: usize,
}

impl View for Record {
    type V = RecV;

    open spec fn view(&self) -> RecV {
        RecV { toks: self.tokens@.map_values(|t: String| t@), freq: self.freq as nat }
    }
}

/// A well-formed record value: at least one token, each non-empty and
/// whitespace-free.
pub open spec fn rec_wf(r: RecV) -> bool {
    r.toks.len() > 0 && wf_tokens(r.toks)
}

/// The token contains no boundary character.
pub open spec fn tok_no_boundary(t: Seq<char>) -> bool {
    forall|j: int| 0 <= j < t.len() ==> t[j] != '_'
}

/// No token of the phrase contains a boundary character.
pub open spec fn toks_no_boundary(ts: Seq<Seq<char>>) -> bool {
    forall|i: int| 0 <= i < ts.len() ==> tok_no_boundary(#[trigger] ts[i])
}

/// The phrase starts with the boundary character.
pub open spec fn starts_with_boundary(ts: Seq<Seq<char>>) -> bool {
    ts.len() > 0 && ts[0].len() > 0 && ts[0][0] == '_'
}

/// The phrase ends with the boundary character.
pub open spec fn ends_with_boundary(ts: Seq<Seq<char>>) -> bool {
    ts.len() > 0 && ts.last().len() > 0 && ts.last().last() == '_'
}

/// A start candidate: the phrase begins with the boundary character and
/// contains no other occurrence of it.
pub open spec fn is_start_cand(ts: Seq<Seq<char>>) -> bool {
    &&& starts_with_boundary(ts)
    &&& forall|j: int| 1 <= j < ts[0].len() ==> ts[0][j] != '_'
    &&& forall|i: int| 1 <= i < ts.len() ==> tok_no_boundary(#[trigger] ts[i])
}

/// A boundary-valid link: the phrase either contains no boundary character
/// at all, or contains it exactly once, as its very last character.
pub open spec fn link_valid(ts: Seq<Seq<char>>) -> bool {
    ||| toks_no_boundary(ts)
    ||| {
        &&& ends_with_boundary(ts)
        &&& forall|i: int| 0 <= i < ts.len() - 1 ==> tok_no_boundary(#[trigger] ts[i])
        &&& forall|j: int| 0 <= j < ts.last().len() - 1 ==> ts.last()[j] != '_'
    }
}

/// Whether any character of `t@` in `[lo, hi)` is the boundary character.
fn has_boundary_range(t: &str, lo: usize, hi: usize) -> (b: bool)
    requires
        lo <= hi <= t@.len(),
    ensures
        b == exists|j: int| lo <= j < hi && t@[j] == '_',
{
    let mut k: usize = lo;
    while k < hi
        invariant
            lo <= k <= hi <= t@.len(),
            forall|j: int| lo <= j < k ==> t@[j] != '_',
        decreases hi - k,
    {
        if t.get_char(k) == '_' {
            return true;
        }
        k = k + 1;
    }
    false
}

impl Record {
    /// A deep copy with the same abstract value.
    pub fn duplicate(&self) -> (r: Record)
        ensures
            r@ == self@,
    {
        let mut tokens: Vec<String> = Vec::new();
        let mut i: usize = 0;
        while i < self.tokens.len()
            invariant
                0 <= i <= self.tokens@.len(),
                tokens@.map_values(|t: String| t@) == self.tokens@.map_values(
                    |t: String| t@,
                ).subrange(0, i as int),
            decreases self.tokens@.len() - i,
        {
            let ghost pre = tokens@.map_values(|t: String| t@);
            tokens.push(self.tokens[i].clone());
            proof {
                let all = self.tokens@.map_values(|t: String| t@);
                assert(tokens@.map_values(|t: String| t@) =~= pre.push(all[i as int]));
                assert(tokens@.map_values(|t: String| t@) =~= all.subrange(0, i as int + 1));
            }
            i = i + 1;
        }
        proof {
            let all = self.tokens@.map_values(|t: String| t@);
            assert(all.subrange(0, self.tokens@.len() as int) =~= all);
        }
        Record { tokens, freq: self.freq }
    }

    /// The phrase as a single space-joined string.
    pub fn phrase(&self) -> (r: String)
        ensures
            r@ == join_spaces(self@.toks),
    {
        join_tokens(&self.tokens)
    }

    /// Whether this record may begin a sentence: its phrase starts with the
    /// boundary character and contains no other occurrence of it.
    pub fn is_start_candidate(&self) -> (b: bool)
        ensures
            b == is_start_cand(self@.toks),
    {
        if self.tokens.len() == 0 {
            return false;
        }
        let first = &self.tokens[0];
        proof {
            assert(self@.toks[0] == first@);
        }
        let flen = first.unicode_len();
        if flen == 0 || first.get_char(0) != '_' {
            return false;
        }
        if has_boundary_range(first.as_str(), 1, flen) {
            proof {
                let j = choose|j: int| 1 <= j < first@.len() && first@[j] == '_';
                assert(self@.toks[0][j] == '_');
            }
            return false;
        }
        let mut i: usize = 1;
        while i < self.tokens.len()
            invariant
                1 <= i <= self.tokens@.len(),
                starts_with_boundary(self@.toks),
                forall|j: int| 1 <= j < self@.toks[0].len() ==> self@.toks[0][j] != '_',
                forall|m: int| 1 <= m < i ==> tok_no_boundary(#[trigger] self@.toks[m]),
            decreases self.tokens@.len() - i,
        {
            let t = &self.tokens[i];
            proof {
                assert(self@.toks[i as int] == t@);
            }
            let tlen = t.unicode_len();
            if has_boundary_range(t.as_str(), 0, tlen) {
                proof {
                    assert(!tok_no_boundary(self@.toks[i as int]));
                }
                return false;
            }
            i = i + 1;
        }
        true
    }

    /// Whether the phrase ends with the boundary character.
    pub fn ends_boundary(&self) -> (b: bool)
        ensures
            b == ends_with_boundary(self@.toks),
    {
        if self.tokens.len() == 0 {
            return false;
        }
        let last = &self.tokens[self.tokens.len() - 1];
        let llen = last.unicode_len();
        if llen == 0 {
            return false;
        }
        last.get_char(llen - 1) == '_'
    }

    /// Whether the phrase is a boundary-valid link (see [`link_valid`]).
    pub fn is_link_valid(&self) -> (b: bool)
        ensures
            b == link_valid(self@.toks),
    {
        let len = self.tokens.len();
        let mut i: usize = 0;
        while i < len
            invariant
                0 <= i <= len == self.tokens@.len(),
                forall|m: int| 0 <= m < i ==> tok_no_boundary(#[trigger] self@.toks[m]),
            decreases len - i,
        {
            let t = &self.tokens[i];
            proof {
                assert(self@.toks[i as int] == t@);
            }
            let tlen = t.unicode_len();
            if i + 1 == len {
                // Last token: a boundary character is allowed only as its
                // final character, and then only if nothing precedes it
                // elsewhere (already ensured by earlier iterations).
                if tlen == 0 {
                    proof {
                        assert(tok_no_boundary(self@.toks[i as int]));
                        assert(toks_no_boundary(self@.toks));
                    }
                    return true;
                }
                let before = has_boundary_range(t.as_str(), 0, tlen - 1);
                if before {
                    proof {
                        assert(self@.toks.last() == self@.toks[len - 1]);
                        assert(!toks_no_boundary(self@.toks));
                        assert(!link_valid(self@.toks));
                    }
                    return false;
                }
                proof {
                    assert(self@.toks.last() == self@.toks[len - 1]);
                }
                if t.get_char(tlen - 1) == '_' {
                    proof {
                        assert(ends_with_boundary(self@.toks));
                    }
                    return true;
                }
                proof {
                    assert(tok_no_boundary(self@.toks[len - 1]));
                    assert(toks_no_boundary(self@.toks));
                }
                return true;
            }
            if has_boundary_range(t.as_str(), 0, tlen) {
                proof {
                    assert(!tok_no_boundary(self@.toks[i as int]));
                    assert(!toks_no_boundary(self@.toks));
                    assert(!link_valid(self@.toks));
                }
                return false;
            }
            i = i + 1;
        }
        proof {
            assert(toks_no_boundary(self@.toks));
        }
        true
    }
}

/// Parses one corpus line for n-gram size `n`.
///
/// The line is split on whitespace; it yields a record exactly when it has
/// at least `n + 1` fields and its last field is a run of decimal digits
/// whose value fits in `usize`. The record's phrase is all fields but the
/// last, and its frequency is the parsed value of the last field.
pub fn parse_line(line: &str, n: usize) -> (r: Option<Record>)
    requires
        n >= 1,
    ensures
        r is Some <==> {
            let fields = split_ws(line@);
            &&& fields.len() >= n + 1
            &&& all_digits(fields.last())
            &&& digits_val(fields.last()) <= usize::MAX
        },
        r matches Some(rec) ==> {
            let fields = split_ws(line@);
            &&& rec@.toks == fields.drop_last()
            &&& rec@.freq == digits_val(fields.last())
            &&& rec_wf(rec@)
        },
{
    let mut toks = tokenize(line);
    if toks.len() <= n {
        return None;
    }
    proof {
        lemma_split_ws_wf(line@, 0);
    }
    let ghost fields = split_ws(line@);
    let freq_tok = &toks[toks.len() - 1];
    proof {
        assert(freq_tok@ == fields.last());
        assert(fields.last().len() > 0);
    }
    let parsed = parse_usize(freq_tok.as_str());
    match parsed {
        None => None,
        Some(freq) => {
            toks.pop();
            proof {
                assert(toks@.map_values(|t: String| t@) =~= fields.drop_last());
                assert(forall|k: int| 0 <= k < fields.drop_last().len()
                    ==> #[trigger] fields.drop_last()[k] == fields[k]);
                assert(wf_tokens(fields.drop_last()));
            }
            Some(Record { tokens: toks, freq })
        },
    }
}

} // verus!
