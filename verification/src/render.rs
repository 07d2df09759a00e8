//! Verified rendering of the two output formats: the full-chain block
//! (sentence line, numbered trace, blank line) and the bounded-combiner
//! triple line.

use vstd::prelude::*;

use crate::chain::ChainResult;
use crate::combine::{Triple, TripleV};
use crate::index::recs_v;
use crate::record::{RecV, Record};
use crate::text::{dec_rep, join_spaces, render_usize};

verus! {

/// The separator between a sentence and its total frequency.
pub open spec fn arrow_sep() -> Seq<char> {
    seq![' ', '=', '>', ' ']
}

/// The separator between the segments of a triple line.
pub open spec fn bar_sep() -> Seq<char> {
    seq![' ', '|', ' ']
}

/// The sentence line: `<sentence> => <total>` and a newline.
pub open spec fn sentence_line(toks: Seq<Seq<char>>, total: int) -> Seq<char> {
    join_spaces(toks) + arrow_sep() + dec_rep(total) + seq!['\n']
}

/// One numbered trace line: four spaces, `[<k>] <phrase> (<freq>)`, newline.
pub open spec fn trace_line(k: int, r: RecV) -> Seq<char> {
    seq![' ', ' ', ' ', ' ', '['] + dec_rep(k) + seq![']', ' '] + join_spaces(r.toks) + seq![
        ' ',
        '(',
    ] + dec_rep(r.freq as int) + seq![')', '\n']
}

/// The trace lines for the records from position `k` on, numbered from
/// `k + 1`.
pub open spec fn trace_lines(used: Seq<RecV>, k: int) -> Seq<char>
    decreases used.len() - k,
    when 0 <= k <= used.len()
{
    if k == used.len() {
        Seq::empty()
    } else {
        trace_line(k + 1, used[k]) + trace_lines(used, k + 1)
    }
}

/// The whole full-chain block: the sentence line, the numbered trace of
/// every constituent record, and a closing blank line.
pub open spec fn chain_block(toks: Seq<Seq<char>>, total: int, used: Seq<RecV>) -> Seq<char> {
    sentence_line(toks, total) + trace_lines(used, 0) + seq!['\n']
}

/// One combiner output line: the three phrases joined with ` | `, the
/// arrow separator, the total, and a newline.
pub open spec fn triple_line(t: TripleV) -> Seq<char> {
    join_spaces(t.first.toks) + bar_sep() + join_spaces(t.second.toks) + bar_sep() + join_spaces(
        t.third.toks,
    ) + arrow_sep() + dec_rep(t.total as int) + seq!['\n']
}

fn append_arrow(out: &mut String)
    ensures
        final(out)@ == old(out)@ + arrow_sep(),
{
    proof {
        reveal_strlit(" => ");
        assert(" => "@ =~= arrow_sep());
    }
    out.append(" => ");
}

/// Renders a reconstructed sentence with its numbered construction trace.
pub fn render_chain_block(res: &ChainResult) -> (out: String)
    ensures
        out@ == chain_block(
            res.tokens@.map_values(|t: String| t@),
            res.total as int,
            recs_v(res.used@),
        ),
{
    let ghost toks = res.tokens@.map_values(|t: String| t@);
    let ghost uv = recs_v(res.used@);
    let mut out = res.sentence();
    append_arrow(&mut out);
    let total_txt = render_usize(res.total);
    out.append(total_txt.as_str());
    proof {
        reveal_strlit("\n");
    }
    out.append("\n");
    proof {
        assert("\n"@ =~= seq!['\n']);
        assert(out@ =~= sentence_line(toks, res.total as int));
    }
    let ghost line = sentence_line(toks, res.total as int);
    let mut k: usize = 0;
    while k < res.used.len()
        invariant
            0 <= k <= res.used@.len(),
            uv == recs_v(res.used@),
            line == sentence_line(
                res.tokens@.map_values(|t: String| t@),
                res.total as int,
            ),
            out@ + trace_lines(uv, k as int) == line + trace_lines(uv, 0),
        decreases res.used@.len() - k,
    {
        let rec = &res.used[k];
        proof {
            assert(uv[k as int] == rec@);
            reveal_strlit("    [");
            reveal_strlit("] ");
            reveal_strlit(" (");
            reveal_strlit(")\n");
        }
        let ghost before = out@;
        out.append("    [");
        let num = render_usize(k + 1);
        out.append(num.as_str());
        out.append("] ");
        let phrase = rec.phrase();
        out.append(phrase.as_str());
        out.append(" (");
        let freq_txt = render_usize(rec.freq);
        out.append(freq_txt.as_str());
        out.append(")\n");
        proof {
            assert("    ["@ =~= seq![' ', ' ', ' ', ' ', '[']);
            assert("] "@ =~= seq![']', ' ']);
            assert(" ("@ =~= seq![' ', '(']);
            assert(")\n"@ =~= seq![')', '\n']);
            assert(out@ =~= before + trace_line(k as int + 1, uv[k as int]));
            assert(trace_lines(uv, k as int) == trace_line(k as int + 1, uv[k as int])
                + trace_lines(uv, k as int + 1));
            assert(out@ + trace_lines(uv, k as int + 1) =~= before + trace_lines(uv, k as int));
        }
        k = k + 1;
    }
    proof {
        assert(trace_lines(uv, res.used@.len() as int) =~= Seq::<char>::empty());
        assert(out@ =~= line + trace_lines(uv, 0));
        reveal_strlit("\n");
    }
    out.append("\n");
    proof {
        assert("\n"@ =~= seq!['\n']);
        assert(out@ =~= chain_block(toks, res.total as int, uv));
    }
    out
}

fn append_bar(out: &mut String)
    ensures
        final(out)@ == old(out)@ + bar_sep(),
{
    proof {
        reveal_strlit(" | ");
        assert(" | "@ =~= bar_sep());
    }
    out.append(" | ");
}

fn append_phrase(out: &mut String, r: &Record)
    ensures
        final(out)@ == old(out)@ + join_spaces(r@.toks),
{
    let phrase = r.phrase();
    out.append(phrase.as_str());
}

/// Renders one accepted triple as a single output line.
pub fn render_triple_line(t: &Triple) -> (out: String)
    ensures
        out@ == triple_line(t@),
{
    let mut out = String::new();
    append_phrase(&mut out, &t.first);
    append_bar(&mut out);
    append_phrase(&mut out, &t.second);
    append_bar(&mut out);
    append_phrase(&mut out, &t.third);
    append_arrow(&mut out);
    let total_txt = render_usize(t.total);
    out.append(total_txt.as_str());
    proof {
        reveal_strlit("\n");
    }
    out.append("\n");
    proof {
        assert("\n"@ =~= seq!['\n']);
        assert(out@ =~= triple_line(t@));
    }
    out
}

} // verus!
