//! Character-level text utilities: whitespace splitting, decimal parsing
//! and rendering, and joining tokens back into a phrase.

use vstd::prelude::*;

verus! {

/// A character that separates tokens: the ASCII whitespace characters.
pub open spec fn is_ws(c: char) -> bool {
    c == ' ' || c == '\t' || c == '\n' || c == '\r' || c == '\u{b}' || c == '\u{c}'
}

/// Executable test for [`is_ws`].
pub fn is_ws_char(c: char) -> (b: bool)
    ensures
        b == is_ws(c),
{
    c == ' ' || c == '\t' || c == '\n' || c == '\r' || c == '\u{b}' || c == '\u{c}'
}

/// A well-formed token: non-empty and free of whitespace.
pub open spec fn wf_token(t: Seq<char>) -> bool {
    t.len() > 0 && forall|i: int| 0 <= i < t.len() ==> !is_ws(t[i])
}

/// All tokens of a sequence are well formed.
pub open spec fn wf_tokens(ts: Seq<Seq<char>>) -> bool {
    forall|i: int| 0 <= i < ts.len() ==> wf_token(#[trigger] ts[i])
}

/// The position just past the maximal run of non-whitespace characters
/// starting at `i`.
pub open spec fn token_end(s: Seq<char>, i: int) -> int
    decreases s.len() - i,
    when 0 <= i <= s.len()
{
    if i == s.len() || is_ws(s[i]) {
        i
    } else {
        token_end(s, i + 1)
    }
}

/// `token_end` stays within bounds, moves forward past non-whitespace, and
/// stops exactly at the first whitespace character (or the end).
pub proof fn lemma_token_end(s: Seq<char>, i: int)
    requires
        0 <= i <= s.len(),
    ensures
        i <= token_end(s, i) <= s.len(),
        forall|k: int| i <= k < token_end(s, i) ==> !is_ws(s[k]),
        token_end(s, i) == s.len() || is_ws(s[token_end(s, i)]),
        i < s.len() && !is_ws(s[i]) ==> token_end(s, i) > i,
    decreases s.len() - i,
{
    if i == s.len() || is_ws(s[i]) {
    } else {
        lemma_token_end(s, i + 1);
    }
}

/// The whitespace split of `s` starting at position `i`: the sequence of
/// maximal non-whitespace runs, in order.
pub open spec fn split_ws_from(s: Seq<char>, i: int) -> Seq<Seq<char>>
    decreases s.len() - i,
    when 0 <= i <= s.len()
    via split_ws_from_decreases
{
    if i == s.len() {
        Seq::empty()
    } else if is_ws(s[i]) {
        split_ws_from(s, i + 1)
    } else {
        seq![s.subrange(i, token_end(s, i))] + split_ws_from(s, token_end(s, i))
    }
}

#[via_fn]
proof fn split_ws_from_decreases(s: Seq<char>, i: int) {
    if 0 <= i <= s.len() && i < s.len() && !is_ws(s[i]) {
        lemma_token_end(s, i);
    }
}

/// The whitespace split of a whole string.
pub open spec fn split_ws(s: Seq<char>) -> Seq<Seq<char>> {
    split_ws_from(s, 0)
}

/// Every token produced by splitting is non-empty and whitespace-free.
pub proof fn lemma_split_ws_wf(s: Seq<char>, i: int)
    requires
        0 <= i <= s.len(),
    ensures
        wf_tokens(split_ws_from(s, i)),
    decreases s.len() - i,
{
    if i == s.len() {
    } else if is_ws(s[i]) {
        lemma_split_ws_wf(s, i + 1);
    } else {
        lemma_token_end(s, i);
        let j = token_end(s, i);
        lemma_split_ws_wf(s, j);
        let t = s.subrange(i, j);
        assert(wf_token(t));
        let rest = split_ws_from(s, j);
        let whole = split_ws_from(s, i);
        assert(whole == seq![t] + rest);
        assert forall|k: int| 0 <= k < whole.len() implies wf_token(#[trigger] whole[k]) by {
            if k == 0 {
                assert(whole[k] == t);
            } else {
                assert(whole[k] == rest[k - 1]);
            }
        }
    }
}

/// Splits a string into its whitespace-separated tokens.
pub fn tokenize(s: &str) -> (r: Vec<String>)
    ensures
        r@.map_values(|t: String| t@) == split_ws(s@),
        wf_tokens(r@.map_values(|t: String| t@)),
{
    let len: usize = s.unicode_len();
    let mut r: Vec<String> = Vec::new();
    let mut i: usize = 0;
    proof {
        lemma_split_ws_wf(s@, 0);
    }
    while i < len
        invariant
            0 <= i <= len,
            len == s@.len(),
            r@.map_values(|t: String| t@) + split_ws_from(s@, i as int) == split_ws(s@),
        decreases len - i,
    {
        let c = s.get_char(i);
        if is_ws_char(c) {
            i = i + 1;
        } else {
            let ghost start = i as int;
            let mut k: usize = i;
            loop
                invariant
                    start <= k <= len,
                    len == s@.len(),
                    token_end(s@, start) == token_end(s@, k as int),
                ensures
                    k <= len,
                    token_end(s@, start) == k as int,
                decreases len - k,
            {
                if k == len {
                    break;
                }
                let ck = s.get_char(k);
                if is_ws_char(ck) {
                    break;
                }
                k = k + 1;
            }
            proof {
                lemma_token_end(s@, start);
            }
            let tok = s.substring_char(i, k).to_owned();
            let ghost old_map = r@.map_values(|t: String| t@);
            r.push(tok);
            proof {
                assert(r@.map_values(|t: String| t@) =~= old_map.push(s@.subrange(
                    start,
                    k as int,
                )));
                assert(split_ws_from(s@, start) == seq![s@.subrange(start, k as int)]
                    + split_ws_from(s@, k as int));
                assert(r@.map_values(|t: String| t@) + split_ws_from(s@, k as int)
                    =~= old_map + split_ws_from(s@, start));
            }
            i = k;
        }
    }
    proof {
        assert(split_ws_from(s@, len as int) =~= Seq::<Seq<char>>::empty());
        assert(r@.map_values(|t: String| t@) =~= split_ws(s@));
    }
    r
}

/// A decimal digit character.
pub open spec fn is_digit(c: char) -> bool {
    48 <= c as u32 <= 57
}

/// The numeric value of a digit character.
pub open spec fn digit_of(c: char) -> int {
    c as u32 - 48
}

/// Every character of `s` is a decimal digit.
pub open spec fn all_digits(s: Seq<char>) -> bool {
    forall|i: int| 0 <= i < s.len() ==> is_digit(#[trigger] s[i])
}

/// The value of a digit string read in base ten.
pub open spec fn digits_val(s: Seq<char>) -> int
    decreases s.len(),
{
    if s.len() == 0 {
        0
    } else {
        digits_val(s.drop_last()) * 10 + digit_of(s.last())
    }
}

/// A digit string's value is non-negative.
pub proof fn lemma_digits_val_nonneg(s: Seq<char>)
    requires
        all_digits(s),
    ensures
        digits_val(s) >= 0,
    decreases s.len(),
{
    if s.len() > 0 {
        assert(all_digits(s.drop_last()));
        lemma_digits_val_nonneg(s.drop_last());
    }
}

/// Extending a digit string to the right can only increase its value.
pub proof fn lemma_digits_val_prefix(s: Seq<char>, i: int)
    requires
        all_digits(s),
        0 <= i <= s.len(),
    ensures
        digits_val(s.subrange(0, i)) <= digits_val(s),
    decreases s.len() - i,
{
    if i < s.len() {
        let t = s.subrange(0, i + 1);
        assert(t.drop_last() =~= s.subrange(0, i));
        assert(all_digits(s.subrange(0, i)));
        lemma_digits_val_nonneg(s.subrange(0, i));
        lemma_digits_val_prefix(s, i + 1);
    } else {
        assert(s.subrange(0, i) =~= s);
    }
}

/// Parses a token as a non-negative integer: succeeds exactly when the
/// token is a non-empty run of decimal digits whose value fits in `usize`.
pub fn parse_usize(t: &str) -> (r: Option<usize>)
    ensures
        r is Some <==> (t@.len() > 0 && all_digits(t@) && digits_val(t@) <= usize::MAX),
        r matches Some(v) ==> v as int == digits_val(t@),
{
    let len: usize = t.unicode_len();
    if len == 0 {
        return None;
    }
    let mut acc: usize = 0;
    let mut i: usize = 0;
    while i < len
        invariant
            0 <= i <= len,
            len == t@.len(),
            all_digits(t@.subrange(0, i as int)),
            acc as int == digits_val(t@.subrange(0, i as int)),
        decreases len - i,
    {
        let c = t.get_char(i);
        let cu = c as u32;
        if cu < 48 || cu > 57 {
            assert(!is_digit(t@[i as int]));
            return None;
        }
        let d = (cu - 48) as usize;
        proof {
            let pre = t@.subrange(0, i as int);
            let ext = t@.subrange(0, i as int + 1);
            assert(ext.drop_last() =~= pre);
            assert(ext.last() == t@[i as int]);
        }
        if acc > (usize::MAX - d) / 10 {
            proof {
                let m = usize::MAX as int;
                let q = (m - d) / 10;
                let ext = t@.subrange(0, i as int + 1);
                assert(m - d == 10 * q + (m - d) % 10);
                assert(acc as int * 10 >= (q + 1) * 10);
                assert(digits_val(ext) == acc as int * 10 + d);
                assert(digits_val(ext) > m);
                if all_digits(t@) {
                    lemma_digits_val_prefix(t@, i as int + 1);
                }
            }
            return None;
        }
        proof {
            let m = usize::MAX as int;
            let q = (m - d) / 10;
            assert(m - d == 10 * q + (m - d) % 10);
            assert(acc as int * 10 <= q * 10);
        }
        acc = acc * 10 + d;
        i = i + 1;
    }
    proof {
        assert(t@.subrange(0, len as int) =~= t@);
    }
    Some(acc)
}

/// The tokens joined with single spaces.
pub open spec fn join_spaces(ts: Seq<Seq<char>>) -> Seq<char>
    decreases ts.len(),
{
    if ts.len() == 0 {
        Seq::empty()
    } else if ts.len() == 1 {
        ts[0]
    } else {
        join_spaces(ts.drop_last()) + seq![' '] + ts.last()
    }
}

/// Joins tokens into a single space-separated phrase.
pub fn join_tokens(ts: &Vec<String>) -> (r: String)
    ensures
        r@ == join_spaces(ts@.map_values(|t: String| t@)),
{
    let ghost tsv = ts@.map_values(|t: String| t@);
    let mut r = String::new();
    let mut i: usize = 0;
    while i < ts.len()
        invariant
            0 <= i <= ts@.len(),
            tsv == ts@.map_values(|t: String| t@),
            r@ == join_spaces(tsv.subrange(0, i as int)),
        decreases ts@.len() - i,
    {
        if i > 0 {
            r.append(" ");
            proof {
                reveal_strlit(" ");
            }
        }
        r.append(ts[i].as_str());
        proof {
            let ext = tsv.subrange(0, i as int + 1);
            assert(ext.drop_last() =~= tsv.subrange(0, i as int));
            assert(ext.last() == tsv[i as int]);
            if i == 0 {
                assert(r@ =~= join_spaces(ext));
            } else {
                assert(" "@ =~= seq![' ']);
                assert(r@ =~= join_spaces(ext));
            }
        }
        i = i + 1;
    }
    proof {
        assert(tsv.subrange(0, ts@.len() as int) =~= tsv);
    }
    r
}

/// The digit character for a value below ten.
pub open spec fn digit_char(d: int) -> char {
    if d == 0 {
        '0'
    } else if d == 1 {
        '1'
    } else if d == 2 {
        '2'
    } else if d == 3 {
        '3'
    } else if d == 4 {
        '4'
    } else if d == 5 {
        '5'
    } else if d == 6 {
        '6'
    } else if d == 7 {
        '7'
    } else if d == 8 {
        '8'
    } else {
        '9'
    }
}

/// The decimal representation of a non-negative value.
pub open spec fn dec_rep(v: int) -> Seq<char>
    decreases v,
    when v >= 0
{
    if v < 10 {
        seq![digit_char(v)]
    } else {
        dec_rep(v / 10).push(digit_char(v % 10))
    }
}

/// A single-digit string.
fn digit_string(d: usize) -> (r: String)
    requires
        d < 10,
    ensures
        r@ == seq![digit_char(d as int)],
{
    proof {
        reveal_strlit("0");
        reveal_strlit("1");
        reveal_strlit("2");
        reveal_strlit("3");
        reveal_strlit("4");
        reveal_strlit("5");
        reveal_strlit("6");
        reveal_strlit("7");
        reveal_strlit("8");
        reveal_strlit("9");
    }
    let s: &str = if d == 0 {
        "0"
    } else if d == 1 {
        "1"
    } else if d == 2 {
        "2"
    } else if d == 3 {
        "3"
    } else if d == 4 {
        "4"
    } else if d == 5 {
        "5"
    } else if d == 6 {
        "6"
    } else if d == 7 {
        "7"
    } else if d == 8 {
        "8"
    } else {
        "9"
    };
    proof {
        assert(s@ =~= seq![digit_char(d as int)]);
    }
    s.to_owned()
}

/// Renders a value in decimal.
pub fn render_usize(v: usize) -> (r: String)
    ensures
        r@ == dec_rep(v as int),
    decreases v,
{
    if v < 10 {
        digit_string(v)
    } else {
        let mut r = render_usize(v / 10);
        let last = digit_string(v % 10);
        r.append(last.as_str());
        proof {
            assert(r@ =~= dec_rep(v as int));
        }
        r
    }
}

/// Rendering a value and reading it back gives the value itself: the
/// decimal representation is made of digits and evaluates to its input.
pub proof fn lemma_dec_rep_val(v: int)
    requires
        v >= 0,
    ensures
        all_digits(dec_rep(v)),
        digits_val(dec_rep(v)) == v,
        dec_rep(v).len() > 0,
    decreases v,
{
    if v < 10 {
        let s = dec_rep(v);
        assert(s.len() == 1);
        assert(s.drop_last() =~= Seq::<char>::empty());
        assert('0' as u32 == 48 && '1' as u32 == 49 && '2' as u32 == 50 && '3' as u32 == 51
            && '4' as u32 == 52 && '5' as u32 == 53 && '6' as u32 == 54 && '7' as u32 == 55
            && '8' as u32 == 56 && '9' as u32 == 57);
        assert(digit_of(digit_char(v)) == v);
        assert(digits_val(s) == digits_val(s.drop_last()) * 10 + digit_of(s.last()));
    } else {
        lemma_dec_rep_val(v / 10);
        let s = dec_rep(v);
        assert(s.drop_last() =~= dec_rep(v / 10));
        assert(s.last() == digit_char(v % 10));
        assert(digit_of(digit_char(v % 10)) == v % 10);
        assert(digits_val(s) == digits_val(dec_rep(v / 10)) * 10 + (v % 10));
        assert(digits_val(s) == (v / 10) * 10 + (v % 10));
        assert(all_digits(s));
    }
}

} // verus!
