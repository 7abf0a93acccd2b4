//! Program text: lines, comments and whitespace-separated fraction literals.

use crate::fraction::{coprime, fraction_literal, parse_fraction, Fraction};
use vstd::prelude::*;

verus! {

/// A character with the Unicode `White_Space` property.
pub open spec fn is_white_space(c: char) -> bool {
    ('\u{9}' <= c && c <= '\u{d}') || c == ' ' || c == '\u{85}' || c == '\u{a0}' || c
        == '\u{1680}' || ('\u{2000}' <= c && c <= '\u{200a}') || c == '\u{2028}' || c
        == '\u{2029}' || c == '\u{202f}' || c == '\u{205f}' || c == '\u{3000}'
}

/// Whether `c` separates tokens.
pub fn white_space(c: char) -> (r: bool)
    ensures
        r == is_white_space(c),
{
    ('\u{9}' <= c && c <= '\u{d}') || c == ' ' || c == '\u{85}' || c == '\u{a0}' || c
        == '\u{1680}' || ('\u{2000}' <= c && c <= '\u{200a}') || c == '\u{2028}' || c
        == '\u{2029}' || c == '\u{202f}' || c == '\u{205f}' || c == '\u{3000}'
}

/// The first index from `i` on, below `j`, that holds white space, or `j`.
pub open spec fn token_end(s: Seq<char>, i: int, j: int) -> int
    decreases j - i,
{
    if i >= j || is_white_space(s[i]) {
        i
    } else {
        token_end(s, i + 1, j)
    }
}

/// The first index from `i` on that holds a line feed, or the length of `s`.
pub open spec fn line_end(s: Seq<char>, i: int) -> int
    decreases s.len() - i,
{
    if i >= s.len() || s[i] == '\n' {
        i
    } else {
        line_end(s, i + 1)
    }
}

proof fn lemma_token_end(s: Seq<char>, i: int, j: int)
    ensures
        i <= j ==> i <= token_end(s, i, j) <= j,
        i <= j ==> forall|k: int| i <= k < token_end(s, i, j) ==> !is_white_space(#[trigger] s[k]),
    decreases j - i,
{
    if i < j && !is_white_space(s[i]) {
        lemma_token_end(s, i + 1, j);
    }
}

proof fn lemma_line_end(s: Seq<char>, i: int)
    ensures
        0 <= i <= s.len() ==> i <= line_end(s, i) <= s.len(),
        0 <= i <= s.len() ==> forall|k: int| i <= k < line_end(s, i) ==> #[trigger] s[k] != '\n',
        0 <= i <= s.len() && line_end(s, i) < s.len() ==> s[line_end(s, i)] == '\n',
    decreases s.len() - i,
{
    if 0 <= i < s.len() && s[i] != '\n' {
        lemma_line_end(s, i + 1);
    }
}

#[via_fn]
proof fn line_tokens_decreases(s: Seq<char>, i: int, j: int) {
    if i < j && !is_white_space(s[i]) {
        lemma_token_end(s, i + 1, j);
    }
}

/// The tokens of `s` from `i` up to `j`: maximal runs of characters that are
/// not white space.
pub open spec fn line_tokens(s: Seq<char>, i: int, j: int) -> Seq<Seq<char>>
    decreases j - i via line_tokens_decreases
{
    if i >= j {
        seq![]
    } else if is_white_space(s[i]) {
        line_tokens(s, i + 1, j)
    } else {
        let k = token_end(s, i + 1, j);
        seq![s.subrange(i, k)] + line_tokens(s, k, j)
    }
}

#[via_fn]
proof fn source_tokens_decreases(s: Seq<char>, i: int) {
    if 0 <= i < s.len() {
        lemma_line_end(s, i);
    }
}

/// The tokens of the lines of `s` from index `i` on; a line that starts with
/// `;` is a comment and has none.
pub open spec fn source_tokens(s: Seq<char>, i: int) -> Seq<Seq<char>>
    decreases s.len() + 1 - i via source_tokens_decreases
{
    if i < 0 || i >= s.len() {
        seq![]
    } else {
        let k = line_end(s, i);
        let here = if s[i] == ';' {
            seq![]
        } else {
            line_tokens(s, i, k)
        };
        here + source_tokens(s, k + 1)
    }
}

/// The fraction `f` is the literal `token` in lowest terms.
pub open spec fn reads_as(f: Fraction, token: Seq<char>) -> bool {
    &&& fraction_literal(token) matches Some(nd)
    &&& f.denom@ > 0
    &&& f.numer@ * nd.1 == nd.0 * f.denom@
    &&& coprime(f.numer@, f.denom@)
}

/// A token that is no fraction literal.
pub struct ParseError {
    /// The characters of the first such token.
    pub token: Vec<char>,
}

/// `v` holds, in order, one fraction for each token of the text `s`.
pub open spec fn parses_to(v: Seq<Fraction>, s: Seq<char>) -> bool {
    let toks = source_tokens(s, 0);
    &&& v.len() == toks.len()
    &&& forall|t: int| 0 <= t < v.len() ==> reads_as(#[trigger] v[t], toks[t])
}

/// Every token of the text `s` is a fraction literal.
pub open spec fn all_literals(s: Seq<char>) -> bool {
    let toks = source_tokens(s, 0);
    forall|t: int| 0 <= t < toks.len() ==> (#[trigger] fraction_literal(toks[t])) is Some
}

/// `token` is the first token of the text `s` that is no fraction literal.
pub open spec fn first_bad_token(token: Seq<char>, s: Seq<char>) -> bool {
    let toks = source_tokens(s, 0);
    exists|t: int|
        0 <= t < toks.len() && fraction_literal(#[trigger] toks[t]) is None && token == toks[t]
            && forall|u: int| 0 <= u < t ==> (#[trigger] fraction_literal(toks[u])) is Some
}

/// The characters of `s`.
fn chars_of(s: &str) -> (r: Vec<char>)
    ensures
        r@ == s@,
{
    let mut out: Vec<char> = Vec::new();
    for c in it: s.chars()
        invariant
            out@ == it.seq().subrange(0, it.index() as int),
    {
        out.push(c);
    }
    assert(out@ =~= s@);
    out
}

/// The fractions of the program text `source`, in order; or the first token
/// that is no fraction literal.
pub fn parse_source(source: &str) -> (r: Result<Vec<Fraction>, ParseError>)
    ensures
        r is Ok <==> all_literals(source@),
        r matches Ok(v) ==> parses_to(v@, source@),
        r matches Err(e) ==> first_bad_token(e.token@, source@),
{
    let s = chars_of(source);
    let ghost sv = s@;
    let ghost toks = source_tokens(sv, 0);
    let n = s.len();
    let mut out: Vec<Fraction> = Vec::new();
    let ghost mut done: Seq<Seq<char>> = seq![];
    let mut i: usize = 0;
    while i < n
        invariant
            sv == s@,
            sv == source@,
            toks == source_tokens(sv, 0),
            n == s.len(),
            i <= n,
            done + source_tokens(sv, i as int) == toks,
            out.len() == done.len(),
            forall|t: int| 0 <= t < out.len() ==> reads_as(#[trigger] out[t], done[t]),
        decreases n - i,
    {
        let mut k: usize = i;
        while k < n && s[k] != '\n'
            invariant
                sv == s@,
                n == s.len(),
                i <= k <= n,
                line_end(sv, i as int) == line_end(sv, k as int),
            decreases n - k,
        {
            k = k + 1;
        }
        let ghost rest_after = source_tokens(sv, k + 1);
        if s[i] != ';' {
            assert(source_tokens(sv, i as int) == line_tokens(sv, i as int, k as int) + rest_after);
            let mut j: usize = i;
            while j < k
                invariant
                    sv == s@,
                    n == s.len(),
                    i <= j <= k <= n,
                    sv == source@,
                    toks == source_tokens(sv, 0),
                    rest_after == source_tokens(sv, k + 1),
                    done + line_tokens(sv, j as int, k as int) + rest_after == toks,
                    out.len() == done.len(),
                    forall|t: int| 0 <= t < out.len() ==> reads_as(#[trigger] out[t], done[t]),
                decreases k - j,
            {
                if white_space(s[j]) {
                    assert(line_tokens(sv, j as int, k as int) == line_tokens(sv, j + 1, k as int));
                    j = j + 1;
                } else {
                    let mut e: usize = j + 1;
                    while e < k && !white_space(s[e])
                        invariant
                            sv == s@,
                            n == s.len(),
                            j < e <= k <= n,
                            token_end(sv, j + 1, k as int) == token_end(sv, e as int, k as int),
                        decreases k - e,
                    {
                        e = e + 1;
                    }
                    let mut tok: Vec<char> = Vec::new();
                    let mut m: usize = j;
                    while m < e
                        invariant
                            sv == s@,
                            n == s.len(),
                            j <= m <= e <= n,
                            tok@ == sv.subrange(j as int, m as int),
                        decreases e - m,
                    {
                        tok.push(s[m]);
                        m = m + 1;
                    }
                    let ghost lt = line_tokens(sv, e as int, k as int);
                    assert(line_tokens(sv, j as int, k as int) == seq![tok@] + lt);
                    assert(done + (seq![tok@] + lt) + rest_after =~= done.push(tok@) + lt
                        + rest_after);
                    assert(toks[done.len() as int] == tok@);
                    match parse_fraction(&tok) {
                        Some(f) => {
                            out.push(f);
                        },
                        None => {
                            proof {
                                assert(forall|u: int|
                                    0 <= u < done.len() ==> #[trigger] toks[u] == done[u]);
                                assert forall|u: int| 0 <= u < done.len() as int implies (
                                #[trigger] fraction_literal(toks[u])) is Some by {
                                    assert(reads_as(out[u], done[u]));
                                }
                                let t = done.len() as int;
                                assert(fraction_literal(toks[t]) is None);
                                assert(!all_literals(source@));
                                assert(first_bad_token(tok@, source@));
                            }
                            return Err(ParseError { token: tok });
                        },
                    }
                    proof {
                        done = done.push(tok@);
                    }
                    j = e;
                }
            }
            assert(line_tokens(sv, k as int, k as int) =~= Seq::<Seq<char>>::empty());
            assert(done + Seq::<Seq<char>>::empty() =~= done);
        } else {
            assert(source_tokens(sv, i as int) == Seq::<Seq<char>>::empty() + rest_after);
            assert(Seq::<Seq<char>>::empty() + rest_after =~= rest_after);
        }
        if k < n {
            i = k + 1;
        } else {
            assert(source_tokens(sv, k + 1) =~= source_tokens(sv, n as int));
            i = n;
        }
    }
    assert(source_tokens(sv, n as int) =~= Seq::<Seq<char>>::empty());
    assert(done =~= toks);
    proof {
        assert forall|t: int| 0 <= t < toks.len() implies (#[trigger] fraction_literal(
            toks[t],
        )) is Some by {
            assert(reads_as(out[t], done[t]));
        }
    }
    Ok(out)
}

} // verus!
