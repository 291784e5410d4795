//! Tokenizing `test` expressions well enough to pull out the names they
//! reference. Deliberately tiny: nothing is evaluated, only the identifiers
//! are needed.

use vstd::prelude::*;
use crate::text::{chars_of, string_of};

verus! {

/// A name character: ASCII alphanumeric or `_`.
pub open spec fn is_word(c: char) -> bool {
    ||| 'a' <= c <= 'z'
    ||| 'A' <= c <= 'Z'
    ||| '0' <= c <= '9'
    ||| c == '_'
}

/// An identifier character: ASCII alphanumeric, `_`, `-` or `.`.
pub open spec fn is_id(c: char) -> bool {
    is_word(c) || c == '-' || c == '.'
}

/// The end of the run of identifier characters starting at `i`.
pub open spec fn run_end(cs: Seq<char>, i: int) -> int
    decreases cs.len() - i,
{
    if 0 <= i < cs.len() && is_id(cs[i]) {
        run_end(cs, i + 1)
    } else {
        i
    }
}

/// Whether a run holds a letter, a digit or `_`: a run of `-` and `.` alone
/// (a spaced minus) names nothing.
pub open spec fn has_word(t: Seq<char>) -> bool {
    exists|k: int| 0 <= k < t.len() && is_word(#[trigger] t[k])
}

/// The first position at or after `j` that is not a space.
pub open spec fn skip_spaces(cs: Seq<char>, j: int) -> int
    decreases cs.len() - j,
{
    if 0 <= j < cs.len() && cs[j] == ' ' {
        skip_spaces(cs, j + 1)
    } else {
        j
    }
}

pub proof fn lemma_run_end(cs: Seq<char>, i: int)
    requires
        0 <= i,
    ensures
        i <= run_end(cs, i),
        run_end(cs, i) <= cs.len() || run_end(cs, i) == i,
        forall|k: int| i <= k < run_end(cs, i) ==> is_id(#[trigger] cs[k]),
        run_end(cs, i) < cs.len() ==> !is_id(cs[run_end(cs, i)]),
    decreases cs.len() - i,
{
    if 0 <= i < cs.len() && is_id(cs[i]) {
        lemma_run_end(cs, i + 1);
    }
}

/// The tokens of `cs` from position `i` on: each maximal run of identifier
/// characters that holds a letter, digit or `_`, paired with whether the next
/// non-space character is `(`.
pub open spec fn tokens_from(cs: Seq<char>, i: int) -> Seq<(Seq<char>, bool)>
    decreases cs.len() - i,
{
    if i < 0 || i >= cs.len() {
        seq![]
    } else if !is_id(cs[i]) {
        tokens_from(cs, i + 1)
    } else {
        proof {
            lemma_run_end(cs, i);
        }
        let e = run_end(cs, i);
        let j = skip_spaces(cs, e);
        (if has_word(cs.subrange(i, e)) {
            seq![(cs.subrange(i, e), j < cs.len() && cs[j] == '(')]
        } else {
            seq![]
        }) + tokens_from(cs, e)
    }
}

/// The tokens of an expression: `(token, is_function_call)` pairs.
pub open spec fn tokens(expr: Seq<char>) -> Seq<(Seq<char>, bool)> {
    tokens_from(expr, 0)
}

/// Tokens, by their characters.
pub open spec fn tok_views(ts: Seq<(String, bool)>) -> Seq<(Seq<char>, bool)> {
    ts.map_values(|t: (String, bool)| (t.0@, t.1))
}

fn is_word_char(c: char) -> (r: bool)
    ensures
        r == is_word(c),
{
    ('a' <= c && c <= 'z') || ('A' <= c && c <= 'Z') || ('0' <= c && c <= '9') || c == '_'
}

fn is_id_char(c: char) -> (r: bool)
    ensures
        r == is_id(c),
{
    is_word_char(c) || c == '-' || c == '.'
}

/// Whether `cs[from..to]` holds a letter, a digit or `_`.
fn holds_word(cs: &Vec<char>, from: usize, to: usize) -> (r: bool)
    requires
        from <= to <= cs@.len(),
    ensures
        r == has_word(cs@.subrange(from as int, to as int)),
{
    let ghost t = cs@.subrange(from as int, to as int);
    let mut k = from;
    while k < to
        invariant
            from <= k <= to <= cs@.len(),
            t == cs@.subrange(from as int, to as int),
            forall|l: int| from <= l < k ==> !is_word(#[trigger] cs@[l]),
        decreases to - k,
    {
        if is_word_char(cs[k]) {
            proof {
                assert(is_word(t[k - from]));
            }
            return true;
        }
        k = k + 1;
    }
    proof {
        if has_word(t) {
            let l = choose|l: int| 0 <= l < t.len() && is_word(#[trigger] t[l]);
            assert(t[l] == cs@[from + l]);
        }
    }
    false
}

/// Split an expression into `(token, is_function_call)` pairs. A token is a
/// maximal run of identifier characters (alphanumeric, `_`, `-`, `.`); it is a
/// function call if the next non-space character is `(`. Kebab-case names stay
/// whole (`fair-value`), while a spaced `a - b` splits into `a` and `b`: a run
/// of `-` and `.` alone holds no letter, digit or `_`, so it is no token.
pub fn tokenize(expr: &str) -> (r: Vec<(String, bool)>)
    ensures
        tok_views(r@) == tokens(expr@),
{
    let cs = chars_of(expr);
    let mut out: Vec<(String, bool)> = Vec::new();
    let mut i: usize = 0;
    while i < cs.len()
        invariant
            i <= cs@.len(),
            cs@ == expr@,
            tokens(cs@) == tok_views(out@) + tokens_from(cs@, i as int),
        decreases cs.len() - i,
    {
        if !is_id_char(cs[i]) {
            i = i + 1;
            continue;
        }
        let start = i;
        while i < cs.len() && is_id_char(cs[i])
            invariant
                start <= i <= cs@.len(),
                run_end(cs@, start as int) == run_end(cs@, i as int),
            decreases cs.len() - i,
        {
            i = i + 1;
        }
        let mut j = i;
        while j < cs.len() && cs[j] == ' '
            invariant
                i <= j <= cs@.len(),
                skip_spaces(cs@, i as int) == skip_spaces(cs@, j as int),
            decreases cs.len() - j,
        {
            j = j + 1;
        }
        let is_call = j < cs.len() && cs[j] == '(';
        let ghost before = out@;
        if holds_word(&cs, start, i) {
            let tok = string_of(&cs, start, i);
            out.push((tok, is_call));
            proof {
                assert(tok_views(out@) =~= tok_views(before).push((cs@.subrange(start as int, i as int), is_call)));
            }
        }
        proof {
            assert(tokens(cs@) =~= tok_views(out@) + tokens_from(cs@, i as int));
        }
    }
    out
}

/// A name: a non-empty run of identifier characters holding a letter, a
/// digit or `_`.
pub open spec fn is_name(t: Seq<char>) -> bool {
    &&& t.len() > 0
    &&& has_word(t)
    &&& forall|k: int| 0 <= k < t.len() ==> is_id(#[trigger] t[k])
}

proof fn lemma_tokens_from_names(cs: Seq<char>, i: int)
    ensures
        forall|k: int| 0 <= k < tokens_from(cs, i).len() ==> is_name(#[trigger] tokens_from(cs, i)[k].0),
    decreases cs.len() - i,
{
    if 0 <= i < cs.len() {
        if !is_id(cs[i]) {
            lemma_tokens_from_names(cs, i + 1);
            assert(tokens_from(cs, i) == tokens_from(cs, i + 1));
        } else {
            lemma_run_end(cs, i);
            let e = run_end(cs, i);
            lemma_tokens_from_names(cs, e);
            let t = cs.subrange(i, e);
            assert(e > i) by {
                lemma_run_end(cs, i + 1);
            }
            assert forall|k: int| 0 <= k < t.len() implies is_id(#[trigger] t[k]) by {
                assert(t[k] == cs[i + k]);
            }
            let rest = tokens_from(cs, e);
            let j = skip_spaces(cs, e);
            let head = if has_word(t) {
                seq![(t, j < cs.len() && cs[j] == '(')]
            } else {
                Seq::<(Seq<char>, bool)>::empty()
            };
            let all = head + rest;
            assert(tokens_from(cs, i) == all);
            assert forall|k: int| 0 <= k < all.len() implies is_name(#[trigger] all[k].0) by {
                if k < head.len() {
                    assert(all[k].0 == t);
                } else {
                    assert(all[k] == rest[k - head.len()]);
                }
            }
            assert forall|k: int| 0 <= k < tokens_from(cs, i).len() implies is_name(
                #[trigger] tokens_from(cs, i)[k].0,
            ) by {
                assert(tokens_from(cs, i)[k] == all[k]);
            }
        }
    }
}

/// Every token is a name: a non-empty run of identifier characters holding a
/// letter, a digit or `_`. A spaced minus, which holds none, is no token.
pub proof fn lemma_tokens_are_names(expr: Seq<char>)
    ensures
        forall|k: int| 0 <= k < tokens(expr).len() ==> is_name(#[trigger] tokens(expr)[k].0),
{
    lemma_tokens_from_names(expr, 0);
}

} // verus!
