//! Check 1 — leak detection: the mechanical edge.
//!
//! A *leak* is the mechanical/judgment seam being crossed silently — the
//! machine computing on something that is actually a judgment:
//!
//! - **LEAK-1 — judgment computed.** A `mechanical` test whose expression
//!   references a name declared `judgment`/`election` anywhere, unless that
//!   name is a declared opaque input of this test.
//! - **LEAK-2 — undeclared / uncolored input.** A `mechanical` test that
//!   references a name which is neither a field of the norm's own `subject`
//!   nor a declared, colored input; and an input declared with no color (or a
//!   color that is not one of the three).
//! - **LEAK-3 — faked aggregation.** A judgment-aggregation that also carries a
//!   `test`/`formula`.
//! - **LEAK-4 — uncolored commitment field.** A commitment's
//!   `method`/`measure` written without a color.
//!
//! These rules verify that an author was internally consistent about the seam;
//! they cannot verify that a `mechanical` predicate deserves that color.

use vstd::prelude::*;
use crate::yaml::{Yaml, key_text, lookup, lookup_in, text_of, str_field, opt_view, str_eq, key_str};
use crate::text::{child_path, index_path, child_path_of, index_path_of, join3, join5, sviews, contains_str, string_of, chars_of};
use crate::rule::{Family, Finding, FindingV, Rule, finding, fviews, group_relabel, group_rules_in, push_finding, relabel, rules_in};
use crate::norm::{judgment_color, colored, is_aggregation, is_judgment_color, is_colored, aggregation, contains_key};
use crate::yaml::has_key;
use crate::expr::{tokens, tokenize, tok_views};

verus! {

broadcast use vstd::std_specs::vec::group_vec_axioms;

// ---------------------------------------------------------------------------
// What the check reports, stated over the value tree.

/// The color an `inputs:` entry declares, if it is a mapping with a string
/// `color`.
pub open spec fn input_color(spec: Yaml) -> Option<Seq<char>> {
    match spec {
        Yaml::Mapping(sm) => text_of(lookup(sm@, "color"@)),
        _ => None,
    }
}

/// `(name, color)` for each string-keyed entry of an `inputs:` mapping.
pub open spec fn input_entries(es: Seq<(Yaml, Yaml)>) -> Seq<(Seq<char>, Option<Seq<char>>)>
    decreases es.len(),
{
    if es.len() == 0 {
        seq![]
    } else {
        let prev = input_entries(es.drop_last());
        match es.last().0 {
            Yaml::Text(name) => prev.push((name@, input_color(es.last().1))),
            _ => prev,
        }
    }
}

/// `(name, color)` for each entry under this mapping's `inputs:`.
pub open spec fn declared_inputs(m: Seq<(Yaml, Yaml)>) -> Seq<(Seq<char>, Option<Seq<char>>)> {
    match lookup(m, "inputs"@) {
        Some(Yaml::Mapping(inputs)) => input_entries(inputs@),
        _ => seq![],
    }
}

/// The names of declared inputs.
pub open spec fn names_of(ds: Seq<(Seq<char>, Option<Seq<char>>)>) -> Seq<Seq<char>> {
    ds.map_values(|d: (Seq<char>, Option<Seq<char>>)| d.0)
}

/// The declared inputs whose color is on the judgment side.
pub open spec fn judgment_inputs(ds: Seq<(Seq<char>, Option<Seq<char>>)>) -> Seq<Seq<char>>
    decreases ds.len(),
{
    if ds.len() == 0 {
        seq![]
    } else {
        let prev = judgment_inputs(ds.drop_last());
        match ds.last().1 {
            Some(c) => if judgment_color(c) {
                prev.push(ds.last().0)
            } else {
                prev
            },
            None => prev,
        }
    }
}

/// The name a `predicate:` node declares judgment/election-colored, if it does.
pub open spec fn predicate_judgment(m: Seq<(Yaml, Yaml)>) -> Seq<Seq<char>> {
    match (lookup(m, "predicate"@), lookup(m, "color"@)) {
        (Some(Yaml::Text(name)), Some(Yaml::Text(color))) => if judgment_color(color@) {
            seq![name@]
        } else {
            seq![]
        },
        _ => seq![],
    }
}

/// Every name declared with a judgment/election color anywhere in the tree —
/// `predicate:` declarations and `inputs:` entries — in document order.
pub open spec fn judgment_names(v: Yaml) -> Seq<Seq<char>>
    decreases v,
{
    match v {
        Yaml::Mapping(m) => predicate_judgment(m@) + judgment_inputs(declared_inputs(m@))
            + names_in_entries(m@),
        Yaml::Sequence(s) => names_in_items(s@),
        _ => seq![],
    }
}

pub open spec fn names_in_entries(es: Seq<(Yaml, Yaml)>) -> Seq<Seq<char>>
    decreases es,
{
    if es.len() == 0 {
        seq![]
    } else {
        names_in_entries(es.drop_last()) + judgment_names(es.last().1)
    }
}

pub open spec fn names_in_items(items: Seq<Yaml>) -> Seq<Seq<char>>
    decreases items,
{
    if items.len() == 0 {
        seq![]
    } else {
        names_in_items(items.drop_last()) + judgment_names(items.last())
    }
}

/// A mechanical test at this node: its expression and its declared input
/// names. Written either nested (`mechanical: { test, inputs }`) or inline
/// (`{ color: mechanical, test, inputs }`).
pub open spec fn mechanical_test(m: Seq<(Yaml, Yaml)>) -> Option<(Seq<char>, Seq<Seq<char>>)> {
    let nested = match lookup(m, "mechanical"@) {
        Some(Yaml::Mapping(inner)) => match lookup(inner@, "test"@) {
            Some(Yaml::Text(t)) => Some((t@, names_of(declared_inputs(inner@)))),
            _ => None,
        },
        _ => None,
    };
    if nested is Some {
        nested
    } else {
        match (lookup(m, "color"@), lookup(m, "test"@)) {
            (Some(Yaml::Text(c)), Some(Yaml::Text(t))) => if c@ == "mechanical"@ {
                Some((t@, names_of(declared_inputs(m))))
            } else {
                None
            },
            _ => None,
        }
    }
}

/// Words in a test expression that are not data references.
pub open spec fn reserved(tok: Seq<char>) -> bool {
    ||| tok == "threshold"@
    ||| tok == "and"@
    ||| tok == "or"@
    ||| tok == "not"@
    ||| tok == "true"@
    ||| tok == "false"@
}

/// The position of the first `.` at or after `i`, or the length.
pub open spec fn dot_at(tok: Seq<char>, i: int) -> int
    decreases tok.len() - i,
{
    if i < 0 || i >= tok.len() {
        tok.len() as int
    } else if tok[i] == '.' {
        i
    } else {
        dot_at(tok, i + 1)
    }
}

/// What comes before a token's first `.`.
pub open spec fn root_of(tok: Seq<char>) -> Seq<char> {
    tok.subrange(0, dot_at(tok, 0))
}

/// A token that starts with an ASCII digit: a numeric literal.
pub open spec fn numeric(tok: Seq<char>) -> bool {
    tok.len() > 0 && '0' <= tok[0] <= '9'
}

pub open spec fn dotted_judgment_msg(tok: Seq<char>, root: Seq<char>) -> Seq<char> {
    "mechanical test computes on `"@ + tok + "`, rooted in judgment/election name `"@ + root
        + "` — a field access does not make a judgment mechanical"@
}

pub open spec fn dotted_undeclared_msg(tok: Seq<char>, root: Seq<char>) -> Seq<char> {
    "mechanical test references `"@ + tok + "`, rooted in `"@ + root
        + "` which is neither this norm's subject nor a declared colored input"@
}

pub open spec fn bare_judgment_msg(tok: Seq<char>) -> Seq<char> {
    "mechanical test computes on judgment/election name `"@ + tok
        + "`, not declared as an opaque input of this test"@
}

pub open spec fn bare_undeclared_msg(tok: Seq<char>) -> Seq<char> {
    "mechanical test references `"@ + tok
        + "`, neither a subject field (`subject.field`) nor a declared colored input"@
}

/// LEAK-1 / LEAK-2 for one token of a mechanical test.
pub open spec fn scan_token(
    t: (Seq<char>, bool),
    inputs: Seq<Seq<char>>,
    judgment: Seq<Seq<char>>,
    subject: Option<Seq<char>>,
    file: Seq<char>,
    path: Seq<char>,
) -> Seq<FindingV> {
    let tok = t.0;
    if t.1 || reserved(tok) || numeric(tok) {
        seq![]
    } else if tok.contains('.') {
        let root = root_of(tok);
        if judgment.contains(root) {
            seq![finding(file, path, Rule::JudgmentComputed, dotted_judgment_msg(tok, root))]
        } else if !inputs.contains(root) && subject != Some(root) {
            seq![finding(file, path, Rule::UndeclaredInput, dotted_undeclared_msg(tok, root))]
        } else {
            seq![]
        }
    } else if inputs.contains(tok) {
        seq![]
    } else if judgment.contains(tok) {
        seq![finding(file, path, Rule::JudgmentComputed, bare_judgment_msg(tok))]
    } else {
        seq![finding(file, path, Rule::UndeclaredInput, bare_undeclared_msg(tok))]
    }
}

/// LEAK-1 / LEAK-2 for every token of a mechanical test, in order.
pub open spec fn scan_tokens(
    toks: Seq<(Seq<char>, bool)>,
    inputs: Seq<Seq<char>>,
    judgment: Seq<Seq<char>>,
    subject: Option<Seq<char>>,
    file: Seq<char>,
    path: Seq<char>,
) -> Seq<FindingV>
    decreases toks.len(),
{
    if toks.len() == 0 {
        seq![]
    } else {
        scan_tokens(toks.drop_last(), inputs, judgment, subject, file, path) + scan_token(
            toks.last(),
            inputs,
            judgment,
            subject,
            file,
            path,
        )
    }
}

pub open spec fn input_color_msg(name: Seq<char>, color: Option<Seq<char>>) -> Seq<char> {
    match color {
        Some(c) => "input `"@ + name + "` is declared with color `"@ + c
            + "` — must be one of mechanical | judgment | election"@,
        None => "input `"@ + name
            + "` is declared with no color — listing a name under `inputs:` does not say which side of the seam its value comes from"@,
    }
}

/// LEAK-2 for every declared input that carries none of the three colors.
pub open spec fn input_color_findings(
    ds: Seq<(Seq<char>, Option<Seq<char>>)>,
    file: Seq<char>,
    path: Seq<char>,
) -> Seq<FindingV>
    decreases ds.len(),
{
    if ds.len() == 0 {
        seq![]
    } else {
        let prev = input_color_findings(ds.drop_last(), file, path);
        let d = ds.last();
        if colored(d.1) {
            prev
        } else {
            prev.push(
                finding(
                    file,
                    path + ".inputs."@ + d.0,
                    Rule::UndeclaredInput,
                    input_color_msg(d.0, d.1),
                ),
            )
        }
    }
}

/// LEAK-2 for the inputs of the mechanical test at this node.
pub open spec fn input_colors(m: Seq<(Yaml, Yaml)>, file: Seq<char>, path: Seq<char>) -> Seq<
    FindingV,
> {
    let inner = match lookup(m, "mechanical"@) {
        Some(Yaml::Mapping(i)) => i@,
        _ => m,
    };
    input_color_findings(declared_inputs(inner), file, path)
}

pub open spec fn commitment_color_msg(field: Seq<char>, color: Option<Seq<char>>) -> Seq<char> {
    match color {
        Some(c) => "commitment `"@ + field + "` declares color `"@ + c
            + "` — must be one of mechanical | judgment | election"@,
        None => "commitment `"@ + field
            + "` declares no color — whether a method is an open choice or is prescribed by the standard is standard-relative (spike 2, N1), so the norm must say which"@,
    }
}

/// LEAK-4 for one commitment field.
pub open spec fn field_color(c: Seq<(Yaml, Yaml)>, field: Seq<char>, file: Seq<char>, path: Seq<char>) -> Seq<FindingV> {
    match lookup(c, field) {
        None => seq![],
        Some(value) => {
            let color = match value {
                Yaml::Mapping(_) => str_field(value, "color"@),
                _ => None,
            };
            if colored(color) {
                seq![]
            } else {
                seq![
                    finding(
                        file,
                        path + ".commitment."@ + field,
                        Rule::UncoloredCommitmentField,
                        commitment_color_msg(field, color),
                    ),
                ]
            }
        },
    }
}

/// LEAK-4 for this node's commitment.
pub open spec fn commitment_colors(m: Seq<(Yaml, Yaml)>, file: Seq<char>, path: Seq<char>) -> Seq<FindingV> {
    match lookup(m, "commitment"@) {
        Some(Yaml::Mapping(c)) => field_color(c@, "method"@, file, path) + field_color(
            c@,
            "measure"@,
            file,
            path,
        ),
        _ => seq![],
    }
}

pub open spec fn faked_msg() -> Seq<char> {
    "judgment-aggregation carries a formula/test — a weighed judgment faked as a mechanical combination rule"@
}

/// LEAK-3 at this node.
pub open spec fn faked(m: Seq<(Yaml, Yaml)>, file: Seq<char>, path: Seq<char>) -> Seq<FindingV> {
    if is_aggregation(m) && (has_key(m, "test"@) || has_key(m, "formula"@)) {
        seq![finding(file, path, Rule::FakedAggregation, faked_msg())]
    } else {
        seq![]
    }
}

/// Every leak reported at one mapping node (its children aside).
pub open spec fn node_findings(
    m: Seq<(Yaml, Yaml)>,
    file: Seq<char>,
    path: Seq<char>,
    judgment: Seq<Seq<char>>,
    subject: Option<Seq<char>>,
) -> Seq<FindingV> {
    let mech = match mechanical_test(m) {
        Some((test, inputs)) => scan_tokens(tokens(test), inputs, judgment, subject, file, path)
            + input_colors(m, file, path),
        None => seq![],
    };
    mech + commitment_colors(m, file, path) + faked(m, file, path)
}

/// The subject a mapping node ranges over: its own `subject:`, or the one it
/// inherits.
pub open spec fn subject_at(m: Seq<(Yaml, Yaml)>, subject: Option<Seq<char>>) -> Option<Seq<char>> {
    match lookup(m, "subject"@) {
        Some(Yaml::Text(s)) => Some(s@),
        _ => subject,
    }
}

/// Every leak in the subtree at `v`, in walk order: a mapping's own findings,
/// then its children's by key; a sequence's items by index.
pub open spec fn walk(
    v: Yaml,
    file: Seq<char>,
    path: Seq<char>,
    judgment: Seq<Seq<char>>,
    subject: Option<Seq<char>>,
) -> Seq<FindingV>
    decreases v,
{
    match v {
        Yaml::Mapping(m) => {
            let subj = subject_at(m@, subject);
            node_findings(m@, file, path, judgment, subj) + walk_entries(
                m@,
                file,
                path,
                judgment,
                subj,
            )
        },
        Yaml::Sequence(s) => walk_items(s@, file, path, judgment, subject),
        _ => seq![],
    }
}

pub open spec fn walk_entries(
    es: Seq<(Yaml, Yaml)>,
    file: Seq<char>,
    path: Seq<char>,
    judgment: Seq<Seq<char>>,
    subject: Option<Seq<char>>,
) -> Seq<FindingV>
    decreases es,
{
    if es.len() == 0 {
        seq![]
    } else {
        walk_entries(es.drop_last(), file, path, judgment, subject) + walk(
            es.last().1,
            file,
            child_path(path, key_text(es.last().0)),
            judgment,
            subject,
        )
    }
}

pub open spec fn walk_items(
    items: Seq<Yaml>,
    file: Seq<char>,
    path: Seq<char>,
    judgment: Seq<Seq<char>>,
    subject: Option<Seq<char>>,
) -> Seq<FindingV>
    decreases items,
{
    if items.len() == 0 {
        seq![]
    } else {
        walk_items(items.drop_last(), file, path, judgment, subject) + walk(
            items.last(),
            file,
            index_path(path, (items.len() - 1) as nat),
            judgment,
            subject,
        )
    }
}

/// Check 1 over a parsed document: every leak, in walk order.
pub open spec fn leak_findings(doc: Yaml, file: Seq<char>) -> Seq<FindingV> {
    walk(doc, file, seq![], judgment_names(doc), None)
}

// ---------------------------------------------------------------------------
// The check.

/// Declared inputs, by their characters.
pub open spec fn dviews(ds: Seq<(String, Option<String>)>) -> Seq<(Seq<char>, Option<Seq<char>>)> {
    ds.map_values(|d: (String, Option<String>)| (d.0@, opt_view(d.1)))
}

fn clone_opt(o: &Option<String>) -> (r: Option<String>)
    ensures
        opt_view(r) == opt_view(*o),
{
    match o {
        Some(s) => Some(s.clone()),
        None => None,
    }
}

/// `(name, color)` for each entry under this mapping's `inputs:`; the color is
/// `None` if the entry carries no string `color` field.
fn declared_inputs_of(m: &Vec<(Yaml, Yaml)>) -> (r: Vec<(String, Option<String>)>)
    ensures
        dviews(r@) == declared_inputs(m@),
{
    let mut out: Vec<(String, Option<String>)> = Vec::new();
    match lookup_in(m, "inputs") {
        Some(Yaml::Mapping(inputs)) => {
            let mut i: usize = 0;
            while i < inputs.len()
                invariant
                    i <= inputs@.len(),
                    dviews(out@) == input_entries(inputs@.take(i as int)),
                decreases inputs.len() - i,
            {
                let ghost before = out@;
                match &inputs[i].0 {
                    Yaml::Text(name) => {
                        let color = match &inputs[i].1 {
                            Yaml::Mapping(sm) => crate::yaml::text_in(lookup_in(sm, "color")),
                            _ => None,
                        };
                        out.push((name.clone(), color));
                        proof {
                            assert(dviews(out@) =~= dviews(before).push((name@, opt_view(color))));
                        }
                    },
                    _ => {},
                }
                proof {
                    assert(inputs@.take(i + 1).drop_last() =~= inputs@.take(i as int));
                }
                i = i + 1;
            }
            proof {
                assert(inputs@.take(inputs@.len() as int) =~= inputs@);
            }
        },
        _ => {},
    }
    out
}

/// Names declared under this mapping's `inputs:`.
fn input_names_of(m: &Vec<(Yaml, Yaml)>) -> (r: Vec<String>)
    ensures
        sviews(r@) == names_of(declared_inputs(m@)),
{
    let ds = declared_inputs_of(m);
    let mut out: Vec<String> = Vec::new();
    let mut i: usize = 0;
    while i < ds.len()
        invariant
            i <= ds@.len(),
            dviews(ds@) == declared_inputs(m@),
            sviews(out@) == names_of(dviews(ds@)).take(i as int),
        decreases ds.len() - i,
    {
        let ghost before = out@;
        out.push(ds[i].0.clone());
        proof {
            assert(dviews(ds@)[i as int] == (ds@[i as int].0@, opt_view(ds@[i as int].1)));
            assert(sviews(out@) =~= sviews(before).push(ds@[i as int].0@));
            assert(sviews(out@) =~= names_of(dviews(ds@)).take(i + 1));
        }
        i = i + 1;
    }
    proof {
        assert(names_of(dviews(ds@)).take(ds@.len() as int) =~= names_of(dviews(ds@)));
    }
    out
}

/// Gather every name declared with `color: judgment|election` — both
/// `predicate:` declarations and `inputs:` entries — anywhere in the tree.
fn collect_judgment_names(v: &Yaml, out: &mut Vec<String>)
    ensures
        sviews(final(out)@) == sviews(old(out)@) + judgment_names(*v),
    decreases v,
{
    let ghost start = sviews(out@);
    match v {
        Yaml::Mapping(m) => {
            match (lookup_in(m, "predicate"), lookup_in(m, "color")) {
                (Some(Yaml::Text(name)), Some(Yaml::Text(color))) => {
                    if is_judgment_color(color.as_str()) {
                        out.push(name.clone());
                    }
                },
                _ => {},
            }
            proof {
                assert(sviews(out@) =~= start + predicate_judgment(m@));
            }
            let ghost mid = sviews(out@);
            let ds = declared_inputs_of(m);
            let mut i: usize = 0;
            while i < ds.len()
                invariant
                    i <= ds@.len(),
                    dviews(ds@) == declared_inputs(m@),
                    sviews(out@) == mid + judgment_inputs(dviews(ds@).take(i as int)),
                decreases ds.len() - i,
            {
                proof {
                    assert(dviews(ds@).take(i + 1).drop_last() =~= dviews(ds@).take(i as int));
                    assert(dviews(ds@).take(i + 1).last() == (ds@[i as int].0@, opt_view(ds@[i as int].1)));
                }
                let ghost before = out@;
                match &ds[i].1 {
                    Some(c) => {
                        if is_judgment_color(c.as_str()) {
                            out.push(ds[i].0.clone());
                        }
                    },
                    None => {},
                }
                proof {
                    if out@.len() > before.len() {
                        assert(sviews(out@) =~= sviews(before).push(ds@[i as int].0@));
                    } else {
                        assert(sviews(out@) =~= sviews(before));
                    }
                    assert(sviews(out@) =~= mid + judgment_inputs(dviews(ds@).take(i + 1)));
                }
                i = i + 1;
            }
            proof {
                assert(dviews(ds@).take(ds@.len() as int) =~= dviews(ds@));
            }
            let ghost mid2 = sviews(out@);
            let mut j: usize = 0;
            while j < m.len()
                invariant
                    j <= m@.len(),
                    *v == Yaml::Mapping(*m),
                    sviews(out@) == mid2 + names_in_entries(m@.take(j as int)),
                decreases m.len() - j,
            {
                proof {
                    crate::yaml::lemma_entry_below(*v, *m, j as int);
                }
                collect_judgment_names(&m[j].1, out);
                proof {
                    assert(m@.take(j + 1).drop_last() =~= m@.take(j as int));
                }
                j = j + 1;
            }
            proof {
                assert(m@.take(m@.len() as int) =~= m@);
            }
        },
        Yaml::Sequence(s) => {
            let mut j: usize = 0;
            while j < s.len()
                invariant
                    j <= s@.len(),
                    *v == Yaml::Sequence(*s),
                    sviews(out@) == start + names_in_items(s@.take(j as int)),
                decreases s.len() - j,
            {
                proof {
                    crate::yaml::lemma_item_below(*v, *s, j as int);
                }
                collect_judgment_names(&s[j], out);
                proof {
                    assert(s@.take(j + 1).drop_last() =~= s@.take(j as int));
                }
                j = j + 1;
            }
            proof {
                assert(s@.take(s@.len() as int) =~= s@);
            }
        },
        _ => {},
    }
}

/// If this mapping is a mechanical test, its `test` expression and the names
/// declared as its inputs. Handles both shapes:
///   - inline:  `{ predicate: _, color: mechanical, test: <expr>, inputs: {..} }`
///   - nested:  `{ mechanical: { test: <expr>, inputs: {..} } }`
fn mechanical_test_of(m: &Vec<(Yaml, Yaml)>) -> (r: Option<(String, Vec<String>)>)
    ensures
        match r {
            Some((t, ins)) => mechanical_test(m@) == Some((t@, sviews(ins@))),
            None => mechanical_test(m@) is None,
        },
{
    match lookup_in(m, "mechanical") {
        Some(Yaml::Mapping(inner)) => match lookup_in(inner, "test") {
            Some(Yaml::Text(t)) => {
                return Some((t.clone(), input_names_of(inner)));
            },
            _ => {},
        },
        _ => {},
    }
    match (lookup_in(m, "color"), lookup_in(m, "test")) {
        (Some(Yaml::Text(c)), Some(Yaml::Text(t))) => {
            if str_eq(c.as_str(), "mechanical") {
                Some((t.clone(), input_names_of(m)))
            } else {
                None
            }
        },
        _ => None,
    }
}

fn is_reserved(tok: &str) -> (r: bool)
    ensures
        r == reserved(tok@),
{
    str_eq(tok, "threshold") || str_eq(tok, "and") || str_eq(tok, "or") || str_eq(tok, "not")
        || str_eq(tok, "true") || str_eq(tok, "false")
}

proof fn lemma_dot_at(tok: Seq<char>, i: int)
    requires
        0 <= i <= tok.len(),
    ensures
        i <= dot_at(tok, i) <= tok.len(),
        dot_at(tok, i) < tok.len() ==> tok[dot_at(tok, i)] == '.',
        forall|k: int| i <= k < dot_at(tok, i) ==> tok[k] != '.',
    decreases tok.len() - i,
{
    if i < tok.len() && tok[i] != '.' {
        lemma_dot_at(tok, i + 1);
    }
}

/// LEAK-1 / LEAK-2 for one token of a mechanical test.
fn scan_one(
    tok: &str,
    is_call: bool,
    inputs: &Vec<String>,
    judgment: &Vec<String>,
    subject: &Option<String>,
    file: &str,
    path: &str,
    out: &mut Vec<Finding>,
)
    ensures
        fviews(final(out)@) == fviews(old(out)@) + scan_token(
            (tok@, is_call),
            sviews(inputs@),
            sviews(judgment@),
            opt_view(*subject),
            file@,
            path@,
        ),
{
    let cs = chars_of(tok);
    if is_call || is_reserved(tok) || (cs.len() > 0 && '0' <= cs[0] && cs[0] <= '9') {
        proof {
            assert(fviews(old(out)@) + seq![] =~= fviews(old(out)@));
        }
        return;
    }
    let mut d: usize = 0;
    while d < cs.len() && cs[d] != '.'
        invariant
            d <= cs@.len(),
            dot_at(cs@, 0) == dot_at(cs@, d as int),
        decreases cs.len() - d,
    {
        d = d + 1;
    }
    proof {
        lemma_dot_at(cs@, 0);
        if tok@.contains('.') {
            let k = choose|k: int| 0 <= k < tok@.len() && tok@[k] == '.';
            assert(k >= d);
        }
    }
    if d < cs.len() {
        let root = string_of(&cs, 0, d);
        if contains_str(judgment, root.as_str()) {
            let msg = join5(
                "mechanical test computes on `",
                tok,
                "`, rooted in judgment/election name `",
                root.as_str(),
                "` — a field access does not make a judgment mechanical",
            );
            push_finding(out, file, path, Rule::JudgmentComputed, msg);
        } else {
            let at_subject = match subject {
                Some(s) => str_eq(s.as_str(), root.as_str()),
                None => false,
            };
            if !contains_str(inputs, root.as_str()) && !at_subject {
                let msg = join5(
                    "mechanical test references `",
                    tok,
                    "`, rooted in `",
                    root.as_str(),
                    "` which is neither this norm's subject nor a declared colored input",
                );
                push_finding(out, file, path, Rule::UndeclaredInput, msg);
            } else {
                proof {
                    assert(fviews(old(out)@) + seq![] =~= fviews(old(out)@));
                }
            }
        }
        return;
    }
    if contains_str(inputs, tok) {
        proof {
            assert(fviews(old(out)@) + seq![] =~= fviews(old(out)@));
        }
        return;
    }
    if contains_str(judgment, tok) {
        let msg = join3(
            "mechanical test computes on judgment/election name `",
            tok,
            "`, not declared as an opaque input of this test",
        );
        push_finding(out, file, path, Rule::JudgmentComputed, msg);
    } else {
        let msg = join3(
            "mechanical test references `",
            tok,
            "`, neither a subject field (`subject.field`) nor a declared colored input",
        );
        push_finding(out, file, path, Rule::UndeclaredInput, msg);
    }
}

/// Scan a mechanical `test` expression, emitting LEAK-1 / LEAK-2 as
/// appropriate.
fn scan_test(
    test: &str,
    inputs: &Vec<String>,
    judgment: &Vec<String>,
    subject: &Option<String>,
    file: &str,
    path: &str,
    out: &mut Vec<Finding>,
)
    ensures
        fviews(final(out)@) == fviews(old(out)@) + scan_tokens(
            tokens(test@),
            sviews(inputs@),
            sviews(judgment@),
            opt_view(*subject),
            file@,
            path@,
        ),
{
    let toks = tokenize(test);
    let ghost start = fviews(out@);
    let ghost args = (sviews(inputs@), sviews(judgment@), opt_view(*subject));
    let mut i: usize = 0;
    while i < toks.len()
        invariant
            i <= toks@.len(),
            tok_views(toks@) == tokens(test@),
            fviews(out@) == start + scan_tokens(
                tok_views(toks@).take(i as int),
                sviews(inputs@),
                sviews(judgment@),
                opt_view(*subject),
                file@,
                path@,
            ),
        decreases toks.len() - i,
    {
        scan_one(toks[i].0.as_str(), toks[i].1, inputs, judgment, subject, file, path, out);
        proof {
            assert(tok_views(toks@).take(i + 1).drop_last() =~= tok_views(toks@).take(i as int));
            assert(tok_views(toks@)[i as int] == (toks@[i as int].0@, toks@[i as int].1));
        }
        i = i + 1;
    }
    proof {
        assert(tok_views(toks@).take(toks@.len() as int) =~= tok_views(toks@));
    }
}

/// Every declared input must carry one of the three colors: listing a name
/// under `inputs:` is not a declaration if it says nothing about which side of
/// the seam the value comes from.
fn scan_input_colors(m: &Vec<(Yaml, Yaml)>, file: &str, path: &str, out: &mut Vec<Finding>)
    ensures
        fviews(final(out)@) == fviews(old(out)@) + input_colors(m@, file@, path@),
{
    let inner = match lookup_in(m, "mechanical") {
        Some(Yaml::Mapping(i)) => i,
        _ => m,
    };
    let ds = declared_inputs_of(inner);
    let ghost start = fviews(out@);
    let mut i: usize = 0;
    while i < ds.len()
        invariant
            i <= ds@.len(),
            dviews(ds@) == declared_inputs(inner@),
            fviews(out@) == start + input_color_findings(dviews(ds@).take(i as int), file@, path@),
        decreases ds.len() - i,
    {
        proof {
            assert(dviews(ds@).take(i + 1).drop_last() =~= dviews(ds@).take(i as int));
        }
        if !is_colored(&ds[i].1) {
            let name = ds[i].0.as_str();
            let at = join3(path, ".inputs.", name);
            let msg = match &ds[i].1 {
                Some(c) => join5(
                    "input `",
                    name,
                    "` is declared with color `",
                    c.as_str(),
                    "` — must be one of mechanical | judgment | election",
                ),
                None => join3(
                    "input `",
                    name,
                    "` is declared with no color — listing a name under `inputs:` does not say which side of the seam its value comes from",
                ),
            };
            push_finding(out, file, at.as_str(), Rule::UndeclaredInput, msg);
        }
        proof {
            assert(fviews(out@) =~= start + input_color_findings(dviews(ds@).take(i + 1), file@, path@));
        }
        i = i + 1;
    }
    proof {
        assert(dviews(ds@).take(ds@.len() as int) =~= dviews(ds@));
    }
}

/// LEAK-4 for one commitment field.
fn scan_field_color(c: &Vec<(Yaml, Yaml)>, field: &str, file: &str, path: &str, out: &mut Vec<Finding>)
    ensures
        fviews(final(out)@) == fviews(old(out)@) + field_color(c@, field@, file@, path@),
{
    match lookup_in(c, field) {
        None => {
            proof {
                assert(fviews(old(out)@) + seq![] =~= fviews(old(out)@));
            }
        },
        Some(value) => {
            let color = match value {
                Yaml::Mapping(_) => value.str_field("color"),
                _ => None,
            };
            if !is_colored(&color) {
                let at = join3(path, ".commitment.", field);
                let msg = match &color {
                    Some(k) => join5(
                        "commitment `",
                        field,
                        "` declares color `",
                        k.as_str(),
                        "` — must be one of mechanical | judgment | election",
                    ),
                    None => join3(
                        "commitment `",
                        field,
                        "` declares no color — whether a method is an open choice or is prescribed by the standard is standard-relative (spike 2, N1), so the norm must say which",
                    ),
                };
                push_finding(out, file, at.as_str(), Rule::UncoloredCommitmentField, msg);
            } else {
                proof {
                    assert(fviews(old(out)@) + seq![] =~= fviews(old(out)@));
                }
            }
        },
    }
}

/// A commitment's `method`/`measure` must declare which side of the seam it
/// falls on.
fn scan_commitment_colors(m: &Vec<(Yaml, Yaml)>, file: &str, path: &str, out: &mut Vec<Finding>)
    ensures
        fviews(final(out)@) == fviews(old(out)@) + commitment_colors(m@, file@, path@),
{
    match lookup_in(m, "commitment") {
        Some(Yaml::Mapping(c)) => {
            let ghost start = fviews(out@);
            scan_field_color(c, "method", file, path, out);
            scan_field_color(c, "measure", file, path, out);
            proof {
                assert(fviews(out@) =~= start + commitment_colors(m@, file@, path@));
            }
        },
        _ => {
            proof {
                assert(fviews(old(out)@) + seq![] =~= fviews(old(out)@));
            }
        },
    }
}

/// Every leak reported at one mapping node, its children aside.
fn scan_node(
    m: &Vec<(Yaml, Yaml)>,
    file: &str,
    path: &str,
    judgment: &Vec<String>,
    subject: &Option<String>,
    out: &mut Vec<Finding>,
)
    ensures
        fviews(final(out)@) == fviews(old(out)@) + node_findings(
            m@,
            file@,
            path@,
            sviews(judgment@),
            opt_view(*subject),
        ),
{
    let ghost start = fviews(out@);
    match mechanical_test_of(m) {
        Some((test, inputs)) => {
            scan_test(test.as_str(), &inputs, judgment, subject, file, path, out);
            scan_input_colors(m, file, path, out);
        },
        None => {},
    }
    let ghost mid = fviews(out@);
    scan_commitment_colors(m, file, path, out);
    let ghost mid2 = fviews(out@);
    if aggregation(m) && (contains_key(m, "test") || contains_key(m, "formula")) {
        push_finding(
            out,
            file,
            path,
            Rule::FakedAggregation,
            "judgment-aggregation carries a formula/test — a weighed judgment faked as a mechanical combination rule".to_owned(),
        );
    }
    proof {
        assert(fviews(out@) =~= mid2 + faked(m@, file@, path@));
        assert(fviews(out@) =~= start + node_findings(m@, file@, path@, sviews(judgment@), opt_view(*subject)));
    }
}

/// Recursively walk, emitting the findings at each offending node. `subject`
/// carries the enclosing norm's `subject:` down the tree — a dotted name is
/// only seam data if it is rooted in the record the norm ranges over.
fn walk_node(
    v: &Yaml,
    file: &str,
    path: &str,
    judgment: &Vec<String>,
    subject: &Option<String>,
    out: &mut Vec<Finding>,
)
    ensures
        fviews(final(out)@) == fviews(old(out)@) + walk(
            *v,
            file@,
            path@,
            sviews(judgment@),
            opt_view(*subject),
        ),
    decreases v,
{
    let ghost start = fviews(out@);
    match v {
        Yaml::Mapping(m) => {
            let subj: Option<String> = match lookup_in(m, "subject") {
                Some(Yaml::Text(s)) => Some(s.clone()),
                _ => clone_opt(subject),
            };
            scan_node(m, file, path, judgment, &subj, out);
            let ghost mid = fviews(out@);
            let mut i: usize = 0;
            while i < m.len()
                invariant
                    i <= m@.len(),
                    *v == Yaml::Mapping(*m),
                    opt_view(subj) == subject_at(m@, opt_view(*subject)),
                    fviews(out@) == mid + walk_entries(
                        m@.take(i as int),
                        file@,
                        path@,
                        sviews(judgment@),
                        opt_view(subj),
                    ),
                decreases m.len() - i,
            {
                let seg = key_str(&m[i].0);
                let child = child_path_of(path, seg.as_str());
                proof {
                    crate::yaml::lemma_entry_below(*v, *m, i as int);
                }
                walk_node(&m[i].1, file, child.as_str(), judgment, &subj, out);
                proof {
                    assert(m@.take(i + 1).drop_last() =~= m@.take(i as int));
                }
                i = i + 1;
            }
            proof {
                assert(m@.take(m@.len() as int) =~= m@);
            }
        },
        Yaml::Sequence(s) => {
            let mut i: usize = 0;
            while i < s.len()
                invariant
                    i <= s@.len(),
                    *v == Yaml::Sequence(*s),
                    fviews(out@) == start + walk_items(
                        s@.take(i as int),
                        file@,
                        path@,
                        sviews(judgment@),
                        opt_view(*subject),
                    ),
                decreases s.len() - i,
            {
                let child = index_path_of(path, i);
                proof {
                    crate::yaml::lemma_item_below(*v, *s, i as int);
                }
                walk_node(&s[i], file, child.as_str(), judgment, subject, out);
                proof {
                    assert(s@.take(i + 1).drop_last() =~= s@.take(i as int));
                }
                i = i + 1;
            }
            proof {
                assert(s@.take(s@.len() as int) =~= s@);
            }
        },
        _ => {
            proof {
                assert(fviews(old(out)@) + seq![] =~= fviews(old(out)@));
            }
        },
    }
}

/// Run check 1 over the parsed document, appending findings.
pub fn check_leaks(doc: &Yaml, file: &str, out: &mut Vec<Finding>)
    ensures
        fviews(final(out)@) == fviews(old(out)@) + leak_findings(*doc, file@),
{
    let mut judgment: Vec<String> = Vec::new();
    collect_judgment_names(doc, &mut judgment);
    proof {
        assert(sviews(judgment@) =~= judgment_names(*doc));
    }
    let root = String::new();
    walk_node(doc, file, root.as_str(), &judgment, &None, out);
}


// ---------------------------------------------------------------------------
// Check 1 reports LEAK rules only.

proof fn lemma_scan_rules(
    toks: Seq<(Seq<char>, bool)>,
    inputs: Seq<Seq<char>>,
    judgment: Seq<Seq<char>>,
    subject: Option<Seq<char>>,
    file: Seq<char>,
    path: Seq<char>,
)
    ensures
        rules_in(scan_tokens(toks, inputs, judgment, subject, file, path), Family::Leak),
    decreases toks.len(),
{
    broadcast use group_rules_in;
    if toks.len() > 0 {
        lemma_scan_rules(toks.drop_last(), inputs, judgment, subject, file, path);
        let last = scan_token(toks.last(), inputs, judgment, subject, file, path);
        assert(rules_in(last, Family::Leak));
    }
}

proof fn lemma_input_color_rules(ds: Seq<(Seq<char>, Option<Seq<char>>)>, file: Seq<char>, path: Seq<char>)
    ensures
        rules_in(input_color_findings(ds, file, path), Family::Leak),
    decreases ds.len(),
{
    broadcast use group_rules_in;
    if ds.len() > 0 {
        lemma_input_color_rules(ds.drop_last(), file, path);
    }
}

proof fn lemma_node_rules(
    m: Seq<(Yaml, Yaml)>,
    file: Seq<char>,
    path: Seq<char>,
    judgment: Seq<Seq<char>>,
    subject: Option<Seq<char>>,
)
    ensures
        rules_in(node_findings(m, file, path, judgment, subject), Family::Leak),
{
    broadcast use group_rules_in;
    match mechanical_test(m) {
        Some((test, inputs)) => {
            lemma_scan_rules(tokens(test), inputs, judgment, subject, file, path);
            let inner = match lookup(m, "mechanical"@) {
                Some(Yaml::Mapping(i)) => i@,
                _ => m,
            };
            lemma_input_color_rules(declared_inputs(inner), file, path);
        },
        None => {},
    }
    let c = commitment_colors(m, file, path);
    assert(rules_in(c, Family::Leak));
    assert(rules_in(faked(m, file, path), Family::Leak));
}

proof fn lemma_walk_rules(
    v: Yaml,
    file: Seq<char>,
    path: Seq<char>,
    judgment: Seq<Seq<char>>,
    subject: Option<Seq<char>>,
)
    ensures
        rules_in(walk(v, file, path, judgment, subject), Family::Leak),
    decreases v,
{
    broadcast use group_rules_in;
    match v {
        Yaml::Mapping(m) => {
            let subj = subject_at(m@, subject);
            lemma_node_rules(m@, file, path, judgment, subj);
            lemma_walk_entries_rules(m@, file, path, judgment, subj);
        },
        Yaml::Sequence(s) => lemma_walk_items_rules(s@, file, path, judgment, subject),
        _ => {},
    }
}

proof fn lemma_walk_entries_rules(
    es: Seq<(Yaml, Yaml)>,
    file: Seq<char>,
    path: Seq<char>,
    judgment: Seq<Seq<char>>,
    subject: Option<Seq<char>>,
)
    ensures
        rules_in(walk_entries(es, file, path, judgment, subject), Family::Leak),
    decreases es,
{
    broadcast use group_rules_in;
    if es.len() > 0 {
        lemma_walk_entries_rules(es.drop_last(), file, path, judgment, subject);
        lemma_walk_rules(es.last().1, file, child_path(path, key_text(es.last().0)), judgment, subject);
    }
}

proof fn lemma_walk_items_rules(
    items: Seq<Yaml>,
    file: Seq<char>,
    path: Seq<char>,
    judgment: Seq<Seq<char>>,
    subject: Option<Seq<char>>,
)
    ensures
        rules_in(walk_items(items, file, path, judgment, subject), Family::Leak),
    decreases items,
{
    broadcast use group_rules_in;
    if items.len() > 0 {
        lemma_walk_items_rules(items.drop_last(), file, path, judgment, subject);
        lemma_walk_rules(items.last(), file, index_path(path, (items.len() - 1) as nat), judgment, subject);
    }
}

/// Check 1 reports LEAK rules and nothing else.
pub proof fn lemma_leak_rules(doc: Yaml, file: Seq<char>)
    ensures
        rules_in(leak_findings(doc, file), Family::Leak),
{
    lemma_walk_rules(doc, file, seq![], judgment_names(doc), None);
}


/// A mechanical test never computes silently on a judgment: when the scan of
/// its tokens reports nothing, every name it computes with (calls, reserved
/// words and numbers aside) is declared — a bare name as one of the test's
/// inputs, a field access as a field of an input or of the subject — and no
/// field access is rooted in a judgment or election name.
pub proof fn lemma_clean_scan(
    toks: Seq<(Seq<char>, bool)>,
    inputs: Seq<Seq<char>>,
    judgment: Seq<Seq<char>>,
    subject: Option<Seq<char>>,
    file: Seq<char>,
    path: Seq<char>,
)
    requires
        scan_tokens(toks, inputs, judgment, subject, file, path).len() == 0,
    ensures
        forall|k: int|
            0 <= k < toks.len() && !(#[trigger] toks[k]).1 && !reserved(toks[k].0) && !numeric(toks[k].0) ==> if toks[k].0.contains('.') {
                &&& !judgment.contains(root_of(toks[k].0))
                &&& inputs.contains(root_of(toks[k].0)) || subject == Some(root_of(toks[k].0))
            } else {
                inputs.contains(toks[k].0)
            },
    decreases toks.len(),
{
    if toks.len() > 0 {
        lemma_clean_scan(toks.drop_last(), inputs, judgment, subject, file, path);
        assert forall|k: int|
            0 <= k < toks.len() && !(#[trigger] toks[k]).1 && !reserved(toks[k].0) && !numeric(toks[k].0) implies if toks[k].0.contains('.') {
                &&& !judgment.contains(root_of(toks[k].0))
                &&& inputs.contains(root_of(toks[k].0)) || subject == Some(root_of(toks[k].0))
            } else {
                inputs.contains(toks[k].0)
            } by {
            if k < toks.len() - 1 {
                assert(toks.drop_last()[k] == toks[k]);
            } else {
                assert(toks.last() == toks[k]);
            }
        }
    }
}


// ---------------------------------------------------------------------------
// The file label reaches nothing but the findings' file.

proof fn lemma_scan_relabel(
    toks: Seq<(Seq<char>, bool)>,
    inputs: Seq<Seq<char>>,
    judgment: Seq<Seq<char>>,
    subject: Option<Seq<char>>,
    file: Seq<char>,
    g: Seq<char>,
    path: Seq<char>,
)
    ensures
        scan_tokens(toks, inputs, judgment, subject, g, path) == relabel(
            scan_tokens(toks, inputs, judgment, subject, file, path),
            g,
        ),
    decreases toks.len(),
{
    broadcast use group_relabel;
    if toks.len() > 0 {
        lemma_scan_relabel(toks.drop_last(), inputs, judgment, subject, file, g, path);
        assert(scan_token(toks.last(), inputs, judgment, subject, g, path) == relabel(
            scan_token(toks.last(), inputs, judgment, subject, file, path),
            g,
        ));
    }
}

proof fn lemma_input_color_relabel(ds: Seq<(Seq<char>, Option<Seq<char>>)>, file: Seq<char>, g: Seq<char>, path: Seq<char>)
    ensures
        input_color_findings(ds, g, path) == relabel(input_color_findings(ds, file, path), g),
    decreases ds.len(),
{
    broadcast use group_relabel;
    if ds.len() > 0 {
        lemma_input_color_relabel(ds.drop_last(), file, g, path);
    }
}

proof fn lemma_node_relabel(
    m: Seq<(Yaml, Yaml)>,
    file: Seq<char>,
    g: Seq<char>,
    path: Seq<char>,
    judgment: Seq<Seq<char>>,
    subject: Option<Seq<char>>,
)
    ensures
        node_findings(m, g, path, judgment, subject) == relabel(node_findings(m, file, path, judgment, subject), g),
{
    broadcast use group_relabel;
    match mechanical_test(m) {
        Some((test, inputs)) => {
            lemma_scan_relabel(tokens(test), inputs, judgment, subject, file, g, path);
            let inner = match lookup(m, "mechanical"@) {
                Some(Yaml::Mapping(i)) => i@,
                _ => m,
            };
            lemma_input_color_relabel(declared_inputs(inner), file, g, path);
        },
        None => {},
    }
    let c = commitment_colors(m, g, path);
    assert(c == relabel(commitment_colors(m, file, path), g)) by {
        match lookup(m, "commitment"@) {
            Some(Yaml::Mapping(cm)) => {
                assert(field_color(cm@, "method"@, g, path) == relabel(field_color(cm@, "method"@, file, path), g));
                assert(field_color(cm@, "measure"@, g, path) == relabel(field_color(cm@, "measure"@, file, path), g));
            },
            _ => {},
        }
    }
    assert(faked(m, g, path) == relabel(faked(m, file, path), g));
}

proof fn lemma_walk_relabel(
    v: Yaml,
    file: Seq<char>,
    g: Seq<char>,
    path: Seq<char>,
    judgment: Seq<Seq<char>>,
    subject: Option<Seq<char>>,
)
    ensures
        walk(v, g, path, judgment, subject) == relabel(walk(v, file, path, judgment, subject), g),
    decreases v,
{
    broadcast use group_relabel;
    match v {
        Yaml::Mapping(m) => {
            let subj = subject_at(m@, subject);
            lemma_node_relabel(m@, file, g, path, judgment, subj);
            lemma_walk_entries_relabel(m@, file, g, path, judgment, subj);
        },
        Yaml::Sequence(s) => lemma_walk_items_relabel(s@, file, g, path, judgment, subject),
        _ => {},
    }
}

proof fn lemma_walk_entries_relabel(
    es: Seq<(Yaml, Yaml)>,
    file: Seq<char>,
    g: Seq<char>,
    path: Seq<char>,
    judgment: Seq<Seq<char>>,
    subject: Option<Seq<char>>,
)
    ensures
        walk_entries(es, g, path, judgment, subject) == relabel(walk_entries(es, file, path, judgment, subject), g),
    decreases es,
{
    broadcast use group_relabel;
    if es.len() > 0 {
        lemma_walk_entries_relabel(es.drop_last(), file, g, path, judgment, subject);
        lemma_walk_relabel(es.last().1, file, g, child_path(path, key_text(es.last().0)), judgment, subject);
    }
}

proof fn lemma_walk_items_relabel(
    items: Seq<Yaml>,
    file: Seq<char>,
    g: Seq<char>,
    path: Seq<char>,
    judgment: Seq<Seq<char>>,
    subject: Option<Seq<char>>,
)
    ensures
        walk_items(items, g, path, judgment, subject) == relabel(walk_items(items, file, path, judgment, subject), g),
    decreases items,
{
    broadcast use group_relabel;
    if items.len() > 0 {
        lemma_walk_items_relabel(items.drop_last(), file, g, path, judgment, subject);
        lemma_walk_relabel(items.last(), file, g, index_path(path, (items.len() - 1) as nat), judgment, subject);
    }
}

/// Check 1 run under another label reports the same findings, relabelled.
pub proof fn lemma_leak_relabel(doc: Yaml, file: Seq<char>, g: Seq<char>)
    ensures
        leak_findings(doc, g) == relabel(leak_findings(doc, file), g),
{
    lemma_walk_relabel(doc, file, g, seq![], judgment_names(doc), None);
}

} // verus!
