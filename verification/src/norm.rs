//! What several checks read of a norm in the same way: colors, aggregations,
//! citation source types, and the n-ary `cases:` branches.

use vstd::prelude::*;
use crate::yaml::{Yaml, deref_opt, get, has_key, lookup_in, opt_view, str_eq};
use crate::text::{index_path, index_path_of};

verus! {

/// A color on the judgment side of the seam.
pub open spec fn judgment_color(c: Seq<char>) -> bool {
    c == "judgment"@ || c == "election"@
}

/// One of the three colors.
pub open spec fn three_color(c: Seq<char>) -> bool {
    c == "mechanical"@ || judgment_color(c)
}

/// A color that is present and one of the three.
pub open spec fn colored(c: Option<Seq<char>>) -> bool {
    match c {
        Some(x) => three_color(x),
        None => false,
    }
}

/// True for a color on the judgment side of the seam.
pub fn is_judgment_color(c: &str) -> (r: bool)
    ensures
        r == judgment_color(c@),
{
    str_eq(c, "judgment") || str_eq(c, "election")
}

/// True for a present color that is one of the three.
pub fn is_colored(c: &Option<String>) -> (r: bool)
    ensures
        r == colored(opt_view(*c)),
{
    match c {
        Some(x) => str_eq(x.as_str(), "mechanical") || is_judgment_color(x.as_str()),
        None => false,
    }
}

/// An aggregation node: a mapping that lists `factors`. Recognized by that
/// alone, so that dropping its citation cannot make it stop being one.
pub open spec fn is_aggregation(m: Seq<(Yaml, Yaml)>) -> bool {
    has_key(m, "factors"@)
}

/// Whether the mapping is an aggregation node.
pub fn aggregation(m: &Vec<(Yaml, Yaml)>) -> (r: bool)
    ensures
        r == is_aggregation(m@),
{
    lookup_in(m, "factors").is_some()
}

/// Whether the mapping holds the string key `key`.
pub fn contains_key(m: &Vec<(Yaml, Yaml)>, key: &str) -> (r: bool)
    ensures
        r == has_key(m@, key@),
{
    lookup_in(m, key).is_some()
}

/// One of the four declared `grounds.source` types.
pub open spec fn source_type(s: Seq<char>) -> bool {
    ||| s == "standard-criterion"@
    ||| s == "world-fact"@
    ||| s == "legal-fact"@
    ||| s == "entity-election"@
}

/// A citation source that is present and one of the four types.
pub open spec fn source_is_valid(s: Option<Seq<char>>) -> bool {
    match s {
        Some(x) => source_type(x),
        None => false,
    }
}

/// Whether the source is present and one of the four types.
pub fn valid_source(s: &Option<String>) -> (r: bool)
    ensures
        r == source_is_valid(opt_view(*s)),
{
    match s {
        Some(x) => {
            let x = x.as_str();
            str_eq(x, "standard-criterion") || str_eq(x, "world-fact") || str_eq(x, "legal-fact")
                || str_eq(x, "entity-election")
        },
        None => false,
    }
}

/// A document's `norms:` list, if it has one.
pub open spec fn norms_of(doc: Yaml) -> Option<Seq<Yaml>> {
    match get(doc, "norms"@) {
        Some(Yaml::Sequence(norms)) => Some(norms@),
        _ => None,
    }
}

/// A document's `norms:` list, if it has one.
pub fn norms(doc: &Yaml) -> (r: Option<&Vec<Yaml>>)
    ensures
        match r {
            Some(v) => norms_of(*doc) == Some(v@),
            None => norms_of(*doc) is None,
        },
{
    match doc.get("norms") {
        Some(Yaml::Sequence(norms)) => Some(norms),
        _ => None,
    }
}

/// The path of the `i`-th norm.
pub open spec fn norm_path(i: nat) -> Seq<char> {
    index_path("norms"@, i)
}

/// The branches of the n-ary form, as `(cases[i], its commitment)`.
pub open spec fn case_list(items: Seq<Yaml>) -> Seq<(Seq<char>, Option<Yaml>)>
    decreases items.len(),
{
    if items.len() == 0 {
        seq![]
    } else {
        case_list(items.drop_last()).push(
            (index_path("cases"@, (items.len() - 1) as nat), get(items.last(), "commitment"@)),
        )
    }
}

/// A norm's `cases:` branches, each with its commitment (none when it is not
/// a list).
pub open spec fn cases_of(norm: Yaml) -> Seq<(Seq<char>, Option<Yaml>)> {
    match get(norm, "cases"@) {
        Some(Yaml::Sequence(list)) => case_list(list@),
        _ => seq![],
    }
}

/// The branches, by the characters of their names.
pub open spec fn case_views(cs: Seq<(String, Option<&Yaml>)>) -> Seq<(Seq<char>, Option<Yaml>)> {
    cs.map_values(|c: (String, Option<&Yaml>)| (c.0@, deref_opt(c.1)))
}

/// A norm's `cases:` branches, each with its commitment.
pub fn cases(norm: &Yaml) -> (r: Vec<(String, Option<&Yaml>)>)
    ensures
        case_views(r@) == cases_of(*norm),
{
    let mut out: Vec<(String, Option<&Yaml>)> = Vec::new();
    match norm.get("cases") {
        Some(Yaml::Sequence(list)) => {
            let mut i: usize = 0;
            while i < list.len()
                invariant
                    i <= list@.len(),
                    case_views(out@) == case_list(list@.take(i as int)),
                decreases list.len() - i,
            {
                let name = index_path_of("cases", i);
                let c = list[i].get("commitment");
                let ghost before = out@;
                out.push((name, c));
                proof {
                    assert(list@.take(i + 1).drop_last() =~= list@.take(i as int));
                    assert(case_views(out@) =~= case_views(before).push((name@, deref_opt(c))));
                }
                i = i + 1;
            }
            proof {
                assert(list@.take(list@.len() as int) =~= list@);
            }
        },
        _ => {},
    }
    out
}

} // verus!
