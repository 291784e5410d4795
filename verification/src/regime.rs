//! Check 6 — regime hygiene.
//!
//! A norm applies only within its `regime`. Norms inherit the document's
//! `regime:` unless they override it. The representational facet, checkable
//! statically, is that a norm's own regime-stamped artifacts belong to its
//! regime:
//!
//! - **REGIME-1 — undetermined regime.** A norm with no effective regime
//!   (neither its own nor an inherited document `regime:`).
//! - **REGIME-2 — cross-regime artifact.** A `regime`-stamped node inside a
//!   norm whose regime differs.
//!
//! Cross-regime `defeats` edges are not flagged here.

use vstd::prelude::*;
use crate::yaml::{Yaml, key_text, str_field, opt_view, str_eq, key_str};
use crate::text::{index_path, index_path_of, dot_path, dot_path_of, join5};
use crate::rule::{Family, Finding, FindingV, Rule, finding, fviews, group_relabel, group_rules_in, push_finding, relabel, rules_in};
use crate::norm::{norms_of, norms, norm_path};

verus! {

pub open spec fn cross_msg(regime: Seq<char>, effective: Seq<char>) -> Seq<char> {
    "artifact stamped `@"@ + regime + "` in a norm scoped to `"@ + effective
        + "` — a bright-line from a regime this norm does not inhabit"@
}

pub open spec fn undetermined_msg() -> Seq<char> {
    "norm has no regime and the document declares none — norms are regime-indexed (DESIGN §3)"@
}

/// REGIME-2 over a norm's subtree: every mapping whose `regime` is not the
/// norm's effective regime.
pub open spec fn regime_walk(v: Yaml, path: Seq<char>, effective: Seq<char>, file: Seq<char>) -> Seq<FindingV>
    decreases v,
{
    match v {
        Yaml::Mapping(m) => {
            let here = match str_field(v, "regime"@) {
                Some(r) => if r != effective {
                    seq![finding(file, path, Rule::CrossRegimeArtifact, cross_msg(r, effective))]
                } else {
                    seq![]
                },
                None => seq![],
            };
            here + regime_entries(m@, path, effective, file)
        },
        Yaml::Sequence(s) => regime_items(s@, path, effective, file),
        _ => seq![],
    }
}

pub open spec fn regime_entries(es: Seq<(Yaml, Yaml)>, path: Seq<char>, effective: Seq<char>, file: Seq<char>) -> Seq<FindingV>
    decreases es,
{
    if es.len() == 0 {
        seq![]
    } else {
        regime_entries(es.drop_last(), path, effective, file) + regime_walk(
            es.last().1,
            dot_path(path, key_text(es.last().0)),
            effective,
            file,
        )
    }
}

pub open spec fn regime_items(items: Seq<Yaml>, path: Seq<char>, effective: Seq<char>, file: Seq<char>) -> Seq<FindingV>
    decreases items,
{
    if items.len() == 0 {
        seq![]
    } else {
        regime_items(items.drop_last(), path, effective, file) + regime_walk(
            items.last(),
            index_path(path, (items.len() - 1) as nat),
            effective,
            file,
        )
    }
}

/// The regime a norm is scoped to: its own, else the document's.
pub open spec fn effective_regime(norm: Yaml, doc_regime: Option<Seq<char>>) -> Option<Seq<char>> {
    match str_field(norm, "regime"@) {
        Some(r) => Some(r),
        None => doc_regime,
    }
}

/// Check 6 for the `i`-th norm.
pub open spec fn regime_norm(norm: Yaml, i: nat, doc_regime: Option<Seq<char>>, file: Seq<char>) -> Seq<FindingV> {
    if !(norm is Mapping) {
        seq![]
    } else {
        match effective_regime(norm, doc_regime) {
            None => seq![finding(file, norm_path(i), Rule::UndeterminedRegime, undetermined_msg())],
            Some(e) => regime_walk(norm, norm_path(i), e, file),
        }
    }
}

pub open spec fn regime_all(ns: Seq<Yaml>, doc_regime: Option<Seq<char>>, file: Seq<char>) -> Seq<FindingV>
    decreases ns.len(),
{
    if ns.len() == 0 {
        seq![]
    } else {
        regime_all(ns.drop_last(), doc_regime, file) + regime_norm(
            ns.last(),
            (ns.len() - 1) as nat,
            doc_regime,
            file,
        )
    }
}

/// Check 6 over a document: each norm of its `norms:` list, in order.
pub open spec fn regime_findings(doc: Yaml, file: Seq<char>) -> Seq<FindingV> {
    match norms_of(doc) {
        Some(ns) => regime_all(ns, str_field(doc, "regime"@), file),
        None => seq![],
    }
}

/// Walk a norm's subtree; flag any regime-stamped node whose regime is not the
/// norm's effective regime.
fn walk(v: &Yaml, path: &str, effective: &str, file: &str, out: &mut Vec<Finding>)
    ensures
        fviews(final(out)@) == fviews(old(out)@) + regime_walk(*v, path@, effective@, file@),
    decreases v,
{
    let ghost start = fviews(out@);
    match v {
        Yaml::Mapping(m) => {
            match v.str_field("regime") {
                Some(r) => {
                    if !str_eq(r.as_str(), effective) {
                        let msg = join5(
                            "artifact stamped `@",
                            r.as_str(),
                            "` in a norm scoped to `",
                            effective,
                            "` — a bright-line from a regime this norm does not inhabit",
                        );
                        push_finding(out, file, path, Rule::CrossRegimeArtifact, msg);
                    }
                },
                None => {},
            }
            let ghost mid = fviews(out@);
            let mut i: usize = 0;
            while i < m.len()
                invariant
                    i <= m@.len(),
                    *v == Yaml::Mapping(*m),
                    fviews(out@) == mid + regime_entries(m@.take(i as int), path@, effective@, file@),
                decreases m.len() - i,
            {
                proof {
                    assert(m@.take(i + 1).drop_last() =~= m@.take(i as int));
                    crate::yaml::lemma_entry_below(*v, *m, i as int);
                }
                let seg = key_str(&m[i].0);
                let child = dot_path_of(path, seg.as_str());
                walk(&m[i].1, child.as_str(), effective, file, out);
                i = i + 1;
            }
            proof {
                assert(m@.take(m@.len() as int) =~= m@);
                assert(fviews(out@) =~= start + regime_walk(*v, path@, effective@, file@));
            }
        },
        Yaml::Sequence(s) => {
            let mut i: usize = 0;
            while i < s.len()
                invariant
                    i <= s@.len(),
                    *v == Yaml::Sequence(*s),
                    fviews(out@) == start + regime_items(s@.take(i as int), path@, effective@, file@),
                decreases s.len() - i,
            {
                proof {
                    assert(s@.take(i + 1).drop_last() =~= s@.take(i as int));
                    crate::yaml::lemma_item_below(*v, *s, i as int);
                }
                let child = index_path_of(path, i);
                walk(&s[i], child.as_str(), effective, file, out);
                i = i + 1;
            }
            proof {
                assert(s@.take(s@.len() as int) =~= s@);
            }
        },
        _ => {
            proof {
                assert(start + seq![] =~= start);
            }
        },
    }
}

/// Run check 6 over the parsed document, appending findings.
pub fn check_regime(doc: &Yaml, file: &str, out: &mut Vec<Finding>)
    ensures
        fviews(final(out)@) == fviews(old(out)@) + regime_findings(*doc, file@),
{
    let doc_regime = doc.str_field("regime");
    match norms(doc) {
        Some(ns) => {
            let ghost start = fviews(out@);
            let mut i: usize = 0;
            while i < ns.len()
                invariant
                    i <= ns@.len(),
                    norms_of(*doc) == Some(ns@),
                    opt_view(doc_regime) == str_field(*doc, "regime"@),
                    fviews(out@) == start + regime_all(ns@.take(i as int), opt_view(doc_regime), file@),
                decreases ns.len() - i,
            {
                proof {
                    assert(ns@.take(i + 1).drop_last() =~= ns@.take(i as int));
                }
                let norm = &ns[i];
                let ghost before = fviews(out@);
                match norm {
                    Yaml::Mapping(_) => {
                        let path = index_path_of("norms", i);
                        let effective = match norm.str_field("regime") {
                            Some(r) => Some(r),
                            None => match &doc_regime {
                                Some(d) => Some(d.clone()),
                                None => None,
                            },
                        };
                        match effective {
                            None => push_finding(
                                out,
                                file,
                                path.as_str(),
                                Rule::UndeterminedRegime,
                                "norm has no regime and the document declares none — norms are regime-indexed (DESIGN §3)".to_owned(),
                            ),
                            Some(e) => walk(norm, path.as_str(), e.as_str(), file, out),
                        }
                    },
                    _ => {},
                }
                proof {
                    assert(fviews(out@) =~= before + regime_norm(ns@[i as int], i as nat, opt_view(doc_regime), file@));
                }
                i = i + 1;
            }
            proof {
                assert(ns@.take(ns@.len() as int) =~= ns@);
            }
        },
        None => {
            proof {
                assert(fviews(old(out)@) + seq![] =~= fviews(old(out)@));
            }
        },
    }
}


proof fn lemma_walk_rules(v: Yaml, path: Seq<char>, effective: Seq<char>, file: Seq<char>)
    ensures
        rules_in(regime_walk(v, path, effective, file), Family::Regime),
    decreases v,
{
    broadcast use group_rules_in;
    match v {
        Yaml::Mapping(m) => lemma_entries_rules(m@, path, effective, file),
        Yaml::Sequence(s) => lemma_items_rules(s@, path, effective, file),
        _ => {},
    }
}

proof fn lemma_entries_rules(es: Seq<(Yaml, Yaml)>, path: Seq<char>, effective: Seq<char>, file: Seq<char>)
    ensures
        rules_in(regime_entries(es, path, effective, file), Family::Regime),
    decreases es,
{
    broadcast use group_rules_in;
    if es.len() > 0 {
        lemma_entries_rules(es.drop_last(), path, effective, file);
        lemma_walk_rules(es.last().1, dot_path(path, key_text(es.last().0)), effective, file);
    }
}

proof fn lemma_items_rules(items: Seq<Yaml>, path: Seq<char>, effective: Seq<char>, file: Seq<char>)
    ensures
        rules_in(regime_items(items, path, effective, file), Family::Regime),
    decreases items,
{
    broadcast use group_rules_in;
    if items.len() > 0 {
        lemma_items_rules(items.drop_last(), path, effective, file);
        lemma_walk_rules(items.last(), index_path(path, (items.len() - 1) as nat), effective, file);
    }
}

proof fn lemma_regime_all_rules(ns: Seq<Yaml>, doc_regime: Option<Seq<char>>, file: Seq<char>)
    ensures
        rules_in(regime_all(ns, doc_regime, file), Family::Regime),
    decreases ns.len(),
{
    broadcast use group_rules_in;
    if ns.len() > 0 {
        lemma_regime_all_rules(ns.drop_last(), doc_regime, file);
        let norm = ns.last();
        match effective_regime(norm, doc_regime) {
            Some(e) => lemma_walk_rules(norm, norm_path((ns.len() - 1) as nat), e, file),
            None => {},
        }
    }
}

/// Check 6 reports REGIME rules and nothing else.
pub proof fn lemma_regime_rules(doc: Yaml, file: Seq<char>)
    ensures
        rules_in(regime_findings(doc, file), Family::Regime),
{
    match norms_of(doc) {
        Some(ns) => lemma_regime_all_rules(ns, str_field(doc, "regime"@), file),
        None => {},
    }
}


/// Norms are regime-indexed: a norm with neither a regime of its own nor one
/// from its document gets exactly REGIME-1, and a norm check 6 is silent on
/// has an effective regime. A norm's own `regime:` is its effective regime, so
/// the stamp that scopes the norm is never itself reported as foreign.
pub proof fn lemma_regime_indexed(norm: Yaml, i: nat, doc_regime: Option<Seq<char>>, file: Seq<char>)
    requires
        norm is Mapping,
    ensures
        effective_regime(norm, doc_regime) is None ==> regime_norm(norm, i, doc_regime, file) == seq![
            finding(file, norm_path(i), Rule::UndeterminedRegime, undetermined_msg()),
        ],
        regime_norm(norm, i, doc_regime, file).len() == 0 ==> effective_regime(norm, doc_regime) is Some,
        str_field(norm, "regime"@) is Some ==> effective_regime(norm, doc_regime) == str_field(norm, "regime"@),
{
}


proof fn lemma_walk_relabel(v: Yaml, path: Seq<char>, effective: Seq<char>, file: Seq<char>, g: Seq<char>)
    ensures
        regime_walk(v, path, effective, g) == relabel(regime_walk(v, path, effective, file), g),
    decreases v,
{
    broadcast use group_relabel;
    match v {
        Yaml::Mapping(m) => lemma_entries_relabel(m@, path, effective, file, g),
        Yaml::Sequence(s) => lemma_items_relabel(s@, path, effective, file, g),
        _ => {},
    }
}

proof fn lemma_entries_relabel(es: Seq<(Yaml, Yaml)>, path: Seq<char>, effective: Seq<char>, file: Seq<char>, g: Seq<char>)
    ensures
        regime_entries(es, path, effective, g) == relabel(regime_entries(es, path, effective, file), g),
    decreases es,
{
    broadcast use group_relabel;
    if es.len() > 0 {
        lemma_entries_relabel(es.drop_last(), path, effective, file, g);
        lemma_walk_relabel(es.last().1, dot_path(path, key_text(es.last().0)), effective, file, g);
    }
}

proof fn lemma_items_relabel(items: Seq<Yaml>, path: Seq<char>, effective: Seq<char>, file: Seq<char>, g: Seq<char>)
    ensures
        regime_items(items, path, effective, g) == relabel(regime_items(items, path, effective, file), g),
    decreases items,
{
    broadcast use group_relabel;
    if items.len() > 0 {
        lemma_items_relabel(items.drop_last(), path, effective, file, g);
        lemma_walk_relabel(items.last(), index_path(path, (items.len() - 1) as nat), effective, file, g);
    }
}

proof fn lemma_regime_all_relabel(ns: Seq<Yaml>, doc_regime: Option<Seq<char>>, file: Seq<char>, g: Seq<char>)
    ensures
        regime_all(ns, doc_regime, g) == relabel(regime_all(ns, doc_regime, file), g),
    decreases ns.len(),
{
    broadcast use group_relabel;
    if ns.len() > 0 {
        lemma_regime_all_relabel(ns.drop_last(), doc_regime, file, g);
        let norm = ns.last();
        match effective_regime(norm, doc_regime) {
            Some(e) => lemma_walk_relabel(norm, norm_path((ns.len() - 1) as nat), e, file, g),
            None => {},
        }
    }
}

/// Check 6 run under another label reports the same findings, relabelled.
pub proof fn lemma_regime_relabel(doc: Yaml, file: Seq<char>, g: Seq<char>)
    ensures
        regime_findings(doc, g) == relabel(regime_findings(doc, file), g),
{
    broadcast use group_relabel;
    match norms_of(doc) {
        Some(ns) => lemma_regime_all_relabel(ns, str_field(doc, "regime"@), file, g),
        None => {},
    }
}

} // verus!
