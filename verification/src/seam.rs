//! Check 5 — termination-at-seam.
//!
//! Every norm's obligation must reach a `commitment` about plain data — the
//! bottom edge where deon hands off to the seam. A norm reaches it through a
//! non-empty `commitment`, a non-empty `modifies`, or its `cases:` branches.
//!
//! - **SEAM-1 — unreached seam.** A norm with neither a `commitment` nor a
//!   `modifies` (nor any case).
//! - **SEAM-2 — empty commitment.** A `commitment` / `modifies` that is present
//!   but empty, or an `otherwise` residual branch — or a `cases:` branch — that
//!   carries no commitment.
//! - **SEAM-3 — mixed branch forms.** A norm that writes both the binary form
//!   (`antecedent` / `commitment` / `otherwise`) and the n-ary `cases:` form:
//!   the path to its commitment is then undefined.

use vstd::prelude::*;
use crate::yaml::{Yaml, get};
use crate::text::{index_path_of, dot_path, dot_path_of, join3, append};
use crate::rule::{Family, Finding, FindingV, Rule, finding, fviews, group_relabel, group_rules_in, push_finding, relabel, rules_in};
use crate::norm::{cases_of, cases, case_views, norms_of, norms, norm_path};

verus! {

/// A value that actually constrains something: a non-empty mapping.
pub open spec fn nonempty(v: Option<Yaml>) -> bool {
    match v {
        Some(Yaml::Mapping(m)) => m@.len() > 0,
        _ => false,
    }
}

fn is_nonempty(v: Option<&Yaml>) -> (r: bool)
    ensures
        r == nonempty(crate::yaml::deref_opt(v)),
{
    match v {
        Some(Yaml::Mapping(m)) => m.len() > 0,
        _ => false,
    }
}

/// The binary-form keys a norm carries, of `antecedent`, `commitment`,
/// `otherwise`, in that order.
pub open spec fn binary_keys(norm: Yaml) -> Seq<Seq<char>> {
    (if get(norm, "antecedent"@) is Some { seq!["antecedent"@] } else { seq![] })
        + (if get(norm, "commitment"@) is Some { seq!["commitment"@] } else { seq![] })
        + (if get(norm, "otherwise"@) is Some { seq!["otherwise"@] } else { seq![] })
}

/// Keys written in backticks and joined by `, `.
pub open spec fn ticked_join(ks: Seq<Seq<char>>) -> Seq<char>
    decreases ks.len(),
{
    if ks.len() == 0 {
        seq![]
    } else if ks.len() == 1 {
        "`"@ + ks[0] + "`"@
    } else {
        ticked_join(ks.drop_last()) + ", `"@ + ks.last() + "`"@
    }
}

pub open spec fn mixed_msg(ks: Seq<Seq<char>>) -> Seq<char> {
    "norm carries `cases:` alongside the binary form ("@ + ticked_join(ks)
        + ") — the two are alternatives, not layers, so the path to its commitment is undefined; write one form or the other (DESIGN §3)"@
}

pub open spec fn unreached_msg() -> Seq<char> {
    "norm reaches no commitment about plain data — it has neither a `commitment` nor a `modifies`, so its obligation leads nowhere"@
}

/// SEAM-2 for each `cases:` branch that carries no commitment.
pub open spec fn case_findings(cs: Seq<(Seq<char>, Option<Yaml>)>, path: Seq<char>, file: Seq<char>) -> Seq<FindingV>
    decreases cs.len(),
{
    if cs.len() == 0 {
        seq![]
    } else {
        case_findings(cs.drop_last(), path, file) + if nonempty(cs.last().1) {
            seq![]
        } else {
            seq![
                finding(
                    file,
                    dot_path(path, cs.last().0),
                    Rule::EmptyCommitment,
                    "case carries no commitment about plain data — this branch of the norm leads nowhere"@,
                ),
            ]
        }
    }
}

/// Check 5 for the `i`-th norm.
pub open spec fn seam_norm(norm: Yaml, i: nat, file: Seq<char>) -> Seq<FindingV> {
    if !(norm is Mapping) {
        seq![]
    } else {
        let path = norm_path(i);
        let commitment = get(norm, "commitment"@);
        let modifies = get(norm, "modifies"@);
        let cs = cases_of(norm);
        let mixed = if get(norm, "cases"@) is Some && binary_keys(norm).len() > 0 {
            seq![finding(file, path, Rule::MixedBranchForms, mixed_msg(binary_keys(norm)))]
        } else {
            seq![]
        };
        let reach = if commitment is None && modifies is None && cs.len() == 0 {
            seq![finding(file, path, Rule::UnreachedSeam, unreached_msg())]
        } else {
            (if commitment is Some && !nonempty(commitment) {
                seq![
                    finding(
                        file,
                        path + ".commitment"@,
                        Rule::EmptyCommitment,
                        "commitment is empty — it constrains no plain data"@,
                    ),
                ]
            } else {
                seq![]
            }) + (if modifies is Some && !nonempty(modifies) {
                seq![
                    finding(
                        file,
                        path + ".modifies"@,
                        Rule::EmptyCommitment,
                        "modifies is empty — it changes no commitment"@,
                    ),
                ]
            } else {
                seq![]
            })
        };
        let other = match get(norm, "otherwise"@) {
            Some(o) => if !nonempty(get(o, "commitment"@)) {
                seq![
                    finding(
                        file,
                        path + ".otherwise"@,
                        Rule::EmptyCommitment,
                        "residual `otherwise` branch carries no commitment about plain data"@,
                    ),
                ]
            } else {
                seq![]
            },
            None => seq![],
        };
        mixed + reach + case_findings(cs, path, file) + other
    }
}

pub open spec fn seam_all(ns: Seq<Yaml>, file: Seq<char>) -> Seq<FindingV>
    decreases ns.len(),
{
    if ns.len() == 0 {
        seq![]
    } else {
        seam_all(ns.drop_last(), file) + seam_norm(ns.last(), (ns.len() - 1) as nat, file)
    }
}

/// Check 5 over a document: each norm of its `norms:` list, in order.
pub open spec fn seam_findings(doc: Yaml, file: Seq<char>) -> Seq<FindingV> {
    match norms_of(doc) {
        Some(ns) => seam_all(ns, file),
        None => seq![],
    }
}

fn mixed_message(norm: &Yaml) -> (r: String)
    ensures
        r@ == mixed_msg(binary_keys(*norm)),
{
    let mut joined = String::new();
    let mut first = true;
    if norm.get("antecedent").is_some() {
        joined = join3("`", "antecedent", "`");
        first = false;
    }
    proof {
        assert(joined@ == ticked_join(if get(*norm, "antecedent"@) is Some { seq!["antecedent"@] } else { seq![] }));
    }
    let ghost k1: Seq<Seq<char>> = if get(*norm, "antecedent"@) is Some { seq!["antecedent"@] } else { seq![] };
    if norm.get("commitment").is_some() {
        if first {
            joined = join3("`", "commitment", "`");
        } else {
            append(&mut joined, ", `");
            append(&mut joined, "commitment");
            append(&mut joined, "`");
        }
        first = false;
    }
    let ghost k2: Seq<Seq<char>> = k1 + if get(*norm, "commitment"@) is Some { seq!["commitment"@] } else { seq![] };
    proof {
        if get(*norm, "commitment"@) is Some && k1.len() == 1 {
            assert(k2.drop_last() =~= k1);
        }
        assert(joined@ == ticked_join(k2));
        assert(first == (k2.len() == 0));
    }
    if norm.get("otherwise").is_some() {
        if first {
            joined = join3("`", "otherwise", "`");
        } else {
            append(&mut joined, ", `");
            append(&mut joined, "otherwise");
            append(&mut joined, "`");
        }
    }
    let ghost k3: Seq<Seq<char>> = k2 + if get(*norm, "otherwise"@) is Some { seq!["otherwise"@] } else { seq![] };
    proof {
        if get(*norm, "otherwise"@) is Some && k2.len() >= 1 {
            assert(k3.drop_last() =~= k2);
        }
        assert(k3 =~= binary_keys(*norm));
    }
    join3(
        "norm carries `cases:` alongside the binary form (",
        joined.as_str(),
        ") — the two are alternatives, not layers, so the path to its commitment is undefined; write one form or the other (DESIGN §3)",
    )
}

fn check_norm(norm: &Yaml, i: usize, file: &str, out: &mut Vec<Finding>)
    ensures
        fviews(final(out)@) == fviews(old(out)@) + seam_norm(*norm, i as nat, file@),
{
    let ghost start = fviews(out@);
    match norm {
        Yaml::Mapping(_) => {},
        _ => {
            proof {
                assert(start + seq![] =~= start);
            }
            return;
        },
    }
    let path = index_path_of("norms", i);
    let commitment = norm.get("commitment");
    let modifies = norm.get("modifies");
    let cs = cases(norm);
    let has_binary = norm.get("antecedent").is_some() || commitment.is_some() || norm.get("otherwise").is_some();
    if norm.get("cases").is_some() && has_binary {
        push_finding(out, file, path.as_str(), Rule::MixedBranchForms, mixed_message(norm));
    }
    let ghost after_mixed = fviews(out@);
    if commitment.is_none() && modifies.is_none() && cs.len() == 0 {
        push_finding(
            out,
            file,
            path.as_str(),
            Rule::UnreachedSeam,
            "norm reaches no commitment about plain data — it has neither a `commitment` nor a `modifies`, so its obligation leads nowhere".to_owned(),
        );
    } else {
        if commitment.is_some() && !is_nonempty(commitment) {
            let mut at = path.clone();
            append(&mut at, ".commitment");
            push_finding(out, file, at.as_str(), Rule::EmptyCommitment, "commitment is empty — it constrains no plain data".to_owned());
        }
        if modifies.is_some() && !is_nonempty(modifies) {
            let mut at = path.clone();
            append(&mut at, ".modifies");
            push_finding(out, file, at.as_str(), Rule::EmptyCommitment, "modifies is empty — it changes no commitment".to_owned());
        }
    }
    let ghost after_reach = fviews(out@);
    let mut k: usize = 0;
    while k < cs.len()
        invariant
            k <= cs@.len(),
            case_views(cs@) == cases_of(*norm),
            path@ == norm_path(i as nat),
            fviews(out@) == after_reach + case_findings(case_views(cs@).take(k as int), path@, file@),
        decreases cs.len() - k,
    {
        proof {
            assert(case_views(cs@).take(k + 1).drop_last() =~= case_views(cs@).take(k as int));
            assert(case_views(cs@).take(k + 1).last() == (cs@[k as int].0@, crate::yaml::deref_opt(cs@[k as int].1)));
        }
        let ghost before = fviews(out@);
        if !is_nonempty(cs[k].1) {
            let at = dot_path_of(path.as_str(), cs[k].0.as_str());
            push_finding(
                out,
                file,
                at.as_str(),
                Rule::EmptyCommitment,
                "case carries no commitment about plain data — this branch of the norm leads nowhere".to_owned(),
            );
        }
        proof {
            assert(fviews(out@) =~= after_reach + case_findings(case_views(cs@).take(k + 1), path@, file@));
        }
        k = k + 1;
    }
    proof {
        assert(case_views(cs@).take(cs@.len() as int) =~= case_views(cs@));
    }
    let ghost after_cases = fviews(out@);
    match norm.get("otherwise") {
        Some(o) => {
            if !is_nonempty(o.get("commitment")) {
                let mut at = path.clone();
                append(&mut at, ".otherwise");
                push_finding(
                    out,
                    file,
                    at.as_str(),
                    Rule::EmptyCommitment,
                    "residual `otherwise` branch carries no commitment about plain data".to_owned(),
                );
            }
        },
        None => {},
    }
    proof {
        assert(fviews(out@) =~= start + seam_norm(*norm, i as nat, file@));
    }
}

/// Run check 5 over the parsed document, appending findings.
pub fn check_seam(doc: &Yaml, file: &str, out: &mut Vec<Finding>)
    ensures
        fviews(final(out)@) == fviews(old(out)@) + seam_findings(*doc, file@),
{
    match norms(doc) {
        Some(ns) => {
            let ghost start = fviews(out@);
            let mut i: usize = 0;
            while i < ns.len()
                invariant
                    i <= ns@.len(),
                    norms_of(*doc) == Some(ns@),
                    fviews(out@) == start + seam_all(ns@.take(i as int), file@),
                decreases ns.len() - i,
            {
                proof {
                    assert(ns@.take(i + 1).drop_last() =~= ns@.take(i as int));
                }
                check_norm(&ns[i], i, file, out);
                i = i + 1;
            }
            proof {
                assert(ns@.take(ns@.len() as int) =~= ns@);
            }
        },
        None => {
            proof {
                assert(fviews(old(out)@) + seq![] =~= fviews(old(out)@));
            }
        },
    }
}


proof fn lemma_case_rules(cs: Seq<(Seq<char>, Option<Yaml>)>, path: Seq<char>, file: Seq<char>)
    ensures
        rules_in(case_findings(cs, path, file), Family::Seam),
    decreases cs.len(),
{
    broadcast use group_rules_in;
    if cs.len() > 0 {
        lemma_case_rules(cs.drop_last(), path, file);
    }
}

proof fn lemma_seam_all_rules(ns: Seq<Yaml>, file: Seq<char>)
    ensures
        rules_in(seam_all(ns, file), Family::Seam),
    decreases ns.len(),
{
    broadcast use group_rules_in;
    if ns.len() > 0 {
        lemma_seam_all_rules(ns.drop_last(), file);
        let norm = ns.last();
        if norm is Mapping {
            lemma_case_rules(cases_of(norm), norm_path((ns.len() - 1) as nat), file);
        }
        assert(rules_in(seam_norm(norm, (ns.len() - 1) as nat, file), Family::Seam));
    }
}

/// Check 5 reports SEAM rules and nothing else.
pub proof fn lemma_seam_rules(doc: Yaml, file: Seq<char>)
    ensures
        rules_in(seam_findings(doc, file), Family::Seam),
{
    match norms_of(doc) {
        Some(ns) => lemma_seam_all_rules(ns, file),
        None => {},
    }
}


/// Every branch of the `cases:` form carries a commitment.
pub open spec fn cases_reach(cs: Seq<(Seq<char>, Option<Yaml>)>) -> bool {
    forall|k: int| 0 <= k < cs.len() ==> nonempty((#[trigger] cs[k]).1)
}

proof fn lemma_case_findings_empty(cs: Seq<(Seq<char>, Option<Yaml>)>, path: Seq<char>, file: Seq<char>)
    ensures
        case_findings(cs, path, file).len() == 0 <==> cases_reach(cs),
    decreases cs.len(),
{
    if cs.len() > 0 {
        lemma_case_findings_empty(cs.drop_last(), path, file);
        if cases_reach(cs) {
            assert forall|k: int| 0 <= k < cs.drop_last().len() implies nonempty((#[trigger] cs.drop_last()[k]).1) by {
                assert(cs.drop_last()[k] == cs[k]);
            }
            assert(nonempty(cs[cs.len() - 1].1));
        }
        if case_findings(cs, path, file).len() == 0 {
            assert forall|k: int| 0 <= k < cs.len() implies nonempty((#[trigger] cs[k]).1) by {
                if k < cs.len() - 1 {
                    assert(cs.drop_last()[k] == cs[k]);
                }
            }
        }
    }
}

/// Every norm must reach a commitment about plain data, by a well-defined
/// path: check 5 is silent on a norm exactly when it writes one branch form,
/// not both; reaches the seam through a `commitment`, a `modifies` or its
/// `cases:`; and every commitment, `modifies`, case and `otherwise` it writes
/// constrains something.
pub proof fn lemma_seam_silent(norm: Yaml, i: nat, file: Seq<char>)
    requires
        norm is Mapping,
    ensures
        seam_norm(norm, i, file).len() == 0 <==> {
            &&& !(get(norm, "cases"@) is Some && binary_keys(norm).len() > 0)
            &&& get(norm, "commitment"@) is Some || get(norm, "modifies"@) is Some || cases_of(norm).len() > 0
            &&& get(norm, "commitment"@) is Some ==> nonempty(get(norm, "commitment"@))
            &&& get(norm, "modifies"@) is Some ==> nonempty(get(norm, "modifies"@))
            &&& cases_reach(cases_of(norm))
            &&& get(norm, "otherwise"@) matches Some(o) ==> nonempty(get(o, "commitment"@))
        },
{
    lemma_case_findings_empty(cases_of(norm), norm_path(i), file);
}


proof fn lemma_case_relabel(cs: Seq<(Seq<char>, Option<Yaml>)>, path: Seq<char>, file: Seq<char>, g: Seq<char>)
    ensures
        case_findings(cs, path, g) == relabel(case_findings(cs, path, file), g),
    decreases cs.len(),
{
    broadcast use group_relabel;
    if cs.len() > 0 {
        lemma_case_relabel(cs.drop_last(), path, file, g);
    }
}

proof fn lemma_seam_all_relabel(ns: Seq<Yaml>, file: Seq<char>, g: Seq<char>)
    ensures
        seam_all(ns, g) == relabel(seam_all(ns, file), g),
    decreases ns.len(),
{
    broadcast use group_relabel;
    if ns.len() > 0 {
        lemma_seam_all_relabel(ns.drop_last(), file, g);
        let norm = ns.last();
        let i = (ns.len() - 1) as nat;
        if norm is Mapping {
            lemma_case_relabel(cases_of(norm), norm_path(i), file, g);
        }
        assert(seam_norm(norm, i, g) == relabel(seam_norm(norm, i, file), g));
    }
}

/// Check 5 run under another label reports the same findings, relabelled.
pub proof fn lemma_seam_relabel(doc: Yaml, file: Seq<char>, g: Seq<char>)
    ensures
        seam_findings(doc, g) == relabel(seam_findings(doc, file), g),
{
    broadcast use group_relabel;
    match norms_of(doc) {
        Some(ns) => lemma_seam_all_relabel(ns, file, g),
        None => {},
    }
}

} // verus!
