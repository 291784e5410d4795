//! Check 3 — coverage.
//!
//! The antecedent branches must partition the subject's relevant states. The
//! checker cannot know a subject's states, so the author writes them down,
//! cited, in the OKF bundle, and coverage verifies the writing is discharged.
//! It runs only against a bundle.
//!
//! - **COVER-1 — uncovered state.** A state the subject declares that no branch
//!   of the norm claims. The finding names the missing state.
//! - **COVER-2 — undeclared state claimed.** A `covers:` naming a state the
//!   subject does not declare (or any state when the subject has no declared
//!   state space at all), or a `covers:` that names no state.
//!
//! A branch claims states with `covers:` — a state id, or a list of them — on
//! the norm itself, on `otherwise`, or on each `cases[i]`. Coverage is opt-in
//! per norm: a norm that claims no state is skipped; once a norm claims one
//! state it must claim them all.

use vstd::prelude::*;
use crate::yaml::{Yaml, get, str_field, opt_view, deref_opt};
use crate::text::{index_path, index_path_of, dot_path, dot_path_of, join3, join5, sviews, contains_str, append};
use crate::rule::{Family, Finding, FindingV, Rule, finding, fviews, group_rules_in, push_finding, rules_in};
use crate::norm::{norms_of, norms, norm_path};
use crate::okf::{Okf, OkfV};

verus! {

/// A claim: the branch path, and the state it names (none if it names none).
pub type ClaimV = (Seq<char>, Option<Seq<char>>);

/// The claims of a `covers:` list, each item its own claim.
pub open spec fn list_claims(items: Seq<Yaml>, branch: Seq<char>) -> Seq<ClaimV>
    decreases items.len(),
{
    if items.len() == 0 {
        seq![]
    } else {
        list_claims(items.drop_last(), branch).push(
            (
                branch,
                match items.last() {
                    Yaml::Text(s) => Some(s@),
                    _ => None,
                },
            ),
        )
    }
}

/// The claims the branch node `v` makes with `covers:`.
pub open spec fn claims_at(v: Option<Yaml>, branch: Seq<char>) -> Seq<ClaimV> {
    match v {
        None => seq![],
        Some(node) => match get(node, "covers"@) {
            None => seq![],
            Some(Yaml::Text(s)) => seq![(branch, Some(s@))],
            Some(Yaml::Sequence(items)) => list_claims(items@, branch),
            Some(_) => seq![(branch, None)],
        },
    }
}

/// The claims of each `cases[i]` branch.
pub open spec fn case_claims(items: Seq<Yaml>) -> Seq<ClaimV>
    decreases items.len(),
{
    if items.len() == 0 {
        seq![]
    } else {
        case_claims(items.drop_last()) + claims_at(
            Some(items.last()),
            index_path("cases"@, (items.len() - 1) as nat) + ".covers"@,
        )
    }
}

/// Every state this norm claims, as `(branch path, state)`: on the norm itself
/// (the antecedent-holds branch), on `otherwise`, then on each `cases[i]`.
pub open spec fn claims(norm: Yaml) -> Seq<ClaimV> {
    claims_at(Some(norm), "covers"@) + claims_at(get(norm, "otherwise"@), "otherwise.covers"@)
        + match get(norm, "cases"@) {
        Some(Yaml::Sequence(list)) => case_claims(list@),
        _ => seq![],
    }
}

pub open spec fn undeclared_msg(state: Seq<char>, subject: Seq<char>) -> Seq<char> {
    "`covers: "@ + state + "` names no state declared for subject `"@ + subject
        + "` in the OKF bundle"@
}

pub open spec fn no_space_msg(state: Seq<char>, subject: Seq<char>) -> Seq<char> {
    "`covers: "@ + state + "` claims a state, but the OKF bundle declares no state space for subject `"@
        + subject + "`"@
}

pub open spec fn no_state_msg(subject: Seq<char>) -> Seq<char> {
    "`covers:` names no state — it must be a state id, or a list of them; as written it claims nothing about subject `"@
        + subject + "`"@
}

pub open spec fn gap_msg(subject: Seq<char>, state: Seq<char>) -> Seq<char> {
    "subject `"@ + subject + "` declares the state `"@ + state
        + "`, which no branch of this norm covers — an implicit gap the branch structure hides (DESIGN §4.3)"@
}

/// COVER-2 for one claim.
pub open spec fn claim_finding(
    c: ClaimV,
    declared: Option<Seq<Seq<char>>>,
    subject: Seq<char>,
    path: Seq<char>,
    file: Seq<char>,
) -> Seq<FindingV> {
    match c.1 {
        None => seq![finding(file, dot_path(path, c.0), Rule::UndeclaredStateClaimed, no_state_msg(subject))],
        Some(st) => match declared {
            Some(d) => if d.contains(st) {
                seq![]
            } else {
                seq![finding(file, dot_path(path, c.0), Rule::UndeclaredStateClaimed, undeclared_msg(st, subject))]
            },
            None => seq![finding(file, dot_path(path, c.0), Rule::UndeclaredStateClaimed, no_space_msg(st, subject))],
        },
    }
}

pub open spec fn claim_findings(
    cl: Seq<ClaimV>,
    declared: Option<Seq<Seq<char>>>,
    subject: Seq<char>,
    path: Seq<char>,
    file: Seq<char>,
) -> Seq<FindingV>
    decreases cl.len(),
{
    if cl.len() == 0 {
        seq![]
    } else {
        claim_findings(cl.drop_last(), declared, subject, path, file) + claim_finding(
            cl.last(),
            declared,
            subject,
            path,
            file,
        )
    }
}

/// Some branch of the norm claims `state`.
pub open spec fn claimed(cl: Seq<ClaimV>, state: Seq<char>) -> bool {
    exists|k: int| 0 <= k < cl.len() && cl[k].1 == Some(state)
}

/// COVER-1 for each declared state that no claim names, in the bundle's
/// order.
pub open spec fn gap_findings(
    states: Seq<Seq<char>>,
    cl: Seq<ClaimV>,
    subject: Seq<char>,
    path: Seq<char>,
    file: Seq<char>,
) -> Seq<FindingV>
    decreases states.len(),
{
    if states.len() == 0 {
        seq![]
    } else {
        gap_findings(states.drop_last(), cl, subject, path, file) + if claimed(cl, states.last()) {
            seq![]
        } else {
            seq![finding(file, path, Rule::UncoveredState, gap_msg(subject, states.last()))]
        }
    }
}

/// Check 3 for the `i`-th norm.
pub open spec fn cover_norm(norm: Yaml, i: nat, okf: OkfV, file: Seq<char>) -> Seq<FindingV> {
    if !(norm is Mapping) {
        seq![]
    } else {
        match str_field(norm, "subject"@) {
            None => seq![],
            Some(subject) => {
                let cl = claims(norm);
                if cl.len() == 0 {
                    seq![]
                } else {
                    let declared = okf.states_of(subject);
                    claim_findings(cl, declared, subject, norm_path(i), file) + match declared {
                        Some(d) => gap_findings(d, cl, subject, norm_path(i), file),
                        None => seq![],
                    }
                }
            },
        }
    }
}

pub open spec fn cover_all(ns: Seq<Yaml>, okf: OkfV, file: Seq<char>) -> Seq<FindingV>
    decreases ns.len(),
{
    if ns.len() == 0 {
        seq![]
    } else {
        cover_all(ns.drop_last(), okf, file) + cover_norm(ns.last(), (ns.len() - 1) as nat, okf, file)
    }
}

/// Check 3 over a document, against a bundle.
pub open spec fn cover_findings(doc: Yaml, file: Seq<char>, okf: OkfV) -> Seq<FindingV> {
    match norms_of(doc) {
        Some(ns) => cover_all(ns, okf, file),
        None => seq![],
    }
}

pub open spec fn cviews(cs: Seq<(String, Option<String>)>) -> Seq<ClaimV> {
    cs.map_values(|c: (String, Option<String>)| (c.0@, opt_view(c.1)))
}

fn push_claim(out: &mut Vec<(String, Option<String>)>, branch: String, state: Option<String>)
    ensures
        cviews(final(out)@) == cviews(old(out)@).push((branch@, opt_view(state))),
{
    out.push((branch, state));
    proof {
        assert(cviews(final(out)@) =~= cviews(old(out)@).push((branch@, opt_view(state))));
    }
}

/// Appends the claims the branch node `v` makes.
fn claims_of_branch(v: Option<&Yaml>, branch: &str, out: &mut Vec<(String, Option<String>)>)
    ensures
        cviews(final(out)@) == cviews(old(out)@) + claims_at(deref_opt(v), branch@),
{
    let ghost start = cviews(out@);
    match v {
        None => {},
        Some(node) => match node.get("covers") {
            None => {},
            Some(Yaml::Text(s)) => push_claim(out, branch.to_owned(), Some(s.clone())),
            Some(Yaml::Sequence(items)) => {
                let mut i: usize = 0;
                while i < items.len()
                    invariant
                        i <= items@.len(),
                        cviews(out@) == start + list_claims(items@.take(i as int), branch@),
                    decreases items.len() - i,
                {
                    proof {
                        assert(items@.take(i + 1).drop_last() =~= items@.take(i as int));
                    }
                    let st = match &items[i] {
                        Yaml::Text(s) => Some(s.clone()),
                        _ => None,
                    };
                    push_claim(out, branch.to_owned(), st);
                    proof {
                        assert(cviews(out@) =~= start + list_claims(items@.take(i + 1), branch@));
                    }
                    i = i + 1;
                }
                proof {
                    assert(items@.take(items@.len() as int) =~= items@);
                }
            },
            Some(_) => push_claim(out, branch.to_owned(), None),
        },
    }
    proof {
        assert(cviews(out@) =~= start + claims_at(deref_opt(v), branch@));
    }
}

/// Every state this norm claims, as `(branch path, state)`.
fn claims_of(norm: &Yaml) -> (r: Vec<(String, Option<String>)>)
    ensures
        cviews(r@) == claims(*norm),
{
    let mut out: Vec<(String, Option<String>)> = Vec::new();
    claims_of_branch(Some(norm), "covers", &mut out);
    claims_of_branch(norm.get("otherwise"), "otherwise.covers", &mut out);
    let ghost mid = cviews(out@);
    match norm.get("cases") {
        Some(Yaml::Sequence(list)) => {
            let mut i: usize = 0;
            while i < list.len()
                invariant
                    i <= list@.len(),
                    cviews(out@) == mid + case_claims(list@.take(i as int)),
                decreases list.len() - i,
            {
                proof {
                    assert(list@.take(i + 1).drop_last() =~= list@.take(i as int));
                }
                let mut branch = index_path_of("cases", i);
                append(&mut branch, ".covers");
                claims_of_branch(Some(&list[i]), branch.as_str(), &mut out);
                proof {
                    assert(cviews(out@) =~= mid + case_claims(list@.take(i + 1)));
                }
                i = i + 1;
            }
            proof {
                assert(list@.take(list@.len() as int) =~= list@);
            }
        },
        _ => {},
    }
    proof {
        assert(cviews(out@) =~= claims(*norm));
    }
    out
}

fn is_claimed(cl: &Vec<(String, Option<String>)>, state: &str) -> (r: bool)
    ensures
        r == claimed(cviews(cl@), state@),
{
    let mut k: usize = 0;
    while k < cl.len()
        invariant
            k <= cl@.len(),
            forall|j: int| 0 <= j < k ==> cviews(cl@)[j].1 != Some(state@),
        decreases cl.len() - k,
    {
        match &cl[k].1 {
            Some(s) => {
                if crate::yaml::str_eq(s.as_str(), state) {
                    proof {
                        assert(cviews(cl@)[k as int].1 == Some(state@));
                    }
                    return true;
                }
            },
            None => {},
        }
        proof {
            assert(cviews(cl@)[k as int] == (cl@[k as int].0@, opt_view(cl@[k as int].1)));
        }
        k = k + 1;
    }
    false
}

fn check_norm(norm: &Yaml, i: usize, okf: &Okf, file: &str, out: &mut Vec<Finding>)
    ensures
        fviews(final(out)@) == fviews(old(out)@) + cover_norm(*norm, i as nat, okf@, file@),
{
    let ghost start = fviews(out@);
    match norm {
        Yaml::Mapping(_) => {},
        _ => {
            proof {
                assert(start + seq![] =~= start);
            }
            return;
        },
    }
    let subject = match norm.str_field("subject") {
        Some(s) => s,
        None => {
            proof {
                assert(start + seq![] =~= start);
            }
            return;
        },
    };
    let path = index_path_of("norms", i);
    let cl = claims_of(norm);
    if cl.len() == 0 {
        proof {
            assert(start + seq![] =~= start);
        }
        return;
    }
    let declared = okf.states(subject.as_str());
    let ghost dv = okf@.states_of(subject@);
    let mut k: usize = 0;
    while k < cl.len()
        invariant
            k <= cl@.len(),
            cviews(cl@) == claims(*norm),
            path@ == norm_path(i as nat),
            match declared {
                Some(l) => dv == Some(sviews(l@)),
                None => dv is None,
            },
            fviews(out@) == start + claim_findings(cviews(cl@).take(k as int), dv, subject@, path@, file@),
        decreases cl.len() - k,
    {
        proof {
            assert(cviews(cl@).take(k + 1).drop_last() =~= cviews(cl@).take(k as int));
            assert(cviews(cl@).take(k + 1).last() == (cl@[k as int].0@, opt_view(cl@[k as int].1)));
        }
        let ghost before = fviews(out@);
        let at = dot_path_of(path.as_str(), cl[k].0.as_str());
        match &cl[k].1 {
            None => {
                let msg = join3(
                    "`covers:` names no state — it must be a state id, or a list of them; as written it claims nothing about subject `",
                    subject.as_str(),
                    "`",
                );
                push_finding(out, file, at.as_str(), Rule::UndeclaredStateClaimed, msg);
            },
            Some(st) => match declared {
                Some(d) => {
                    if !contains_str(d, st.as_str()) {
                        let msg = join5(
                            "`covers: ",
                            st.as_str(),
                            "` names no state declared for subject `",
                            subject.as_str(),
                            "` in the OKF bundle",
                        );
                        push_finding(out, file, at.as_str(), Rule::UndeclaredStateClaimed, msg);
                    }
                },
                None => {
                    let msg = join5(
                        "`covers: ",
                        st.as_str(),
                        "` claims a state, but the OKF bundle declares no state space for subject `",
                        subject.as_str(),
                        "`",
                    );
                    push_finding(out, file, at.as_str(), Rule::UndeclaredStateClaimed, msg);
                },
            },
        }
        proof {
            assert(fviews(out@) =~= before + claim_finding(cviews(cl@)[k as int], dv, subject@, path@, file@));
            assert(fviews(out@) =~= start + claim_findings(cviews(cl@).take(k + 1), dv, subject@, path@, file@));
        }
        k = k + 1;
    }
    proof {
        assert(cviews(cl@).take(cl@.len() as int) =~= cviews(cl@));
    }
    let ghost mid = fviews(out@);
    match declared {
        Some(d) => {
            let mut j: usize = 0;
            while j < d.len()
                invariant
                    j <= d@.len(),
                    cviews(cl@) == claims(*norm),
                    path@ == norm_path(i as nat),
                    fviews(out@) == mid + gap_findings(sviews(d@).take(j as int), cviews(cl@), subject@, path@, file@),
                decreases d.len() - j,
            {
                proof {
                    assert(sviews(d@).take(j + 1).drop_last() =~= sviews(d@).take(j as int));
                    assert(sviews(d@).take(j + 1).last() == d@[j as int]@);
                }
                let ghost before = fviews(out@);
                if !is_claimed(&cl, d[j].as_str()) {
                    let msg = join5(
                        "subject `",
                        subject.as_str(),
                        "` declares the state `",
                        d[j].as_str(),
                        "`, which no branch of this norm covers — an implicit gap the branch structure hides (DESIGN §4.3)",
                    );
                    push_finding(out, file, path.as_str(), Rule::UncoveredState, msg);
                }
                proof {
                    assert(fviews(out@) =~= mid + gap_findings(sviews(d@).take(j + 1), cviews(cl@), subject@, path@, file@));
                }
                j = j + 1;
            }
            proof {
                assert(sviews(d@).take(d@.len() as int) =~= sviews(d@));
            }
        },
        None => {},
    }
    proof {
        assert(fviews(out@) =~= start + cover_norm(*norm, i as nat, okf@, file@));
    }
}

/// Run check 3 over the parsed document against a bundle, appending findings.
pub fn check_coverage(doc: &Yaml, file: &str, okf: &Okf, out: &mut Vec<Finding>)
    ensures
        fviews(final(out)@) == fviews(old(out)@) + cover_findings(*doc, file@, okf@),
{
    match norms(doc) {
        Some(ns) => {
            let ghost start = fviews(out@);
            let mut i: usize = 0;
            while i < ns.len()
                invariant
                    i <= ns@.len(),
                    norms_of(*doc) == Some(ns@),
                    fviews(out@) == start + cover_all(ns@.take(i as int), okf@, file@),
                decreases ns.len() - i,
            {
                proof {
                    assert(ns@.take(i + 1).drop_last() =~= ns@.take(i as int));
                }
                check_norm(&ns[i], i, okf, file, out);
                i = i + 1;
            }
            proof {
                assert(ns@.take(ns@.len() as int) =~= ns@);
            }
        },
        None => {
            proof {
                assert(fviews(old(out)@) + seq![] =~= fviews(old(out)@));
            }
        },
    }
}


// ---------------------------------------------------------------------------
// When coverage is silent.

/// The claim names a state, and a state of `declared`.
pub open spec fn names_declared(c: ClaimV, declared: Seq<Seq<char>>) -> bool {
    match c.1 {
        Some(st) => declared.contains(st),
        None => false,
    }
}

/// Every claim names a state of `declared`.
pub open spec fn claims_declared(cl: Seq<ClaimV>, declared: Seq<Seq<char>>) -> bool {
    forall|k: int| 0 <= k < cl.len() ==> names_declared(#[trigger] cl[k], declared)
}

/// Every state of `declared` is claimed by some branch.
pub open spec fn all_claimed(cl: Seq<ClaimV>, declared: Seq<Seq<char>>) -> bool {
    forall|k: int| 0 <= k < declared.len() ==> claimed(cl, #[trigger] declared[k])
}

proof fn lemma_claim_findings_empty(
    cl: Seq<ClaimV>,
    declared: Option<Seq<Seq<char>>>,
    subject: Seq<char>,
    path: Seq<char>,
    file: Seq<char>,
)
    ensures
        claim_findings(cl, declared, subject, path, file).len() == 0 <==> (cl.len() == 0 || match declared {
            Some(d) => claims_declared(cl, d),
            None => false,
        }),
    decreases cl.len(),
{
    if cl.len() > 0 {
        lemma_claim_findings_empty(cl.drop_last(), declared, subject, path, file);
        match declared {
            Some(d) => {
                if claims_declared(cl, d) {
                    assert(claims_declared(cl.drop_last(), d)) by {
                        assert forall|k: int| 0 <= k < cl.drop_last().len() implies names_declared(
                            #[trigger] cl.drop_last()[k],
                            d,
                        ) by {
                            assert(cl.drop_last()[k] == cl[k]);
                        }
                    }
                    assert(cl.last() == cl[cl.len() - 1]);
                }
                if claim_findings(cl, declared, subject, path, file).len() == 0 {
                    assert forall|k: int| 0 <= k < cl.len() implies names_declared(#[trigger] cl[k], d) by {
                        if k < cl.len() - 1 {
                            assert(cl.drop_last()[k] == cl[k]);
                        }
                    }
                }
            },
            None => {},
        }
    }
}

proof fn lemma_gap_findings_empty(
    states: Seq<Seq<char>>,
    cl: Seq<ClaimV>,
    subject: Seq<char>,
    path: Seq<char>,
    file: Seq<char>,
)
    ensures
        gap_findings(states, cl, subject, path, file).len() == 0 <==> all_claimed(cl, states),
    decreases states.len(),
{
    if states.len() > 0 {
        lemma_gap_findings_empty(states.drop_last(), cl, subject, path, file);
        if all_claimed(cl, states) {
            assert forall|k: int| 0 <= k < states.drop_last().len() implies claimed(cl, #[trigger] states.drop_last()[k]) by {
                assert(states.drop_last()[k] == states[k]);
            }
            assert(claimed(cl, states[states.len() - 1]));
        }
        if gap_findings(states, cl, subject, path, file).len() == 0 {
            assert forall|k: int| 0 <= k < states.len() implies claimed(cl, #[trigger] states[k]) by {
                if k < states.len() - 1 {
                    assert(states.drop_last()[k] == states[k]);
                }
            }
        }
    }
}

/// The branches must partition the subject's declared states: coverage is
/// silent on a norm exactly when the norm names no subject, claims no state,
/// or claims only states its subject declares in the bundle and every one of
/// them.
pub proof fn lemma_coverage_silent(norm: Yaml, i: nat, okf: OkfV, file: Seq<char>)
    requires
        norm is Mapping,
    ensures
        cover_norm(norm, i, okf, file).len() == 0 <==> match str_field(norm, "subject"@) {
            None => true,
            Some(subject) => claims(norm).len() == 0 || match okf.states_of(subject) {
                None => false,
                Some(d) => claims_declared(claims(norm), d) && all_claimed(claims(norm), d),
            },
        },
{
    match str_field(norm, "subject"@) {
        None => {},
        Some(subject) => {
            let cl = claims(norm);
            if cl.len() > 0 {
                let declared = okf.states_of(subject);
                lemma_claim_findings_empty(cl, declared, subject, norm_path(i), file);
                match declared {
                    Some(d) => lemma_gap_findings_empty(d, cl, subject, norm_path(i), file),
                    None => {},
                }
            }
        },
    }
}


proof fn lemma_claim_rules(
    cl: Seq<ClaimV>,
    declared: Option<Seq<Seq<char>>>,
    subject: Seq<char>,
    path: Seq<char>,
    file: Seq<char>,
)
    ensures
        rules_in(claim_findings(cl, declared, subject, path, file), Family::Coverage),
    decreases cl.len(),
{
    broadcast use group_rules_in;
    if cl.len() > 0 {
        lemma_claim_rules(cl.drop_last(), declared, subject, path, file);
        assert(rules_in(claim_finding(cl.last(), declared, subject, path, file), Family::Coverage));
    }
}

proof fn lemma_gap_rules(states: Seq<Seq<char>>, cl: Seq<ClaimV>, subject: Seq<char>, path: Seq<char>, file: Seq<char>)
    ensures
        rules_in(gap_findings(states, cl, subject, path, file), Family::Coverage),
    decreases states.len(),
{
    broadcast use group_rules_in;
    if states.len() > 0 {
        lemma_gap_rules(states.drop_last(), cl, subject, path, file);
    }
}

proof fn lemma_cover_all_rules(ns: Seq<Yaml>, okf: OkfV, file: Seq<char>)
    ensures
        rules_in(cover_all(ns, okf, file), Family::Coverage),
    decreases ns.len(),
{
    broadcast use group_rules_in;
    if ns.len() > 0 {
        lemma_cover_all_rules(ns.drop_last(), okf, file);
        let norm = ns.last();
        let i = (ns.len() - 1) as nat;
        if norm is Mapping {
            match str_field(norm, "subject"@) {
                Some(subject) => {
                    let declared = okf.states_of(subject);
                    lemma_claim_rules(claims(norm), declared, subject, norm_path(i), file);
                    match declared {
                        Some(d) => lemma_gap_rules(d, claims(norm), subject, norm_path(i), file),
                        None => {},
                    }
                },
                None => {},
            }
        }
        assert(rules_in(cover_norm(norm, i, okf, file), Family::Coverage));
    }
}

/// Check 3 over a norm file reports COVER-1/2 and nothing else.
pub proof fn lemma_cover_rules(doc: Yaml, file: Seq<char>, okf: OkfV)
    ensures
        rules_in(cover_findings(doc, file, okf), Family::Coverage),
{
    match norms_of(doc) {
        Some(ns) => lemma_cover_all_rules(ns, okf, file),
        None => {},
    }
}

} // verus!
