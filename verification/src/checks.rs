//! The entry points: read a norm file's frontmatter, run the checks over it in
//! their fixed order, and hold a concept bundle to the standard it enforces.

use vstd::prelude::*;
use crate::yaml::{Yaml, parse_yaml, yaml_load};
use crate::text::{append, chars_of, frontmatter, frontmatter_of, index_path, index_path_of, join3, owned};
use crate::rule::{Finding, FindingV, Rule, finding, fviews, push_finding};
use crate::okf::{DeclV, DefectV, Okf, OkfV};
use crate::leak::{check_leaks, leak_findings};
use crate::ground::{anchor_findings, check_anchor_refs, check_structural, criterion, criterion_findings, structural_findings};
use crate::cover::{check_coverage, cover_findings};
use crate::conflict::{check_conflicts, conflict_findings};
use crate::seam::{check_seam, seam_findings};
use crate::regime::{check_regime, regime_findings};

verus! {

pub open spec fn no_frontmatter_msg() -> Seq<char> {
    "no YAML frontmatter (`---` fences) found"@
}

pub open spec fn parse_error_msg(e: Seq<char>) -> Seq<char> {
    "YAML frontmatter parse error: "@ + e
}

/// A source's frontmatter read as a document, or why it cannot be: it has no
/// frontmatter, or the frontmatter is not YAML.
pub open spec fn parsed(source: Seq<char>) -> Result<Yaml, Seq<char>> {
    match frontmatter_of(source) {
        None => Err(no_frontmatter_msg()),
        Some(front) => match yaml_load(front) {
            Ok(doc) => Ok(doc),
            Err(e) => Err(parse_error_msg(e)),
        },
    }
}

/// The always-on checks over a document, in order: leaks (check 1),
/// structural grounding (check 2, GROUND-1/2), conditional conflict
/// (check 4), termination at the seam (check 5) and regime hygiene (check 6).
pub open spec fn always_findings(doc: Yaml, file: Seq<char>) -> Seq<FindingV> {
    leak_findings(doc, file) + structural_findings(doc, file) + conflict_findings(doc, file)
        + seam_findings(doc, file) + regime_findings(doc, file)
}

/// The bundle-backed checks over a document: anchor resolution (GROUND-3),
/// then coverage (check 3).
pub open spec fn bundle_backed_findings(doc: Yaml, file: Seq<char>, okf: OkfV) -> Seq<FindingV> {
    anchor_findings(doc, file, okf) + cover_findings(doc, file, okf)
}

/// Where a state declaration stands in its concept file.
pub open spec fn decl_path(d: DeclV) -> Seq<char> {
    index_path("subjects."@ + d.subject + ".states"@, d.index)
}

pub open spec fn malformed_msg(subject: Seq<char>) -> Seq<char> {
    "state declaration carries no `id` — it names no state, so it drops out of `"@ + subject
        + "`'s state space"@
}

/// COVER-3 for a declaration that names no state; otherwise GROUND-1/2/3 for
/// its citation, as for any criterion.
pub open spec fn decl_findings(d: DeclV, okf: OkfV) -> Seq<FindingV> {
    match d.id {
        None => seq![finding(d.file, decl_path(d), Rule::MalformedState, malformed_msg(d.subject))],
        Some(_) => criterion_findings(d.file, decl_path(d), d.reference, d.source, okf, "state declaration"@),
    }
}

pub open spec fn decls_findings(ds: Seq<DeclV>, okf: OkfV) -> Seq<FindingV>
    decreases ds.len(),
{
    if ds.len() == 0 {
        seq![]
    } else {
        decls_findings(ds.drop_last(), okf) + decl_findings(ds.last(), okf)
    }
}

/// COVER-4 for each place the bundle failed to yield a state space.
pub open spec fn defect_findings(ds: Seq<DefectV>) -> Seq<FindingV> {
    ds.map_values(|d: DefectV| finding(d.file, d.path, Rule::UnreadableStateSpace, d.detail))
}

/// What the bundle is found to get wrong about its own state spaces: its
/// defects, then each declaration in load order.
pub open spec fn bundle_findings(okf: OkfV) -> Seq<FindingV> {
    defect_findings(okf.defects) + decls_findings(okf.declarations, okf)
}

/// The document a frontmatter block is, given what the YAML parser made of
/// it: the parser's message becomes the checker's error.
pub fn read_document(value: Result<Yaml, String>) -> (r: Result<Yaml, String>)
    ensures
        match value {
            Ok(doc) => r == Ok::<Yaml, String>(doc),
            Err(m) => r is Err && r->Err_0@ == parse_error_msg(m@),
        },
{
    match value {
        Ok(doc) => Ok(doc),
        Err(m) => {
            let mut e = owned("YAML frontmatter parse error: ");
            append(&mut e, m.as_str());
            Err(e)
        },
    }
}

/// A norm file's name: one that ends in `.okf.md`.
pub open spec fn norm_file_name(name: Seq<char>) -> bool {
    name.len() >= 7 && name.skip(name.len() - 7) == ".okf.md"@
}

/// Whether a file name names a norm file (`*.okf.md`).
pub fn is_okf(name: &str) -> (r: bool)
    ensures
        r == norm_file_name(name@),
{
    let cs = chars_of(name);
    let suffix = chars_of(".okf.md");
    proof {
        reveal_strlit(".okf.md");
    }
    if cs.len() < suffix.len() {
        return false;
    }
    let start = cs.len() - suffix.len();
    let mut k: usize = 0;
    while k < suffix.len()
        invariant
            cs@ == name@,
            suffix@ == ".okf.md"@,
            suffix@.len() == 7,
            start + suffix@.len() == cs@.len(),
            start + suffix.len() == cs.len(),
            k <= suffix@.len(),
            forall|l: int| 0 <= l < k ==> cs@[start + l] == suffix@[l],
        decreases suffix.len() - k,
    {
        if cs[start + k] != suffix[k] {
            proof {
                assert(cs@.skip(start as int)[k as int] != suffix@[k as int]);
            }
            return false;
        }
        k = k + 1;
    }
    proof {
        assert(cs@.skip(start as int) =~= suffix@);
    }
    true
}

/// A source's frontmatter, parsed.
pub fn parse(source: &str) -> (r: Result<Yaml, String>)
    ensures
        match r {
            Ok(doc) => parsed(source@) == Ok::<Yaml, Seq<char>>(doc),
            Err(e) => parsed(source@) == Err::<Yaml, Seq<char>>(e@),
        },
{
    match frontmatter(source) {
        None => Err(owned("no YAML frontmatter (`---` fences) found")),
        Some(front) => read_document(parse_yaml(front)),
    }
}

/// The always-on checks over a parsed document.
pub fn check_document(file: &str, doc: &Yaml) -> (r: Vec<Finding>)
    ensures
        fviews(r@) == always_findings(*doc, file@),
{
    let mut out: Vec<Finding> = Vec::new();
    proof {
        assert(fviews(out@) =~= seq![]);
    }
    check_leaks(doc, file, &mut out);
    check_structural(doc, file, &mut out);
    check_conflicts(doc, file, &mut out);
    check_seam(doc, file, &mut out);
    check_regime(doc, file, &mut out);
    proof {
        assert(fviews(out@) =~= always_findings(*doc, file@));
    }
    out
}

/// The bundle-backed checks over a parsed document.
pub fn check_document_with_okf(file: &str, doc: &Yaml, okf: &Okf) -> (r: Vec<Finding>)
    ensures
        fviews(r@) == bundle_backed_findings(*doc, file@, okf@),
{
    let mut out: Vec<Finding> = Vec::new();
    proof {
        assert(fviews(out@) =~= seq![]);
    }
    check_anchor_refs(doc, file, okf, &mut out);
    check_coverage(doc, file, okf, &mut out);
    proof {
        assert(fviews(out@) =~= bundle_backed_findings(*doc, file@, okf@));
    }
    out
}

/// Run the always-on checks over one `.okf.md` source; `file` labels the
/// findings. The bundle-backed checks (GROUND-3 and coverage) are not among
/// them: [`check_with_okf`] runs those.
pub fn check(file: &str, source: &str) -> (r: Result<Vec<Finding>, String>)
    ensures
        match r {
            Ok(fs) => parsed(source@) is Ok && fviews(fs@) == always_findings(parsed(source@)->Ok_0, file@),
            Err(e) => parsed(source@) == Err::<Yaml, Seq<char>>(e@),
        },
{
    match parse(source) {
        Ok(doc) => Ok(check_document(file, &doc)),
        Err(e) => Err(e),
    }
}

/// Run the bundle-backed checks over one source: GROUND-3 (every well-formed
/// citation resolves to an anchor of `okf`) and coverage. Kept apart from
/// [`check`] so a caller running both reports nothing twice.
pub fn check_with_okf(file: &str, source: &str, okf: &Okf) -> (r: Result<Vec<Finding>, String>)
    ensures
        match r {
            Ok(fs) => parsed(source@) is Ok && fviews(fs@) == bundle_backed_findings(
                parsed(source@)->Ok_0,
                file@,
                okf@,
            ),
            Err(e) => parsed(source@) == Err::<Yaml, Seq<char>>(e@),
        },
{
    match parse(source) {
        Ok(doc) => Ok(check_document_with_okf(file, &doc, okf)),
        Err(e) => Err(e),
    }
}

/// Run GROUND-3 only: every well-formed citation's `ref` must resolve to an
/// anchor in `okf`.
pub fn check_anchors(file: &str, source: &str, okf: &Okf) -> (r: Result<Vec<Finding>, String>)
    ensures
        match r {
            Ok(fs) => parsed(source@) is Ok && fviews(fs@) == anchor_findings(parsed(source@)->Ok_0, file@, okf@),
            Err(e) => parsed(source@) == Err::<Yaml, Seq<char>>(e@),
        },
{
    match parse(source) {
        Ok(doc) => {
            let mut out: Vec<Finding> = Vec::new();
            proof {
                assert(fviews(out@) =~= seq![]);
            }
            check_anchor_refs(&doc, file, okf, &mut out);
            proof {
                assert(fviews(out@) =~= anchor_findings(doc, file@, okf@));
            }
            Ok(out)
        },
        Err(e) => Err(e),
    }
}

/// Hold the bundle to the standard it enforces: each place it failed to yield
/// a state space (COVER-4), then each state declaration, which must name a
/// state (COVER-3) and cite where it grounds (GROUND-1/2/3).
pub fn check_bundle(okf: &Okf) -> (r: Vec<Finding>)
    ensures
        fviews(r@) == bundle_findings(okf@),
{
    let mut out: Vec<Finding> = Vec::new();
    let defects = okf.defects();
    let mut i: usize = 0;
    proof {
        assert(fviews(out@) =~= defect_findings(okf@.defects.take(0)));
    }
    while i < defects.len()
        invariant
            i <= defects@.len(),
            defects@.map_values(|d: crate::okf::BundleDefect| d@) == okf@.defects,
            fviews(out@) == defect_findings(okf@.defects.take(i as int)),
        decreases defects.len() - i,
    {
        let d = &defects[i];
        proof {
            assert(okf@.defects[i as int] == d@);
        }
        push_finding(&mut out, d.file.as_str(), d.path.as_str(), Rule::UnreadableStateSpace, d.detail.clone());
        proof {
            assert(defect_findings(okf@.defects.take(i + 1)) =~= defect_findings(okf@.defects.take(i as int)).push(
                finding(d@.file, d@.path, Rule::UnreadableStateSpace, d@.detail),
            ));
        }
        i = i + 1;
    }
    proof {
        assert(okf@.defects.take(defects@.len() as int) =~= okf@.defects);
    }
    let ghost base = fviews(out@);
    let decls = okf.declarations();
    let mut k: usize = 0;
    proof {
        assert(base + decls_findings(okf@.declarations.take(0), okf@) =~= base);
    }
    while k < decls.len()
        invariant
            k <= decls@.len(),
            decls@.map_values(|d: crate::okf::StateDecl| d@) == okf@.declarations,
            fviews(out@) == base + decls_findings(okf@.declarations.take(k as int), okf@),
        decreases decls.len() - k,
    {
        let d = &decls[k];
        proof {
            assert(okf@.declarations[k as int] == d@);
            assert(okf@.declarations.take(k + 1).drop_last() =~= okf@.declarations.take(k as int));
        }
        let at = join3("subjects.", d.subject.as_str(), ".states");
        let path = index_path_of(at.as_str(), d.index);
        match &d.id {
            None => {
                let m = join3(
                    "state declaration carries no `id` — it names no state, so it drops out of `",
                    d.subject.as_str(),
                    "`'s state space",
                );
                push_finding(&mut out, d.file.as_str(), path.as_str(), Rule::MalformedState, m);
            },
            Some(_) => {
                criterion(d.file.as_str(), path.as_str(), &d.reference, &d.source, okf, &mut out, "state declaration");
            },
        }
        proof {
            assert(fviews(out@) =~= base + decls_findings(okf@.declarations.take(k + 1), okf@));
        }
        k = k + 1;
    }
    proof {
        assert(okf@.declarations.take(decls@.len() as int) =~= okf@.declarations);
    }
    out
}

} // verus!
