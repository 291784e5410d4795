//! What the checks promise together, across modules.

use vstd::prelude::*;
use crate::yaml::{Yaml, has_key, lemma_lookup_without, lookup, without_key};
use crate::rule::{Family, Rule, finding, group_relabel, group_rules_in, in_family, lemma_rules_in_widen, relabel, rules_in};
use crate::okf::OkfV;
use crate::checks::{always_findings, bundle_backed_findings};
use crate::leak::{lemma_leak_relabel, lemma_leak_rules, leak_findings};
use crate::ground::{anchor_findings, lemma_grounding_rules, lemma_structural_relabel, structural_findings};
use crate::cover::{cover_findings, lemma_cover_rules};
use crate::conflict::{conflict_findings, lemma_conflict_relabel, lemma_conflict_rules};
use crate::seam::{lemma_seam_relabel, lemma_seam_rules, seam_findings};
use crate::regime::{lemma_regime_relabel, lemma_regime_rules, regime_findings};
use crate::norm::is_aggregation;
use crate::leak::{commitment_color_msg, commitment_colors, faked, faked_msg, field_color, node_findings, walk, walk_entries, walk_items};
use crate::norm::colored;
use crate::text::{child_path, index_path};
use crate::yaml::key_text;
use crate::ground::{Kind, NodeV, ground_entries, ground_items, ground_nodes, missing_msg, nodes_of, structural_all, structural_node};
use crate::rule::FindingV;
use crate::regime::{cross_msg, regime_all, regime_entries, regime_items, regime_norm, regime_walk};
use crate::norm::{norm_path, norms_of};
use crate::text::dot_path;

verus! {

/// At the aggregation node it is deleted from, deleting a citation never makes
/// the checker say less. A node is an aggregation by its `factors`, never by
/// its `grounds`: with its `grounds` entry removed it is still recognized, so
/// its LEAK-3 finding for a formula stays exactly as it was, and the node, now
/// a criterion without a citation, trips GROUND-1.
pub proof fn lemma_citation_is_not_the_recognizer(
    m: Seq<(Yaml, Yaml)>,
    uncited: Vec<(Yaml, Yaml)>,
    file: Seq<char>,
    path: Seq<char>,
)
    requires
        is_aggregation(m),
        uncited@ == without_key(m, "grounds"@),
    ensures
        is_aggregation(uncited@),
        faked(uncited@, file, path) == faked(m, file, path),
        ground_nodes(Yaml::Mapping(uncited), path).len() > 0,
        structural_node(ground_nodes(Yaml::Mapping(uncited), path)[0], file) == seq![
            finding(file, path, Rule::MissingCitation, missing_msg("judgment criterion"@)),
        ],
{
    reveal_strlit("grounds");
    reveal_strlit("factors");
    reveal_strlit("test");
    reveal_strlit("formula");
    assert("factors"@[0] != "grounds"@[0]);
    assert("formula"@[0] != "grounds"@[0]);
    assert("test"@.len() != "grounds"@.len());
    lemma_lookup_without(m, "grounds"@, "factors"@);
    lemma_lookup_without(m, "grounds"@, "test"@);
    lemma_lookup_without(m, "grounds"@, "formula"@);
    assert(has_key(uncited@, "factors"@) == has_key(m, "factors"@));
    assert(lookup(uncited@, "grounds"@) is None);
}


/// The bundle-backed checks run only against a bundle, and only they do: the
/// always-on run never reports GROUND-3 or any COVER rule (coverage is silent
/// without a bundle), the bundle-backed run reports nothing but GROUND-3,
/// COVER-1 and COVER-2, and so a caller running both never gets the same
/// finding twice.
pub proof fn lemma_runs_never_overlap(doc: Yaml, file: Seq<char>, okf: OkfV)
    ensures
        rules_in(always_findings(doc, file), Family::AlwaysOn),
        rules_in(bundle_backed_findings(doc, file, okf), Family::BundleBacked),
        forall|k: int|
            0 <= k < always_findings(doc, file).len() ==> {
                let r = (#[trigger] always_findings(doc, file)[k]).rule;
                &&& r !is DanglingAnchor
                &&& r !is UncoveredState
                &&& r !is UndeclaredStateClaimed
                &&& r !is MalformedState
                &&& r !is UnreadableStateSpace
            },
        forall|i: int, j: int|
            0 <= i < always_findings(doc, file).len() && 0 <= j < bundle_backed_findings(doc, file, okf).len()
                ==> #[trigger] always_findings(doc, file)[i] != #[trigger] bundle_backed_findings(doc, file, okf)[j],
{
    broadcast use group_rules_in;
    lemma_leak_rules(doc, file);
    lemma_grounding_rules(doc, file, okf);
    lemma_conflict_rules(doc, file);
    lemma_seam_rules(doc, file);
    lemma_regime_rules(doc, file);
    lemma_cover_rules(doc, file, okf);
    lemma_rules_in_widen(leak_findings(doc, file), Family::Leak, Family::AlwaysOn);
    lemma_rules_in_widen(structural_findings(doc, file), Family::Citation, Family::AlwaysOn);
    lemma_rules_in_widen(conflict_findings(doc, file), Family::Conflict, Family::AlwaysOn);
    lemma_rules_in_widen(seam_findings(doc, file), Family::Seam, Family::AlwaysOn);
    lemma_rules_in_widen(regime_findings(doc, file), Family::Regime, Family::AlwaysOn);
    lemma_rules_in_widen(anchor_findings(doc, file, okf), Family::Anchor, Family::BundleBacked);
    lemma_rules_in_widen(cover_findings(doc, file, okf), Family::Coverage, Family::BundleBacked);
    let a = always_findings(doc, file);
    let b = bundle_backed_findings(doc, file, okf);
    assert(rules_in(a, Family::AlwaysOn));
    assert(rules_in(b, Family::BundleBacked));
    assert forall|i: int, j: int| 0 <= i < a.len() && 0 <= j < b.len() implies #[trigger] a[i] != #[trigger] b[j] by {
        assert(in_family(a[i].rule, Family::AlwaysOn));
        assert(in_family(b[j].rule, Family::BundleBacked));
    }
}


/// The file label reaches nothing but the findings' `file`: every finding the
/// always-on run reports carries the label it was given, and the same
/// document run under another label reports the same findings, in the same
/// order, each with the other label.
pub proof fn lemma_label_is_only_a_label(doc: Yaml, file: Seq<char>, other: Seq<char>)
    ensures
        forall|k: int|
            0 <= k < always_findings(doc, file).len() ==> (#[trigger] always_findings(doc, file)[k]).file
                == file,
        always_findings(doc, other) == relabel(always_findings(doc, file), other),
{
    broadcast use group_relabel;
    lemma_leak_relabel(doc, file, other);
    lemma_structural_relabel(doc, file, other);
    lemma_conflict_relabel(doc, file, other);
    lemma_seam_relabel(doc, file, other);
    lemma_regime_relabel(doc, file, other);
    lemma_leak_relabel(doc, other, file);
    lemma_structural_relabel(doc, other, file);
    lemma_conflict_relabel(doc, other, file);
    lemma_seam_relabel(doc, other, file);
    lemma_regime_relabel(doc, other, file);
    assert(always_findings(doc, file) == relabel(always_findings(doc, other), file));
}


// ---------------------------------------------------------------------------
// Routes into a document.

/// One step down a value tree: into the value of a mapping's `k`-th entry,
/// or to a sequence's `k`-th item.
pub enum Step {
    Entry(int),
    Item(int),
}

/// The node a route leads to, if it leads anywhere.
pub open spec fn node_at(v: Yaml, r: Seq<Step>) -> Option<Yaml>
    decreases r.len(),
{
    if r.len() == 0 {
        Some(v)
    } else {
        match (v, r[0]) {
            (Yaml::Mapping(m), Step::Entry(k)) => if 0 <= k < m@.len() {
                node_at(m@[k].1, r.drop_first())
            } else {
                None
            },
            (Yaml::Sequence(s), Step::Item(k)) => if 0 <= k < s@.len() {
                node_at(s@[k], r.drop_first())
            } else {
                None
            },
            _ => None,
        }
    }
}

/// The path findings name the node a route leads to by, from `path` on.
pub open spec fn path_at(v: Yaml, r: Seq<Step>, path: Seq<char>) -> Seq<char>
    decreases r.len(),
{
    if r.len() == 0 {
        path
    } else {
        match (v, r[0]) {
            (Yaml::Mapping(m), Step::Entry(k)) => if 0 <= k < m@.len() {
                path_at(m@[k].1, r.drop_first(), child_path(path, key_text(m@[k].0)))
            } else {
                path
            },
            (Yaml::Sequence(s), Step::Item(k)) => if 0 <= k < s@.len() {
                path_at(s@[k], r.drop_first(), index_path(path, k as nat))
            } else {
                path
            },
            _ => path,
        }
    }
}

/// The route never steps into an `inputs:` entry (whose judgment entries are
/// inputs, not criteria).
pub open spec fn clear_of_inputs(v: Yaml, r: Seq<Step>) -> bool
    decreases r.len(),
{
    if r.len() == 0 {
        true
    } else {
        match (v, r[0]) {
            (Yaml::Mapping(m), Step::Entry(k)) => 0 <= k < m@.len() && key_text(m@[k].0) != "inputs"@
                && clear_of_inputs(m@[k].1, r.drop_first()),
            (Yaml::Sequence(s), Step::Item(k)) => 0 <= k < s@.len() && clear_of_inputs(s@[k], r.drop_first()),
            _ => false,
        }
    }
}

proof fn lemma_contains_add(a: Seq<FindingV>, b: Seq<FindingV>, x: FindingV)
    ensures
        a.contains(x) ==> (a + b).contains(x),
        b.contains(x) ==> (a + b).contains(x),
{
    if a.contains(x) {
        let k = choose|k: int| 0 <= k < a.len() && a[k] == x;
        assert((a + b)[k] == x);
    }
    if b.contains(x) {
        let k = choose|k: int| 0 <= k < b.len() && b[k] == x;
        assert((a + b)[a.len() + k] == x);
    }
}

proof fn lemma_nodes_add(a: Seq<NodeV>, b: Seq<NodeV>, x: NodeV)
    ensures
        a.contains(x) ==> (a + b).contains(x),
        b.contains(x) ==> (a + b).contains(x),
{
    if a.contains(x) {
        let k = choose|k: int| 0 <= k < a.len() && a[k] == x;
        assert((a + b)[k] == x);
    }
    if b.contains(x) {
        let k = choose|k: int| 0 <= k < b.len() && b[k] == x;
        assert((a + b)[a.len() + k] == x);
    }
}

proof fn lemma_leak_entries_reach(
    es: Seq<(Yaml, Yaml)>,
    k: int,
    file: Seq<char>,
    path: Seq<char>,
    judgment: Seq<Seq<char>>,
    subject: Option<Seq<char>>,
    x: FindingV,
)
    requires
        0 <= k < es.len(),
        walk(es[k].1, file, child_path(path, key_text(es[k].0)), judgment, subject).contains(x),
    ensures
        walk_entries(es, file, path, judgment, subject).contains(x),
    decreases es.len(),
{
    let prev = walk_entries(es.drop_last(), file, path, judgment, subject);
    let last = walk(es.last().1, file, child_path(path, key_text(es.last().0)), judgment, subject);
    if k < es.len() - 1 {
        assert(es.drop_last()[k] == es[k]);
        lemma_leak_entries_reach(es.drop_last(), k, file, path, judgment, subject, x);
    }
    lemma_contains_add(prev, last, x);
}

proof fn lemma_leak_items_reach(
    items: Seq<Yaml>,
    k: int,
    file: Seq<char>,
    path: Seq<char>,
    judgment: Seq<Seq<char>>,
    subject: Option<Seq<char>>,
    x: FindingV,
)
    requires
        0 <= k < items.len(),
        walk(items[k], file, index_path(path, k as nat), judgment, subject).contains(x),
    ensures
        walk_items(items, file, path, judgment, subject).contains(x),
    decreases items.len(),
{
    let prev = walk_items(items.drop_last(), file, path, judgment, subject);
    let last = walk(items.last(), file, index_path(path, (items.len() - 1) as nat), judgment, subject);
    if k < items.len() - 1 {
        assert(items.drop_last()[k] == items[k]);
        lemma_leak_items_reach(items.drop_last(), k, file, path, judgment, subject, x);
    }
    lemma_contains_add(prev, last, x);
}

/// The leak walk reaches what a route's node reports itself: its LEAK-4
/// commitment findings and its LEAK-3.
proof fn lemma_leak_reaches(
    v: Yaml,
    r: Seq<Step>,
    m: Vec<(Yaml, Yaml)>,
    file: Seq<char>,
    path: Seq<char>,
    judgment: Seq<Seq<char>>,
    subject: Option<Seq<char>>,
    x: FindingV,
)
    requires
        node_at(v, r) == Some(Yaml::Mapping(m)),
        commitment_colors(m@, file, path_at(v, r, path)).contains(x) || faked(
            m@,
            file,
            path_at(v, r, path),
        ).contains(x),
    ensures
        walk(v, file, path, judgment, subject).contains(x),
    decreases r.len(),
{
    if r.len() == 0 {
        let subj = crate::leak::subject_at(m@, subject);
        let nf = node_findings(m@, file, path, judgment, subj);
        let cc = commitment_colors(m@, file, path);
        let fk = faked(m@, file, path);
        let mech = nf.subrange(0, nf.len() - fk.len() - cc.len());
        assert(nf =~= mech + cc + fk);
        lemma_contains_add(mech, cc, x);
        lemma_contains_add(mech + cc, fk, x);
        lemma_contains_add(nf, walk_entries(m@, file, path, judgment, subj), x);
    } else {
        match (v, r[0]) {
            (Yaml::Mapping(mv), Step::Entry(k)) => {
                let subj = crate::leak::subject_at(mv@, subject);
                let cp = child_path(path, key_text(mv@[k].0));
                lemma_leak_reaches(mv@[k].1, r.drop_first(), m, file, cp, judgment, subj, x);
                lemma_leak_entries_reach(mv@, k, file, path, judgment, subj, x);
                lemma_contains_add(
                    node_findings(mv@, file, path, judgment, subj),
                    walk_entries(mv@, file, path, judgment, subj),
                    x,
                );
            },
            (Yaml::Sequence(sv), Step::Item(k)) => {
                lemma_leak_reaches(sv@[k], r.drop_first(), m, file, index_path(path, k as nat), judgment, subject, x);
                lemma_leak_items_reach(sv@, k, file, path, judgment, subject, x);
            },
            _ => {},
        }
    }
}

/// The color a commitment field's value declares: the string `color` of a
/// mapping; a bare value declares none.
pub open spec fn declared_color(value: Yaml) -> Option<Seq<char>> {
    match value {
        Yaml::Mapping(_) => crate::yaml::str_field(value, "color"@),
        _ => None,
    }
}

/// LEAK-4 reaches every commitment, anywhere in a document. Wherever a route
/// leads to a mapping whose `commitment` is a mapping with a `method` or a
/// `measure` entry, and that entry declares no color among mechanical |
/// judgment | election (a bare value declares none), the leak check reports
/// it at the node's path followed by `.commitment.` and the field's name.
pub proof fn lemma_uncolored_commitment_field(
    doc: Yaml,
    r: Seq<Step>,
    m: Vec<(Yaml, Yaml)>,
    c: Vec<(Yaml, Yaml)>,
    field: Seq<char>,
    value: Yaml,
    file: Seq<char>,
)
    requires
        field == "method"@ || field == "measure"@,
        node_at(doc, r) == Some(Yaml::Mapping(m)),
        lookup(m@, "commitment"@) == Some(Yaml::Mapping(c)),
        lookup(c@, field) == Some(value),
        !colored(declared_color(value)),
    ensures
        leak_findings(doc, file).contains(
            finding(
                file,
                path_at(doc, r, seq![]) + ".commitment."@ + field,
                Rule::UncoloredCommitmentField,
                commitment_color_msg(field, declared_color(value)),
            ),
        ),
{
    let p = path_at(doc, r, seq![]);
    let x = finding(file, p + ".commitment."@ + field, Rule::UncoloredCommitmentField, commitment_color_msg(field, declared_color(value)));
    let fm = field_color(c@, "method"@, file, p);
    let fs = field_color(c@, "measure"@, file, p);
    assert(field_color(c@, field, file, p) == seq![x]);
    assert(seq![x][0] == x);
    assert(commitment_colors(m@, file, p) == fm + fs);
    lemma_contains_add(fm, fs, x);
    lemma_leak_reaches(doc, r, m, file, seq![], crate::leak::judgment_names(doc), None, x);
}

/// The criterion node a judgment node at `path` in mapping `m` is read as.
pub open spec fn criterion_node(m: Vec<(Yaml, Yaml)>, path: Seq<char>) -> NodeV {
    NodeV {
        path,
        kind: Kind::Criterion,
        color: crate::yaml::str_field(Yaml::Mapping(m), "color"@),
        reference: crate::okf::field_of(lookup(m@, "grounds"@), "ref"@),
        source: crate::okf::field_of(lookup(m@, "grounds"@), "source"@),
    }
}

proof fn lemma_ground_entries_reach(es: Seq<(Yaml, Yaml)>, k: int, path: Seq<char>, x: NodeV)
    requires
        0 <= k < es.len(),
        key_text(es[k].0) != "inputs"@,
        ground_nodes(es[k].1, child_path(path, key_text(es[k].0))).contains(x),
    ensures
        ground_entries(es, path).contains(x),
    decreases es.len(),
{
    let prev = ground_entries(es.drop_last(), path);
    let seg = key_text(es.last().0);
    let cp = child_path(path, seg);
    let last = if seg == "inputs"@ {
        match es.last().1 {
            Yaml::Mapping(inputs) => crate::ground::input_nodes(inputs@, cp),
            _ => Seq::<NodeV>::empty(),
        }
    } else {
        ground_nodes(es.last().1, cp)
    };
    assert(ground_entries(es, path) == prev + last);
    if k < es.len() - 1 {
        assert(es.drop_last()[k] == es[k]);
        lemma_ground_entries_reach(es.drop_last(), k, path, x);
    }
    lemma_nodes_add(prev, last, x);
}

proof fn lemma_ground_items_reach(items: Seq<Yaml>, k: int, path: Seq<char>, x: NodeV)
    requires
        0 <= k < items.len(),
        ground_nodes(items[k], index_path(path, k as nat)).contains(x),
    ensures
        ground_items(items, path).contains(x),
    decreases items.len(),
{
    let prev = ground_items(items.drop_last(), path);
    let last = ground_nodes(items.last(), index_path(path, (items.len() - 1) as nat));
    if k < items.len() - 1 {
        assert(items.drop_last()[k] == items[k]);
        lemma_ground_items_reach(items.drop_last(), k, path, x);
    }
    lemma_nodes_add(prev, last, x);
}

/// Grounding collects as a criterion every judgment- or election-colored
/// mapping, and every aggregation, that a route clear of `inputs:` leads to.
proof fn lemma_ground_reaches(v: Yaml, r: Seq<Step>, m: Vec<(Yaml, Yaml)>, path: Seq<char>)
    requires
        node_at(v, r) == Some(Yaml::Mapping(m)),
        clear_of_inputs(v, r),
        crate::ground::judgment_colored(crate::yaml::str_field(Yaml::Mapping(m), "color"@)) || is_aggregation(m@),
    ensures
        ground_nodes(v, path).contains(criterion_node(m, path_at(v, r, path))),
    decreases r.len(),
{
    let x = criterion_node(m, path_at(v, r, path));
    if r.len() == 0 {
        let here = seq![x];
        assert(ground_nodes(v, path) == here + ground_entries(m@, path));
        assert(here[0] == x);
        lemma_nodes_add(here, ground_entries(m@, path), x);
    } else {
        match (v, r[0]) {
            (Yaml::Mapping(mv), Step::Entry(k)) => {
                let cp = child_path(path, key_text(mv@[k].0));
                lemma_ground_reaches(mv@[k].1, r.drop_first(), m, cp);
                lemma_ground_entries_reach(mv@, k, path, x);
                let color = crate::yaml::str_field(v, "color"@);
                let here = if crate::ground::judgment_colored(color) || is_aggregation(mv@) {
                    seq![criterion_node(mv, path)]
                } else {
                    Seq::<NodeV>::empty()
                };
                assert(ground_nodes(v, path) == here + ground_entries(mv@, path));
                lemma_nodes_add(here, ground_entries(mv@, path), x);
            },
            (Yaml::Sequence(sv), Step::Item(k)) => {
                lemma_ground_reaches(sv@[k], r.drop_first(), m, index_path(path, k as nat));
                lemma_ground_items_reach(sv@, k, path, x);
            },
            _ => {},
        }
    }
}

proof fn lemma_structural_reaches(ns: Seq<NodeV>, n: NodeV, file: Seq<char>, x: FindingV)
    requires
        ns.contains(n),
        structural_node(n, file).contains(x),
    ensures
        structural_all(ns, file).contains(x),
    decreases ns.len(),
{
    let k = choose|k: int| 0 <= k < ns.len() && ns[k] == n;
    let prev = structural_all(ns.drop_last(), file);
    let last = structural_node(ns.last(), file);
    if k < ns.len() - 1 {
        assert(ns.drop_last()[k] == n);
        lemma_structural_reaches(ns.drop_last(), n, file, x);
    }
    lemma_contains_add(prev, last, x);
}

/// Deleting a citation never silences the two checks it concerns, anywhere in
/// a document. Take a document whose node at a route is a cited aggregation,
/// and one whose node at that route is the same aggregation with its
/// `grounds` entry removed (named by the same path). If the cited aggregation
/// carries a formula, both documents report its LEAK-3 at that path; and the
/// uncited one reports GROUND-1 there (unless the route runs through an
/// `inputs:` entry, where nothing is a criterion).
pub proof fn lemma_uncited_aggregation_in_document(
    doc: Yaml,
    uncited_doc: Yaml,
    r: Seq<Step>,
    cited: Vec<(Yaml, Yaml)>,
    uncited: Vec<(Yaml, Yaml)>,
    file: Seq<char>,
)
    requires
        is_aggregation(cited@),
        uncited@ == without_key(cited@, "grounds"@),
        node_at(doc, r) == Some(Yaml::Mapping(cited)),
        node_at(uncited_doc, r) == Some(Yaml::Mapping(uncited)),
        path_at(uncited_doc, r, seq![]) == path_at(doc, r, seq![]),
    ensures
        ({
            let p = path_at(doc, r, seq![]);
            let leak3 = finding(file, p, Rule::FakedAggregation, faked_msg());
            &&& faked(cited@, file, p).len() > 0 ==> leak_findings(doc, file).contains(leak3)
                && leak_findings(uncited_doc, file).contains(leak3)
            &&& clear_of_inputs(uncited_doc, r) ==> structural_findings(uncited_doc, file).contains(
                finding(file, p, Rule::MissingCitation, missing_msg("judgment criterion"@)),
            )
        }),
{
    let p = path_at(doc, r, seq![]);
    lemma_citation_is_not_the_recognizer(cited@, uncited, file, p);
    if faked(cited@, file, p).len() > 0 {
        let leak3 = finding(file, p, Rule::FakedAggregation, faked_msg());
        assert(faked(cited@, file, p)[0] == leak3);
        assert(faked(cited@, file, p).contains(leak3));
        lemma_leak_reaches(doc, r, cited, file, seq![], crate::leak::judgment_names(doc), None, leak3);
        lemma_leak_reaches(uncited_doc, r, uncited, file, seq![], crate::leak::judgment_names(uncited_doc), None, leak3);
    }
    if clear_of_inputs(uncited_doc, r) {
        lemma_ground_reaches(uncited_doc, r, uncited, seq![]);
        let n = criterion_node(uncited, p);
        reveal_strlit("grounds");
        lemma_lookup_without(cited@, "grounds"@, "grounds"@);
        assert(n.reference is None);
        let x = finding(file, p, Rule::MissingCitation, missing_msg("judgment criterion"@));
        assert(structural_node(n, file) == seq![x]);
        assert(structural_node(n, file)[0] == x);
        lemma_structural_reaches(nodes_of(uncited_doc), n, file, x);
    }
}


proof fn lemma_regime_entries_reach(
    es: Seq<(Yaml, Yaml)>,
    k: int,
    path: Seq<char>,
    e: Seq<char>,
    file: Seq<char>,
    x: FindingV,
)
    requires
        0 <= k < es.len(),
        regime_walk(es[k].1, dot_path(path, key_text(es[k].0)), e, file).contains(x),
    ensures
        regime_entries(es, path, e, file).contains(x),
    decreases es.len(),
{
    let prev = regime_entries(es.drop_last(), path, e, file);
    let last = regime_walk(es.last().1, dot_path(path, key_text(es.last().0)), e, file);
    if k < es.len() - 1 {
        assert(es.drop_last()[k] == es[k]);
        lemma_regime_entries_reach(es.drop_last(), k, path, e, file, x);
    }
    lemma_contains_add(prev, last, x);
}

proof fn lemma_regime_items_reach(items: Seq<Yaml>, k: int, path: Seq<char>, e: Seq<char>, file: Seq<char>, x: FindingV)
    requires
        0 <= k < items.len(),
        regime_walk(items[k], index_path(path, k as nat), e, file).contains(x),
    ensures
        regime_items(items, path, e, file).contains(x),
    decreases items.len(),
{
    let prev = regime_items(items.drop_last(), path, e, file);
    let last = regime_walk(items.last(), index_path(path, (items.len() - 1) as nat), e, file);
    if k < items.len() - 1 {
        assert(items.drop_last()[k] == items[k]);
        lemma_regime_items_reach(items.drop_last(), k, path, e, file, x);
    }
    lemma_contains_add(prev, last, x);
}

/// The regime walk from a named node (a non-empty path) reaches the REGIME-2
/// of every foreign-stamped mapping a route leads to.
proof fn lemma_regime_reaches(
    v: Yaml,
    r: Seq<Step>,
    m: Vec<(Yaml, Yaml)>,
    path: Seq<char>,
    e: Seq<char>,
    stamped: Seq<char>,
    file: Seq<char>,
)
    requires
        path.len() > 0,
        node_at(v, r) == Some(Yaml::Mapping(m)),
        crate::yaml::str_field(Yaml::Mapping(m), "regime"@) == Some(stamped),
        stamped != e,
    ensures
        regime_walk(v, path, e, file).contains(
            finding(file, path_at(v, r, path), Rule::CrossRegimeArtifact, cross_msg(stamped, e)),
        ),
    decreases r.len(),
{
    let x = finding(file, path_at(v, r, path), Rule::CrossRegimeArtifact, cross_msg(stamped, e));
    if r.len() == 0 {
        let here = seq![x];
        assert(regime_walk(v, path, e, file) == here + regime_entries(m@, path, e, file));
        assert(here[0] == x);
        lemma_contains_add(here, regime_entries(m@, path, e, file), x);
    } else {
        match (v, r[0]) {
            (Yaml::Mapping(mv), Step::Entry(k)) => {
                let seg = key_text(mv@[k].0);
                assert(dot_path(path, seg) == child_path(path, seg));
                lemma_regime_reaches(mv@[k].1, r.drop_first(), m, child_path(path, seg), e, stamped, file);
                lemma_regime_entries_reach(mv@, k, path, e, file, x);
                let here = match crate::yaml::str_field(v, "regime"@) {
                    Some(g) => if g != e {
                        seq![finding(file, path, Rule::CrossRegimeArtifact, cross_msg(g, e))]
                    } else {
                        seq![]
                    },
                    None => seq![],
                };
                assert(regime_walk(v, path, e, file) == here + regime_entries(mv@, path, e, file));
                lemma_contains_add(here, regime_entries(mv@, path, e, file), x);
            },
            (Yaml::Sequence(sv), Step::Item(k)) => {
                lemma_regime_reaches(sv@[k], r.drop_first(), m, index_path(path, k as nat), e, stamped, file);
                lemma_regime_items_reach(sv@, k, path, e, file, x);
            },
            _ => {},
        }
    }
}

proof fn lemma_regime_all_reach(ns: Seq<Yaml>, k: int, dr: Option<Seq<char>>, file: Seq<char>, x: FindingV)
    requires
        0 <= k < ns.len(),
        regime_norm(ns[k], k as nat, dr, file).contains(x),
    ensures
        regime_all(ns, dr, file).contains(x),
    decreases ns.len(),
{
    let prev = regime_all(ns.drop_last(), dr, file);
    let last = regime_norm(ns.last(), (ns.len() - 1) as nat, dr, file);
    if k < ns.len() - 1 {
        assert(ns.drop_last()[k] == ns[k]);
        lemma_regime_all_reach(ns.drop_last(), k, dr, file, x);
    }
    lemma_contains_add(prev, last, x);
}

/// REGIME-2 reaches every artifact of a norm. Take the `k`-th entry of a
/// document's `norms:` list, a mapping, scoped to regime `e` (its own
/// `regime`, else the document's). Wherever a route into that norm, through
/// mapping entries and sequence items alike, leads to a mapping whose string
/// `regime` is some other `stamped`, the regime check reports a cross-regime
/// artifact at that route's path below `norms[k]`.
pub proof fn lemma_foreign_regime_in_norm(
    doc: Yaml,
    ns: Seq<Yaml>,
    k: int,
    e: Seq<char>,
    r: Seq<Step>,
    m: Vec<(Yaml, Yaml)>,
    stamped: Seq<char>,
    file: Seq<char>,
)
    requires
        norms_of(doc) == Some(ns),
        0 <= k < ns.len(),
        ns[k] is Mapping,
        crate::yaml::str_field(ns[k], "regime"@) == Some(e) || (crate::yaml::str_field(ns[k], "regime"@) is None
            && crate::yaml::str_field(doc, "regime"@) == Some(e)),
        node_at(ns[k], r) == Some(Yaml::Mapping(m)),
        crate::yaml::str_field(Yaml::Mapping(m), "regime"@) == Some(stamped),
        stamped != e,
    ensures
        regime_findings(doc, file).contains(
            finding(file, path_at(ns[k], r, norm_path(k as nat)), Rule::CrossRegimeArtifact, cross_msg(stamped, e)),
        ),
{
    let x = finding(file, path_at(ns[k], r, norm_path(k as nat)), Rule::CrossRegimeArtifact, cross_msg(stamped, e));
    reveal_strlit("norms");
    assert(norm_path(k as nat).len() > 0);
    lemma_regime_reaches(ns[k], r, m, norm_path(k as nat), e, stamped, file);
    let dr = crate::yaml::str_field(doc, "regime"@);
    assert(regime_norm(ns[k], k as nat, dr, file) == regime_walk(ns[k], norm_path(k as nat), e, file));
    lemma_regime_all_reach(ns, k, dr, file, x);
}

/// Whether a mapping cites where it grounds: its `grounds` carries a string
/// `ref`.
pub open spec fn cites(m: Seq<(Yaml, Yaml)>) -> bool {
    match lookup(m, "grounds"@) {
        Some(g) => crate::yaml::str_field(g, "ref"@) is Some,
        None => false,
    }
}

/// GROUND-1 reaches every judgment criterion, anywhere in a document, not
/// only aggregations and predicates: wherever a route that never steps into an
/// `inputs:` entry leads to a mapping colored `judgment` or `election` (a
/// threshold, a `binds`, a commitment `method` or `measure`, a predicate) that
/// does not cite a `grounds.ref`, the grounding check reports a missing
/// citation at that route's path.
pub proof fn lemma_uncited_judgment_node(doc: Yaml, r: Seq<Step>, m: Vec<(Yaml, Yaml)>, file: Seq<char>)
    requires
        node_at(doc, r) == Some(Yaml::Mapping(m)),
        clear_of_inputs(doc, r),
        crate::yaml::str_field(Yaml::Mapping(m), "color"@) == Some("judgment"@)
            || crate::yaml::str_field(Yaml::Mapping(m), "color"@) == Some("election"@),
        !cites(m@),
    ensures
        structural_findings(doc, file).contains(
            finding(file, path_at(doc, r, seq![]), Rule::MissingCitation, missing_msg("judgment criterion"@)),
        ),
{
    let p = path_at(doc, r, seq![]);
    lemma_ground_reaches(doc, r, m, seq![]);
    let n = criterion_node(m, p);
    assert(n.reference is None);
    let x = finding(file, p, Rule::MissingCitation, missing_msg("judgment criterion"@));
    assert(structural_node(n, file) == seq![x]);
    assert(structural_node(n, file)[0] == x);
    lemma_structural_reaches(nodes_of(doc), n, file, x);
}

/// `x` is the REGIME-2 of a mapping a route from `v` leads to, named from
/// `path` on: that mapping is stamped with a string `regime` other than `e`.
pub open spec fn foreign_at(v: Yaml, r: Seq<Step>, path: Seq<char>, e: Seq<char>, file: Seq<char>, x: FindingV) -> bool {
    match node_at(v, r) {
        Some(Yaml::Mapping(m)) => match crate::yaml::str_field(Yaml::Mapping(m), "regime"@) {
            Some(stamped) => stamped != e && x == finding(
                file,
                path_at(v, r, path),
                Rule::CrossRegimeArtifact,
                cross_msg(stamped, e),
            ),
            None => false,
        },
        _ => false,
    }
}

/// The regime a norm is scoped to: its own string `regime`, else the
/// document's.
pub open spec fn scope_of(doc: Yaml, norm: Yaml) -> Option<Seq<char>> {
    match crate::yaml::str_field(norm, "regime"@) {
        Some(own) => Some(own),
        None => crate::yaml::str_field(doc, "regime"@),
    }
}

/// `x` is the REGIME-2 of a foreign-stamped mapping inside the `k`-th norm of
/// `doc` (a mapping with a regime), reached by route `r`.
pub open spec fn foreign_in_norm(doc: Yaml, k: int, r: Seq<Step>, file: Seq<char>, x: FindingV) -> bool {
    match norms_of(doc) {
        Some(ns) => 0 <= k < ns.len() && ns[k] is Mapping && match scope_of(doc, ns[k]) {
            Some(e) => foreign_at(ns[k], r, norm_path(k as nat), e, file, x),
            None => false,
        },
        None => false,
    }
}

proof fn lemma_route_entry(mv: Vec<(Yaml, Yaml)>, k: int, rest: Seq<Step>, path: Seq<char>) -> (r: Seq<Step>)
    requires
        0 <= k < mv@.len(),
    ensures
        node_at(Yaml::Mapping(mv), r) == node_at(mv@[k].1, rest),
        path_at(Yaml::Mapping(mv), r, path) == path_at(mv@[k].1, rest, child_path(path, key_text(mv@[k].0))),
        clear_of_inputs(Yaml::Mapping(mv), r) == (key_text(mv@[k].0) != "inputs"@ && clear_of_inputs(mv@[k].1, rest)),
{
    let r = seq![Step::Entry(k)] + rest;
    assert(r.drop_first() =~= rest);
    assert(r[0] == Step::Entry(k));
    r
}

proof fn lemma_route_item(sv: Vec<Yaml>, k: int, rest: Seq<Step>, path: Seq<char>) -> (r: Seq<Step>)
    requires
        0 <= k < sv@.len(),
    ensures
        node_at(Yaml::Sequence(sv), r) == node_at(sv@[k], rest),
        path_at(Yaml::Sequence(sv), r, path) == path_at(sv@[k], rest, index_path(path, k as nat)),
        clear_of_inputs(Yaml::Sequence(sv), r) == clear_of_inputs(sv@[k], rest),
{
    let r = seq![Step::Item(k)] + rest;
    assert(r.drop_first() =~= rest);
    assert(r[0] == Step::Item(k));
    r
}

proof fn lemma_in_add<A>(a: Seq<A>, b: Seq<A>, x: A)
    requires
        (a + b).contains(x),
    ensures
        a.contains(x) || b.contains(x),
{
    let j = choose|j: int| 0 <= j < (a + b).len() && (a + b)[j] == x;
    if j < a.len() {
        assert(a[j] == x);
    } else {
        assert(b[j - a.len()] == x);
    }
}

proof fn lemma_regime_walk_sound(v: Yaml, path: Seq<char>, e: Seq<char>, file: Seq<char>, x: FindingV) -> (r: Seq<Step>)
    requires
        path.len() > 0,
        regime_walk(v, path, e, file).contains(x),
    ensures
        foreign_at(v, r, path, e, file, x),
    decreases v,
{
    match v {
        Yaml::Mapping(mv) => {
            let here = match crate::yaml::str_field(v, "regime"@) {
                Some(g) => if g != e {
                    seq![finding(file, path, Rule::CrossRegimeArtifact, cross_msg(g, e))]
                } else {
                    seq![]
                },
                None => seq![],
            };
            assert(regime_walk(v, path, e, file) == here + regime_entries(mv@, path, e, file));
            lemma_in_add(here, regime_entries(mv@, path, e, file), x);
            if here.contains(x) {
                let r = Seq::<Step>::empty();
                assert(here[0] == x);
                r
            } else {
                assert(mv@.take(mv@.len() as int) =~= mv@);
                let (k, rest) = lemma_regime_entries_sound(v, mv, mv@.len() as int, path, e, file, x);
                let seg = key_text(mv@[k].0);
                assert(dot_path(path, seg) == child_path(path, seg));
                lemma_route_entry(mv, k, rest, path)
            }
        },
        Yaml::Sequence(sv) => {
            assert(sv@.take(sv@.len() as int) =~= sv@);
            let (k, rest) = lemma_regime_items_sound(v, sv, sv@.len() as int, path, e, file, x);
            lemma_route_item(sv, k, rest, path)
        },
        _ => {
            assert(regime_walk(v, path, e, file).len() == 0);
            Seq::<Step>::empty()
        },
    }
}

proof fn lemma_regime_entries_sound(
    v: Yaml,
    mv: Vec<(Yaml, Yaml)>,
    n: int,
    path: Seq<char>,
    e: Seq<char>,
    file: Seq<char>,
    x: FindingV,
) -> (kr: (int, Seq<Step>))
    requires
        v == Yaml::Mapping(mv),
        0 <= n <= mv@.len(),
        path.len() > 0,
        regime_entries(mv@.take(n), path, e, file).contains(x),
    ensures
        0 <= kr.0 < n,
        foreign_at(mv@[kr.0].1, kr.1, dot_path(path, key_text(mv@[kr.0].0)), e, file, x),
    decreases v, n,
{
    let es = mv@.take(n);
    assert(es.len() > 0);
    assert(es.drop_last() =~= mv@.take(n - 1));
    let prev = regime_entries(es.drop_last(), path, e, file);
    let last = regime_walk(es.last().1, dot_path(path, key_text(es.last().0)), e, file);
    lemma_in_add(prev, last, x);
    if prev.contains(x) {
        lemma_regime_entries_sound(v, mv, n - 1, path, e, file, x)
    } else {
        crate::yaml::lemma_entry_below(v, mv, n - 1);
        let rest = lemma_regime_walk_sound(mv@[n - 1].1, dot_path(path, key_text(mv@[n - 1].0)), e, file, x);
        (n - 1, rest)
    }
}

proof fn lemma_regime_items_sound(
    v: Yaml,
    sv: Vec<Yaml>,
    n: int,
    path: Seq<char>,
    e: Seq<char>,
    file: Seq<char>,
    x: FindingV,
) -> (kr: (int, Seq<Step>))
    requires
        v == Yaml::Sequence(sv),
        0 <= n <= sv@.len(),
        path.len() > 0,
        regime_items(sv@.take(n), path, e, file).contains(x),
    ensures
        0 <= kr.0 < n,
        foreign_at(sv@[kr.0], kr.1, index_path(path, kr.0 as nat), e, file, x),
    decreases v, n,
{
    let items = sv@.take(n);
    assert(items.len() > 0);
    assert(items.drop_last() =~= sv@.take(n - 1));
    let prev = regime_items(items.drop_last(), path, e, file);
    let last = regime_walk(items.last(), index_path(path, (n - 1) as nat), e, file);
    lemma_in_add(prev, last, x);
    if prev.contains(x) {
        lemma_regime_items_sound(v, sv, n - 1, path, e, file, x)
    } else {
        crate::yaml::lemma_item_below(v, sv, n - 1);
        let rest = lemma_regime_walk_sound(sv@[n - 1], index_path(path, (n - 1) as nat), e, file, x);
        (n - 1, rest)
    }
}

proof fn lemma_regime_all_sound(ns: Seq<Yaml>, dr: Option<Seq<char>>, file: Seq<char>, x: FindingV) -> (k: int)
    requires
        regime_all(ns, dr, file).contains(x),
        x.rule is CrossRegimeArtifact,
    ensures
        0 <= k < ns.len(),
        regime_norm(ns[k], k as nat, dr, file).contains(x),
    decreases ns.len(),
{
    let prev = regime_all(ns.drop_last(), dr, file);
    let last = regime_norm(ns.last(), (ns.len() - 1) as nat, dr, file);
    lemma_in_add(prev, last, x);
    if prev.contains(x) {
        let k = lemma_regime_all_sound(ns.drop_last(), dr, file, x);
        assert(ns.drop_last()[k] == ns[k]);
        k
    } else {
        (ns.len() - 1) as int
    }
}

/// REGIME-2 is reported only where it belongs: every cross-regime artifact
/// the regime check reports is a mapping inside some norm of the document (a
/// norm that is a mapping and has a regime, its own or the document's),
/// reached by a route through mapping entries and sequence items, stamped
/// with a string `regime` other than the norm's; the finding names that route's
/// path below `norms[k]`, the stamp and the norm's regime.
pub proof fn lemma_cross_regime_only_where_foreign(doc: Yaml, file: Seq<char>, x: FindingV)
    requires
        regime_findings(doc, file).contains(x),
        x.rule is CrossRegimeArtifact,
    ensures
        exists|k: int, r: Seq<Step>| #[trigger] foreign_in_norm(doc, k, r, file, x),
{
    let ns = norms_of(doc)->Some_0;
    let dr = crate::yaml::str_field(doc, "regime"@);
    let k = lemma_regime_all_sound(ns, dr, file, x);
    let norm = ns[k];
    assert(norm is Mapping);
    let e = scope_of(doc, norm)->Some_0;
    assert(regime_norm(norm, k as nat, dr, file) == regime_walk(norm, norm_path(k as nat), e, file));
    reveal_strlit("norms");
    assert(norm_path(k as nat).len() > 0);
    let r = lemma_regime_walk_sound(norm, norm_path(k as nat), e, file, x);
    assert(foreign_in_norm(doc, k, r, file, x));
}

/// A route from `v` clear of `inputs:` leads to a mapping that is read as a
/// criterion (colored `judgment` or `election`, or an aggregation), and `n` is
/// that criterion, named from `path` on.
pub open spec fn criterion_at(v: Yaml, r: Seq<Step>, path: Seq<char>, n: NodeV) -> bool {
    clear_of_inputs(v, r) && match node_at(v, r) {
        Some(Yaml::Mapping(m)) => (crate::ground::judgment_colored(crate::yaml::str_field(Yaml::Mapping(m), "color"@))
            || is_aggregation(m@)) && n == criterion_node(m, path_at(v, r, path)),
        _ => false,
    }
}

proof fn lemma_input_nodes_kind(es: Seq<(Yaml, Yaml)>, path: Seq<char>, n: NodeV)
    requires
        crate::ground::input_nodes(es, path).contains(n),
    ensures
        n.kind == Kind::Input,
    decreases es.len(),
{
    let prev = crate::ground::input_nodes(es.drop_last(), path);
    if prev.contains(n) {
        lemma_input_nodes_kind(es.drop_last(), path, n);
    } else {
        let j = choose|j: int| 0 <= j < crate::ground::input_nodes(es, path).len() && crate::ground::input_nodes(es, path)[j] == n;
        assert(j >= prev.len()) by {
            if j < prev.len() {
                assert(prev[j] == n);
            }
        }
    }
}

proof fn lemma_ground_sound(v: Yaml, path: Seq<char>, n: NodeV) -> (r: Seq<Step>)
    requires
        ground_nodes(v, path).contains(n),
        n.kind == Kind::Criterion,
    ensures
        criterion_at(v, r, path, n),
    decreases v,
{
    match v {
        Yaml::Mapping(mv) => {
            let color = crate::yaml::str_field(v, "color"@);
            let here = if crate::ground::judgment_colored(color) || is_aggregation(mv@) {
                seq![criterion_node(mv, path)]
            } else {
                Seq::<NodeV>::empty()
            };
            assert(ground_nodes(v, path) == here + ground_entries(mv@, path));
            lemma_in_add(here, ground_entries(mv@, path), n);
            if here.contains(n) {
                assert(here[0] == n);
                Seq::<Step>::empty()
            } else {
                assert(mv@.take(mv@.len() as int) =~= mv@);
                let (k, rest) = lemma_ground_entries_sound(v, mv, mv@.len() as int, path, n);
                lemma_route_entry(mv, k, rest, path)
            }
        },
        Yaml::Sequence(sv) => {
            assert(sv@.take(sv@.len() as int) =~= sv@);
            let (k, rest) = lemma_ground_items_sound(v, sv, sv@.len() as int, path, n);
            lemma_route_item(sv, k, rest, path)
        },
        _ => {
            assert(ground_nodes(v, path).len() == 0);
            Seq::<Step>::empty()
        },
    }
}

proof fn lemma_ground_entries_sound(v: Yaml, mv: Vec<(Yaml, Yaml)>, n: int, path: Seq<char>, x: NodeV) -> (kr: (
    int,
    Seq<Step>,
))
    requires
        v == Yaml::Mapping(mv),
        0 <= n <= mv@.len(),
        ground_entries(mv@.take(n), path).contains(x),
        x.kind == Kind::Criterion,
    ensures
        0 <= kr.0 < n,
        key_text(mv@[kr.0].0) != "inputs"@,
        criterion_at(mv@[kr.0].1, kr.1, child_path(path, key_text(mv@[kr.0].0)), x),
    decreases v, n,
{
    let es = mv@.take(n);
    assert(es.len() > 0);
    assert(es.drop_last() =~= mv@.take(n - 1));
    let prev = ground_entries(es.drop_last(), path);
    let seg = key_text(es.last().0);
    let cp = child_path(path, seg);
    let last = if seg == "inputs"@ {
        match es.last().1 {
            Yaml::Mapping(inputs) => crate::ground::input_nodes(inputs@, cp),
            _ => Seq::<NodeV>::empty(),
        }
    } else {
        ground_nodes(es.last().1, cp)
    };
    assert(ground_entries(es, path) == prev + last);
    lemma_in_add(prev, last, x);
    if prev.contains(x) {
        lemma_ground_entries_sound(v, mv, n - 1, path, x)
    } else if seg == "inputs"@ {
        match es.last().1 {
            Yaml::Mapping(inputs) => {
                lemma_input_nodes_kind(inputs@, cp, x);
            },
            _ => {},
        }
        (0, Seq::<Step>::empty())
    } else {
        crate::yaml::lemma_entry_below(v, mv, n - 1);
        let rest = lemma_ground_sound(mv@[n - 1].1, cp, x);
        (n - 1, rest)
    }
}

proof fn lemma_ground_items_sound(v: Yaml, sv: Vec<Yaml>, n: int, path: Seq<char>, x: NodeV) -> (kr: (int, Seq<Step>))
    requires
        v == Yaml::Sequence(sv),
        0 <= n <= sv@.len(),
        ground_items(sv@.take(n), path).contains(x),
        x.kind == Kind::Criterion,
    ensures
        0 <= kr.0 < n,
        criterion_at(sv@[kr.0], kr.1, index_path(path, kr.0 as nat), x),
    decreases v, n,
{
    let items = sv@.take(n);
    assert(items.len() > 0);
    assert(items.drop_last() =~= sv@.take(n - 1));
    let prev = ground_items(items.drop_last(), path);
    let last = ground_nodes(items.last(), index_path(path, (n - 1) as nat));
    lemma_in_add(prev, last, x);
    if prev.contains(x) {
        lemma_ground_items_sound(v, sv, n - 1, path, x)
    } else {
        crate::yaml::lemma_item_below(v, sv, n - 1);
        let rest = lemma_ground_sound(sv@[n - 1], index_path(path, (n - 1) as nat), x);
        (n - 1, rest)
    }
}

proof fn lemma_structural_sound(ns: Seq<NodeV>, file: Seq<char>, x: FindingV) -> (n: NodeV)
    requires
        structural_all(ns, file).contains(x),
        x.rule is MissingCitation,
    ensures
        ns.contains(n),
        n.kind == Kind::Criterion,
        n.reference is None,
        x == finding(file, n.path, Rule::MissingCitation, missing_msg("judgment criterion"@)),
    decreases ns.len(),
{
    let prev = structural_all(ns.drop_last(), file);
    let last = structural_node(ns.last(), file);
    lemma_in_add(prev, last, x);
    if prev.contains(x) {
        let n = lemma_structural_sound(ns.drop_last(), file, x);
        let j = choose|j: int| 0 <= j < ns.drop_last().len() && ns.drop_last()[j] == n;
        assert(ns[j] == n);
        n
    } else {
        let n = ns.last();
        assert(last[0] == x);
        assert(ns[ns.len() - 1] == n);
        n
    }
}

/// `x` is the GROUND-1 of an uncited criterion a route from `doc`, clear of
/// `inputs:`, leads to: a mapping colored `judgment` or `election`, or an
/// aggregation, that does not cite a `grounds.ref`.
pub open spec fn uncited_criterion_at(doc: Yaml, r: Seq<Step>, file: Seq<char>, x: FindingV) -> bool {
    clear_of_inputs(doc, r) && match node_at(doc, r) {
        Some(Yaml::Mapping(m)) => (crate::ground::judgment_colored(crate::yaml::str_field(Yaml::Mapping(m), "color"@))
            || is_aggregation(m@)) && !cites(m@) && x == finding(
            file,
            path_at(doc, r, seq![]),
            Rule::MissingCitation,
            missing_msg("judgment criterion"@),
        ),
        _ => false,
    }
}

/// GROUND-1 is reported only where it belongs: every missing citation the
/// grounding check reports is at a route that never steps into an `inputs:`
/// entry and leads to a mapping read as a criterion (colored `judgment` or
/// `election`, or an aggregation) that does not cite a `grounds.ref`.
pub proof fn lemma_missing_citation_only_where_uncited(doc: Yaml, file: Seq<char>, x: FindingV)
    requires
        structural_findings(doc, file).contains(x),
        x.rule is MissingCitation,
    ensures
        exists|r: Seq<Step>| #[trigger] uncited_criterion_at(doc, r, file, x),
{
    let n = lemma_structural_sound(nodes_of(doc), file, x);
    let r = lemma_ground_sound(doc, seq![], n);
    assert(uncited_criterion_at(doc, r, file, x));
}

/// `x` is the LEAK-4 of commitment field `field` of the commitment mapping
/// `c` at the node named `p`: the field's value declares no color among the
/// three.
pub open spec fn uncolored_field(c: Seq<(Yaml, Yaml)>, field: Seq<char>, p: Seq<char>, file: Seq<char>, x: FindingV) -> bool {
    match lookup(c, field) {
        Some(value) => !colored(declared_color(value)) && x == finding(
            file,
            p + ".commitment."@ + field,
            Rule::UncoloredCommitmentField,
            commitment_color_msg(field, declared_color(value)),
        ),
        None => false,
    }
}

/// `x` is the LEAK-4 of the `method` or the `measure` of the commitment
/// mapping of the mapping a route from `v` leads to, named from `path` on.
pub open spec fn uncolored_commitment_at(v: Yaml, r: Seq<Step>, path: Seq<char>, file: Seq<char>, x: FindingV) -> bool {
    match node_at(v, r) {
        Some(Yaml::Mapping(m)) => match lookup(m@, "commitment"@) {
            Some(Yaml::Mapping(c)) => uncolored_field(c@, "method"@, path_at(v, r, path), file, x) || uncolored_field(
                c@,
                "measure"@,
                path_at(v, r, path),
                file,
                x,
            ),
            _ => false,
        },
        _ => false,
    }
}

proof fn lemma_scan_not_leak4(
    toks: Seq<(Seq<char>, bool)>,
    inputs: Seq<Seq<char>>,
    judgment: Seq<Seq<char>>,
    subject: Option<Seq<char>>,
    file: Seq<char>,
    path: Seq<char>,
    x: FindingV,
)
    requires
        crate::leak::scan_tokens(toks, inputs, judgment, subject, file, path).contains(x),
    ensures
        x.rule !is UncoloredCommitmentField,
    decreases toks.len(),
{
    let prev = crate::leak::scan_tokens(toks.drop_last(), inputs, judgment, subject, file, path);
    let last = crate::leak::scan_token(toks.last(), inputs, judgment, subject, file, path);
    lemma_in_add(prev, last, x);
    if prev.contains(x) {
        lemma_scan_not_leak4(toks.drop_last(), inputs, judgment, subject, file, path, x);
    } else {
        assert(last.len() == 1 && last[0] == x);
    }
}

proof fn lemma_input_colors_not_leak4(ds: Seq<(Seq<char>, Option<Seq<char>>)>, file: Seq<char>, path: Seq<char>, x: FindingV)
    requires
        crate::leak::input_color_findings(ds, file, path).contains(x),
    ensures
        x.rule !is UncoloredCommitmentField,
    decreases ds.len(),
{
    let prev = crate::leak::input_color_findings(ds.drop_last(), file, path);
    let all = crate::leak::input_color_findings(ds, file, path);
    if prev.contains(x) {
        lemma_input_colors_not_leak4(ds.drop_last(), file, path, x);
    } else {
        let j = choose|j: int| 0 <= j < all.len() && all[j] == x;
        if !colored(ds.last().1) {
            assert(j >= prev.len()) by {
                if j < prev.len() {
                    assert(all[j] == prev[j]);
                }
            }
        }
    }
}

/// A LEAK-4 a node reports itself is one of its commitment's fields.
proof fn lemma_node_leak4(
    m: Seq<(Yaml, Yaml)>,
    file: Seq<char>,
    path: Seq<char>,
    judgment: Seq<Seq<char>>,
    subject: Option<Seq<char>>,
    x: FindingV,
)
    requires
        node_findings(m, file, path, judgment, subject).contains(x),
        x.rule is UncoloredCommitmentField,
    ensures
        commitment_colors(m, file, path).contains(x),
{
    let nf = node_findings(m, file, path, judgment, subject);
    let cc = commitment_colors(m, file, path);
    let fk = faked(m, file, path);
    let mech = nf.subrange(0, nf.len() - fk.len() - cc.len());
    assert(nf =~= mech + cc + fk);
    lemma_in_add(mech + cc, fk, x);
    if fk.contains(x) {
        assert(fk[0] == x);
    } else {
        lemma_in_add(mech, cc, x);
        if mech.contains(x) {
            match crate::leak::mechanical_test(m) {
                Some((test, inputs)) => {
                    let sc = crate::leak::scan_tokens(crate::expr::tokens(test), inputs, judgment, subject, file, path);
                    let ic = crate::leak::input_colors(m, file, path);
                    assert(mech =~= sc + ic);
                    lemma_in_add(sc, ic, x);
                    if sc.contains(x) {
                        lemma_scan_not_leak4(crate::expr::tokens(test), inputs, judgment, subject, file, path, x);
                    } else {
                        let inner = match lookup(m, "mechanical"@) {
                            Some(Yaml::Mapping(i)) => i@,
                            _ => m,
                        };
                        lemma_input_colors_not_leak4(crate::leak::declared_inputs(inner), file, path, x);
                    }
                },
                None => {
                    assert(mech.len() == 0);
                },
            }
        }
    }
}

proof fn lemma_leak4_walk_sound(
    v: Yaml,
    file: Seq<char>,
    path: Seq<char>,
    judgment: Seq<Seq<char>>,
    subject: Option<Seq<char>>,
    x: FindingV,
) -> (r: Seq<Step>)
    requires
        walk(v, file, path, judgment, subject).contains(x),
        x.rule is UncoloredCommitmentField,
    ensures
        uncolored_commitment_at(v, r, path, file, x),
    decreases v,
{
    match v {
        Yaml::Mapping(mv) => {
            let subj = crate::leak::subject_at(mv@, subject);
            let nf = node_findings(mv@, file, path, judgment, subj);
            lemma_in_add(nf, walk_entries(mv@, file, path, judgment, subj), x);
            if nf.contains(x) {
                lemma_node_leak4(mv@, file, path, judgment, subj, x);
                match lookup(mv@, "commitment"@) {
                    Some(Yaml::Mapping(c)) => {
                        let fm = field_color(c@, "method"@, file, path);
                        let fs = field_color(c@, "measure"@, file, path);
                        lemma_in_add(fm, fs, x);
                        if fm.contains(x) {
                            assert(fm[0] == x);
                        } else {
                            assert(fs[0] == x);
                        }
                    },
                    _ => {},
                }
                Seq::<Step>::empty()
            } else {
                assert(mv@.take(mv@.len() as int) =~= mv@);
                let (k, rest) = lemma_leak4_entries_sound(v, mv, mv@.len() as int, file, path, judgment, subj, x);
                lemma_route_entry(mv, k, rest, path)
            }
        },
        Yaml::Sequence(sv) => {
            assert(sv@.take(sv@.len() as int) =~= sv@);
            let (k, rest) = lemma_leak4_items_sound(v, sv, sv@.len() as int, file, path, judgment, subject, x);
            lemma_route_item(sv, k, rest, path)
        },
        _ => {
            assert(walk(v, file, path, judgment, subject).len() == 0);
            Seq::<Step>::empty()
        },
    }
}

proof fn lemma_leak4_entries_sound(
    v: Yaml,
    mv: Vec<(Yaml, Yaml)>,
    n: int,
    file: Seq<char>,
    path: Seq<char>,
    judgment: Seq<Seq<char>>,
    subject: Option<Seq<char>>,
    x: FindingV,
) -> (kr: (int, Seq<Step>))
    requires
        v == Yaml::Mapping(mv),
        0 <= n <= mv@.len(),
        walk_entries(mv@.take(n), file, path, judgment, subject).contains(x),
        x.rule is UncoloredCommitmentField,
    ensures
        0 <= kr.0 < n,
        uncolored_commitment_at(mv@[kr.0].1, kr.1, child_path(path, key_text(mv@[kr.0].0)), file, x),
    decreases v, n,
{
    let es = mv@.take(n);
    assert(es.len() > 0);
    assert(es.drop_last() =~= mv@.take(n - 1));
    let prev = walk_entries(es.drop_last(), file, path, judgment, subject);
    let last = walk(es.last().1, file, child_path(path, key_text(es.last().0)), judgment, subject);
    lemma_in_add(prev, last, x);
    if prev.contains(x) {
        lemma_leak4_entries_sound(v, mv, n - 1, file, path, judgment, subject, x)
    } else {
        crate::yaml::lemma_entry_below(v, mv, n - 1);
        let rest = lemma_leak4_walk_sound(mv@[n - 1].1, file, child_path(path, key_text(mv@[n - 1].0)), judgment, subject, x);
        (n - 1, rest)
    }
}

proof fn lemma_leak4_items_sound(
    v: Yaml,
    sv: Vec<Yaml>,
    n: int,
    file: Seq<char>,
    path: Seq<char>,
    judgment: Seq<Seq<char>>,
    subject: Option<Seq<char>>,
    x: FindingV,
) -> (kr: (int, Seq<Step>))
    requires
        v == Yaml::Sequence(sv),
        0 <= n <= sv@.len(),
        walk_items(sv@.take(n), file, path, judgment, subject).contains(x),
        x.rule is UncoloredCommitmentField,
    ensures
        0 <= kr.0 < n,
        uncolored_commitment_at(sv@[kr.0], kr.1, index_path(path, kr.0 as nat), file, x),
    decreases v, n,
{
    let items = sv@.take(n);
    assert(items.len() > 0);
    assert(items.drop_last() =~= sv@.take(n - 1));
    let prev = walk_items(items.drop_last(), file, path, judgment, subject);
    let last = walk(items.last(), file, index_path(path, (n - 1) as nat), judgment, subject);
    lemma_in_add(prev, last, x);
    if prev.contains(x) {
        lemma_leak4_items_sound(v, sv, n - 1, file, path, judgment, subject, x)
    } else {
        crate::yaml::lemma_item_below(v, sv, n - 1);
        let rest = lemma_leak4_walk_sound(sv@[n - 1], file, index_path(path, (n - 1) as nat), judgment, subject, x);
        (n - 1, rest)
    }
}

/// LEAK-4 is reported only where it belongs: every uncolored-commitment-field
/// finding the leak check reports is the `method` or the `measure` entry of
/// the commitment mapping of some mapping a route into the document leads to,
/// an entry that declares no color among mechanical | judgment | election; it
/// names that node's path followed by `.commitment.` and the field.
pub proof fn lemma_uncolored_commitment_only_where_uncolored(doc: Yaml, file: Seq<char>, x: FindingV)
    requires
        leak_findings(doc, file).contains(x),
        x.rule is UncoloredCommitmentField,
    ensures
        exists|r: Seq<Step>| #[trigger] uncolored_commitment_at(doc, r, seq![], file, x),
{
    let r = lemma_leak4_walk_sound(doc, file, seq![], crate::leak::judgment_names(doc), None, x);
    assert(uncolored_commitment_at(doc, r, seq![], file, x));
}

} // verus!
