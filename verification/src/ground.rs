//! Check 2 — grounding completeness: the judgment edge.
//!
//! Every judgment *hole* must carry a citation, so no open-textured predicate
//! floats ungrounded. The load-bearing distinction is **concept vs. value**:
//!
//! - A **criterion** — a judgment/election-colored node, or a
//!   judgment-aggregation — names an open-textured test. It resolves to concept
//!   prose, so it needs a `grounds.ref` (and a typed `source`).
//! - A judgment-colored **input** to a mechanical test is a *value*: it is
//!   grounded by its `source` type alone.
//!
//! Rules:
//! - **GROUND-1 — missing citation.** A criterion with no `grounds.ref`.
//! - **GROUND-2 — invalid source.** A citation whose `source` is absent or not
//!   one of the four declared types; or an `election` whose source is not
//!   `entity-election`.
//! - **GROUND-3 — dangling anchor.** A well-formed criterion `ref` that does not
//!   resolve in the OKF bundle.

use vstd::prelude::*;
use crate::yaml::{Yaml, key_text, lookup, lookup_in, str_field, opt_view, str_eq, key_str};
use crate::text::{child_path, index_path, child_path_of, index_path_of, join3, dot_path, dot_path_of};
use crate::rule::{Family, Finding, FindingV, Rule, finding, fviews, group_relabel, group_rules_in, push_finding, relabel, rules_in};
use crate::norm::{judgment_color, is_aggregation, is_judgment_color, aggregation, source_is_valid, valid_source};
use crate::okf::{Okf, OkfV, empty_okf, field_of};

verus! {

/// What kind of grounding a node needs.
#[derive(Debug, Clone, Copy, PartialEq, Eq, Structural)]
pub enum Kind {
    /// A criterion: needs a `ref` (and a valid `source`).
    Criterion,
    /// A judgment-colored input: needs only a valid `source`.
    Input,
}

/// A judgment node carrying (or lacking) a citation.
pub struct NodeV {
    pub path: Seq<char>,
    pub kind: Kind,
    pub color: Option<Seq<char>>,
    pub reference: Option<Seq<char>>,
    pub source: Option<Seq<char>>,
}

/// A judgment node carrying (or lacking) a citation.
pub struct Node {
    pub path: String,
    pub kind: Kind,
    pub color: Option<String>,
    pub reference: Option<String>,
    pub source: Option<String>,
}

impl View for Node {
    type V = NodeV;

    open spec fn view(&self) -> NodeV {
        NodeV {
            path: self.path@,
            kind: self.kind,
            color: opt_view(self.color),
            reference: opt_view(self.reference),
            source: opt_view(self.source),
        }
    }
}

pub open spec fn nviews(ns: Seq<Node>) -> Seq<NodeV> {
    ns.map_values(|n: Node| n@)
}

/// A color present and on the judgment side.
pub open spec fn judgment_colored(c: Option<Seq<char>>) -> bool {
    match c {
        Some(x) => judgment_color(x),
        None => false,
    }
}

/// The judgment-colored entries of an `inputs:` mapping, as input nodes.
pub open spec fn input_nodes(es: Seq<(Yaml, Yaml)>, path: Seq<char>) -> Seq<NodeV>
    decreases es.len(),
{
    if es.len() == 0 {
        seq![]
    } else {
        let prev = input_nodes(es.drop_last(), path);
        let (name, spec) = es.last();
        let color = str_field(spec, "color"@);
        if judgment_colored(color) {
            prev.push(
                NodeV {
                    path: dot_path(path, key_text(name)),
                    kind: Kind::Input,
                    color,
                    reference: str_field(spec, "ref"@),
                    source: str_field(spec, "source"@),
                },
            )
        } else {
            prev
        }
    }
}

/// Every judgment node in the subtree at `v`, in walk order: a mapping that
/// is judgment/election-colored or an aggregation is a criterion; the
/// judgment-colored entries of an `inputs:` mapping are inputs, and `inputs:`
/// is not descended into.
pub open spec fn ground_nodes(v: Yaml, path: Seq<char>) -> Seq<NodeV>
    decreases v,
{
    match v {
        Yaml::Mapping(m) => {
            let color = str_field(v, "color"@);
            let here = if judgment_colored(color) || is_aggregation(m@) {
                seq![
                    NodeV {
                        path,
                        kind: Kind::Criterion,
                        color,
                        reference: field_of(lookup(m@, "grounds"@), "ref"@),
                        source: field_of(lookup(m@, "grounds"@), "source"@),
                    },
                ]
            } else {
                seq![]
            };
            here + ground_entries(m@, path)
        },
        Yaml::Sequence(s) => ground_items(s@, path),
        _ => seq![],
    }
}

pub open spec fn ground_entries(es: Seq<(Yaml, Yaml)>, path: Seq<char>) -> Seq<NodeV>
    decreases es,
{
    if es.len() == 0 {
        seq![]
    } else {
        let prev = ground_entries(es.drop_last(), path);
        let seg = key_text(es.last().0);
        let cp = child_path(path, seg);
        prev + if seg == "inputs"@ {
            match es.last().1 {
                Yaml::Mapping(inputs) => input_nodes(inputs@, cp),
                _ => seq![],
            }
        } else {
            ground_nodes(es.last().1, cp)
        }
    }
}

pub open spec fn ground_items(items: Seq<Yaml>, path: Seq<char>) -> Seq<NodeV>
    decreases items,
{
    if items.len() == 0 {
        seq![]
    } else {
        ground_items(items.drop_last(), path) + ground_nodes(
            items.last(),
            index_path(path, (items.len() - 1) as nat),
        )
    }
}

/// Every judgment node of a document.
pub open spec fn nodes_of(doc: Yaml) -> Seq<NodeV> {
    ground_nodes(doc, seq![])
}

pub open spec fn missing_msg(what: Seq<char>) -> Seq<char> {
    what + " carries no `grounds.ref` — an open-textured hole must cite where it grounds"@
}

/// How a source is named in a detail line.
pub open spec fn source_desc(source: Option<Seq<char>>) -> Seq<char> {
    match source {
        Some(s) => "`"@ + s + "`"@,
        None => "absent"@,
    }
}

pub open spec fn source_msg(source: Option<Seq<char>>) -> Seq<char> {
    "`grounds.source` is "@ + source_desc(source)
        + " — must be one of standard-criterion | world-fact | legal-fact | entity-election"@
}

pub open spec fn election_msg(source: Option<Seq<char>>) -> Seq<char> {
    "an `election` grounds in entity policy, so its `grounds.source` must be `entity-election`, not `"@
        + match source {
        Some(s) => s,
        None => "absent"@,
    } + "` — a choice the standard makes for you is a judgment, not an election"@
}

pub open spec fn dangling_msg(reference: Seq<char>) -> Seq<char> {
    "`grounds.ref` `"@ + reference + "` does not resolve to an OKF anchor"@
}

/// GROUND-1 / GROUND-2 for one node: at most one finding, in rule order.
pub open spec fn structural_node(n: NodeV, file: Seq<char>) -> Seq<FindingV> {
    if n.kind == Kind::Criterion && n.reference is None {
        seq![finding(file, n.path, Rule::MissingCitation, missing_msg("judgment criterion"@))]
    } else if !source_is_valid(n.source) {
        seq![finding(file, n.path, Rule::InvalidSource, source_msg(n.source))]
    } else if n.color == Some("election"@) && n.source != Some("entity-election"@) {
        seq![finding(file, n.path, Rule::InvalidSource, election_msg(n.source))]
    } else {
        seq![]
    }
}

pub open spec fn structural_all(ns: Seq<NodeV>, file: Seq<char>) -> Seq<FindingV>
    decreases ns.len(),
{
    if ns.len() == 0 {
        seq![]
    } else {
        structural_all(ns.drop_last(), file) + structural_node(ns.last(), file)
    }
}

/// GROUND-1 / GROUND-2 over a document: structural grounding, no bundle
/// needed.
pub open spec fn structural_findings(doc: Yaml, file: Seq<char>) -> Seq<FindingV> {
    structural_all(nodes_of(doc), file)
}

/// GROUND-3 for one node: a well-formed criterion whose `ref` does not
/// resolve.
pub open spec fn anchor_node(n: NodeV, file: Seq<char>, okf: OkfV) -> Seq<FindingV> {
    if n.kind != Kind::Criterion || !source_is_valid(n.source) {
        seq![]
    } else {
        match n.reference {
            Some(r) => if !okf.resolves(r) {
                seq![finding(file, n.path, Rule::DanglingAnchor, dangling_msg(r))]
            } else {
                seq![]
            },
            None => seq![],
        }
    }
}

pub open spec fn anchors_all(ns: Seq<NodeV>, file: Seq<char>, okf: OkfV) -> Seq<FindingV>
    decreases ns.len(),
{
    if ns.len() == 0 {
        seq![]
    } else {
        anchors_all(ns.drop_last(), file, okf) + anchor_node(ns.last(), file, okf)
    }
}

/// GROUND-3 over a document: every well-formed criterion `ref` must resolve.
pub open spec fn anchor_findings(doc: Yaml, file: Seq<char>, okf: OkfV) -> Seq<FindingV> {
    anchors_all(nodes_of(doc), file, okf)
}

/// GROUND-1/2/3 for a single criterion wherever it is written: at most one
/// finding, in rule order.
pub open spec fn criterion_findings(
    file: Seq<char>,
    path: Seq<char>,
    reference: Option<Seq<char>>,
    source: Option<Seq<char>>,
    okf: OkfV,
    what: Seq<char>,
) -> Seq<FindingV> {
    match reference {
        None => seq![finding(file, path, Rule::MissingCitation, missing_msg(what))],
        Some(r) => if !source_is_valid(source) {
            seq![finding(file, path, Rule::InvalidSource, source_msg(source))]
        } else if !okf.resolves(r) {
            seq![finding(file, path, Rule::DanglingAnchor, dangling_msg(r))]
        } else {
            seq![]
        },
    }
}

// ---------------------------------------------------------------------------
// The check.

fn is_judgment_colored(c: &Option<String>) -> (r: bool)
    ensures
        r == judgment_colored(opt_view(*c)),
{
    match c {
        Some(x) => is_judgment_color(x.as_str()),
        None => false,
    }
}

fn clone_opt(o: &Option<String>) -> (r: Option<String>)
    ensures
        opt_view(r) == opt_view(*o),
{
    match o {
        Some(s) => Some(s.clone()),
        None => None,
    }
}

fn push_node(out: &mut Vec<Node>, n: Node)
    ensures
        nviews(final(out)@) == nviews(old(out)@).push(n@),
{
    out.push(n);
    proof {
        assert(nviews(final(out)@) =~= nviews(old(out)@).push(n@));
    }
}

/// The judgment-colored entries of an `inputs:` mapping, as input nodes.
fn collect_inputs(inputs: &Vec<(Yaml, Yaml)>, path: &str, out: &mut Vec<Node>)
    ensures
        nviews(final(out)@) == nviews(old(out)@) + input_nodes(inputs@, path@),
{
    let ghost start = nviews(out@);
    let mut i: usize = 0;
    while i < inputs.len()
        invariant
            i <= inputs@.len(),
            nviews(out@) == start + input_nodes(inputs@.take(i as int), path@),
        decreases inputs.len() - i,
    {
        proof {
            assert(inputs@.take(i + 1).drop_last() =~= inputs@.take(i as int));
        }
        let spec = &inputs[i].1;
        let color = spec.str_field("color");
        if is_judgment_colored(&color) {
            let name = key_str(&inputs[i].0);
            let n = Node {
                path: dot_path_of(path, name.as_str()),
                kind: Kind::Input,
                color,
                reference: spec.str_field("ref"),
                source: spec.str_field("source"),
            };
            push_node(out, n);
        }
        proof {
            assert(nviews(out@) =~= start + input_nodes(inputs@.take(i + 1), path@));
        }
        i = i + 1;
    }
    proof {
        assert(inputs@.take(inputs@.len() as int) =~= inputs@);
    }
}

/// Walk the document, collecting every judgment node (criteria and inputs).
fn collect_nodes(v: &Yaml, path: &str, out: &mut Vec<Node>)
    ensures
        nviews(final(out)@) == nviews(old(out)@) + ground_nodes(*v, path@),
    decreases v,
{
    let ghost start = nviews(out@);
    match v {
        Yaml::Mapping(m) => {
            let color = v.str_field("color");
            if is_judgment_colored(&color) || aggregation(m) {
                let grounds = lookup_in(m, "grounds");
                let reference = match grounds {
                    Some(g) => g.str_field("ref"),
                    None => None,
                };
                let source = match grounds {
                    Some(g) => g.str_field("source"),
                    None => None,
                };
                let n = Node { path: path.to_owned(), kind: Kind::Criterion, color: clone_opt(&color), reference, source };
                push_node(out, n);
            }
            let ghost mid = nviews(out@);
            proof {
                assert(mid == start + (if judgment_colored(opt_view(color)) || is_aggregation(m@) {
                    seq![NodeV {
                        path: path@,
                        kind: Kind::Criterion,
                        color: opt_view(color),
                        reference: field_of(lookup(m@, "grounds"@), "ref"@),
                        source: field_of(lookup(m@, "grounds"@), "source"@),
                    }]
                } else {
                    seq![]
                }));
            }
            let mut i: usize = 0;
            while i < m.len()
                invariant
                    i <= m@.len(),
                    *v == Yaml::Mapping(*m),
                    nviews(out@) == mid + ground_entries(m@.take(i as int), path@),
                decreases m.len() - i,
            {
                proof {
                    assert(m@.take(i + 1).drop_last() =~= m@.take(i as int));
                }
                let seg = key_str(&m[i].0);
                let child = child_path_of(path, seg.as_str());
                if str_eq(seg.as_str(), "inputs") {
                    match &m[i].1 {
                        Yaml::Mapping(inputs) => collect_inputs(inputs, child.as_str(), out),
                        _ => {},
                    }
                } else {
                    proof {
                        crate::yaml::lemma_entry_below(*v, *m, i as int);
                    }
                    collect_nodes(&m[i].1, child.as_str(), out);
                }
                proof {
                    assert(nviews(out@) =~= mid + ground_entries(m@.take(i + 1), path@));
                }
                i = i + 1;
            }
            proof {
                assert(m@.take(m@.len() as int) =~= m@);
                assert(nviews(out@) =~= start + ground_nodes(*v, path@));
            }
        },
        Yaml::Sequence(s) => {
            let mut i: usize = 0;
            while i < s.len()
                invariant
                    i <= s@.len(),
                    *v == Yaml::Sequence(*s),
                    nviews(out@) == start + ground_items(s@.take(i as int), path@),
                decreases s.len() - i,
            {
                proof {
                    assert(s@.take(i + 1).drop_last() =~= s@.take(i as int));
                    crate::yaml::lemma_item_below(*v, *s, i as int);
                }
                let child = index_path_of(path, i);
                collect_nodes(&s[i], child.as_str(), out);
                i = i + 1;
            }
            proof {
                assert(s@.take(s@.len() as int) =~= s@);
            }
        },
        _ => {
            proof {
                assert(nviews(out@) =~= start + ground_nodes(*v, path@));
            }
        },
    }
}

/// Every judgment node of a document.
pub fn collect(doc: &Yaml) -> (r: Vec<Node>)
    ensures
        nviews(r@) == nodes_of(*doc),
{
    let mut out: Vec<Node> = Vec::new();
    let root = String::new();
    collect_nodes(doc, root.as_str(), &mut out);
    proof {
        assert(nviews(out@) =~= nodes_of(*doc));
    }
    out
}

fn source_description(source: &Option<String>) -> (r: String)
    ensures
        r@ == source_desc(opt_view(*source)),
{
    match source {
        Some(s) => join3("`", s.as_str(), "`"),
        None => "absent".to_owned(),
    }
}

fn source_message(source: &Option<String>) -> (r: String)
    ensures
        r@ == source_msg(opt_view(*source)),
{
    let d = source_description(source);
    join3(
        "`grounds.source` is ",
        d.as_str(),
        " — must be one of standard-criterion | world-fact | legal-fact | entity-election",
    )
}

fn missing_message(what: &str) -> (r: String)
    ensures
        r@ == missing_msg(what@),
{
    let mut r = what.to_owned();
    crate::text::append(&mut r, " carries no `grounds.ref` — an open-textured hole must cite where it grounds");
    r
}

/// GROUND-1 / GROUND-2: structural grounding, no OKF bundle needed.
pub fn check_structural(doc: &Yaml, file: &str, out: &mut Vec<Finding>)
    ensures
        fviews(final(out)@) == fviews(old(out)@) + structural_findings(*doc, file@),
{
    let nodes = collect(doc);
    let ghost start = fviews(out@);
    let mut i: usize = 0;
    while i < nodes.len()
        invariant
            i <= nodes@.len(),
            nviews(nodes@) == nodes_of(*doc),
            fviews(out@) == start + structural_all(nviews(nodes@).take(i as int), file@),
        decreases nodes.len() - i,
    {
        proof {
            assert(nviews(nodes@).take(i + 1).drop_last() =~= nviews(nodes@).take(i as int));
            assert(nviews(nodes@).take(i + 1).last() == nodes@[i as int]@);
        }
        let node = &nodes[i];
        let is_election = match &node.color {
            Some(c) => str_eq(c.as_str(), "election"),
            None => false,
        };
        let entity = match &node.source {
            Some(s) => str_eq(s.as_str(), "entity-election"),
            None => false,
        };
        let ghost before = fviews(out@);
        if node.kind == Kind::Criterion && node.reference.is_none() {
            push_finding(out, file, node.path.as_str(), Rule::MissingCitation, missing_message("judgment criterion"));
        } else if !valid_source(&node.source) {
            push_finding(out, file, node.path.as_str(), Rule::InvalidSource, source_message(&node.source));
        } else if is_election && !entity {
            let src = match &node.source {
                Some(s) => s.clone(),
                None => "absent".to_owned(),
            };
            let msg = join3(
                "an `election` grounds in entity policy, so its `grounds.source` must be `entity-election`, not `",
                src.as_str(),
                "` — a choice the standard makes for you is a judgment, not an election",
            );
            push_finding(out, file, node.path.as_str(), Rule::InvalidSource, msg);
        }
        proof {
            assert(fviews(out@) =~= before + structural_node(nodes@[i as int]@, file@));
        }
        i = i + 1;
    }
    proof {
        assert(nviews(nodes@).take(nodes@.len() as int) =~= nviews(nodes@));
    }
}

/// GROUND-3: every well-formed criterion `ref` must resolve in `okf`.
pub fn check_anchor_refs(doc: &Yaml, file: &str, okf: &Okf, out: &mut Vec<Finding>)
    ensures
        fviews(final(out)@) == fviews(old(out)@) + anchor_findings(*doc, file@, okf@),
{
    let nodes = collect(doc);
    let ghost start = fviews(out@);
    let mut i: usize = 0;
    while i < nodes.len()
        invariant
            i <= nodes@.len(),
            nviews(nodes@) == nodes_of(*doc),
            fviews(out@) == start + anchors_all(nviews(nodes@).take(i as int), file@, okf@),
        decreases nodes.len() - i,
    {
        proof {
            assert(nviews(nodes@).take(i + 1).drop_last() =~= nviews(nodes@).take(i as int));
            assert(nviews(nodes@).take(i + 1).last() == nodes@[i as int]@);
        }
        let node = &nodes[i];
        let ghost before = fviews(out@);
        if node.kind == Kind::Criterion && valid_source(&node.source) {
            match &node.reference {
                Some(r) => {
                    if !okf.resolves(r.as_str()) {
                        let msg = join3("`grounds.ref` `", r.as_str(), "` does not resolve to an OKF anchor");
                        push_finding(out, file, node.path.as_str(), Rule::DanglingAnchor, msg);
                    }
                },
                None => {},
            }
        }
        proof {
            assert(fviews(out@) =~= before + anchor_node(nodes@[i as int]@, file@, okf@));
        }
        i = i + 1;
    }
    proof {
        assert(nviews(nodes@).take(nodes@.len() as int) =~= nviews(nodes@));
    }
}

/// GROUND-1/2/3 for a single **criterion**, wherever it is written: a norm
/// file's judgment hole, or a bundle's state declaration. One finding at most,
/// in rule order — a criterion with neither a `ref` nor a valid `source`
/// reports the missing citation, not both defects.
pub fn criterion(
    file: &str,
    path: &str,
    reference: &Option<String>,
    source: &Option<String>,
    okf: &Okf,
    out: &mut Vec<Finding>,
    what: &str,
)
    ensures
        fviews(final(out)@) == fviews(old(out)@) + criterion_findings(
            file@,
            path@,
            opt_view(*reference),
            opt_view(*source),
            okf@,
            what@,
        ),
{
    match reference {
        None => {
            push_finding(out, file, path, Rule::MissingCitation, missing_message(what));
        },
        Some(r) => {
            if !valid_source(source) {
                push_finding(out, file, path, Rule::InvalidSource, source_message(source));
            } else if !okf.resolves(r.as_str()) {
                let msg = join3("`grounds.ref` `", r.as_str(), "` does not resolve to an OKF anchor");
                push_finding(out, file, path, Rule::DanglingAnchor, msg);
            } else {
                proof {
                    assert(fviews(old(out)@) + seq![] =~= fviews(old(out)@));
                }
            }
        },
    }
}


// ---------------------------------------------------------------------------
// What each half of check 2 reports.

proof fn lemma_structural_all_rules(ns: Seq<NodeV>, file: Seq<char>)
    ensures
        rules_in(structural_all(ns, file), Family::Citation),
    decreases ns.len(),
{
    broadcast use group_rules_in;
    if ns.len() > 0 {
        lemma_structural_all_rules(ns.drop_last(), file);
        assert(rules_in(structural_node(ns.last(), file), Family::Citation));
    }
}

proof fn lemma_anchors_all_rules(ns: Seq<NodeV>, file: Seq<char>, okf: OkfV)
    ensures
        rules_in(anchors_all(ns, file, okf), Family::Anchor),
    decreases ns.len(),
{
    broadcast use group_rules_in;
    if ns.len() > 0 {
        lemma_anchors_all_rules(ns.drop_last(), file, okf);
        assert(rules_in(anchor_node(ns.last(), file, okf), Family::Anchor));
    }
}

/// Structural grounding reports GROUND-1/2 only; anchor resolution reports
/// GROUND-3 only.
pub proof fn lemma_grounding_rules(doc: Yaml, file: Seq<char>, okf: OkfV)
    ensures
        rules_in(structural_findings(doc, file), Family::Citation),
        rules_in(anchor_findings(doc, file, okf), Family::Anchor),
{
    lemma_structural_all_rules(nodes_of(doc), file);
    lemma_anchors_all_rules(nodes_of(doc), file, okf);
}


proof fn lemma_structural_all_clean(ns: Seq<NodeV>, file: Seq<char>)
    requires
        structural_all(ns, file).len() == 0,
    ensures
        forall|k: int| 0 <= k < ns.len() ==> structural_node(#[trigger] ns[k], file).len() == 0,
    decreases ns.len(),
{
    if ns.len() > 0 {
        lemma_structural_all_clean(ns.drop_last(), file);
        assert forall|k: int| 0 <= k < ns.len() implies structural_node(#[trigger] ns[k], file).len() == 0 by {
            if k < ns.len() - 1 {
                assert(ns.drop_last()[k] == ns[k]);
            }
        }
    }
}

/// Every judgment hole carries a citation: when structural grounding reports
/// nothing, every criterion of the document has a `grounds.ref`, every
/// judgment node's source is one of the four types, and every election is
/// grounded in `entity-election`.
pub proof fn lemma_clean_means_cited(doc: Yaml, file: Seq<char>)
    requires
        structural_findings(doc, file).len() == 0,
    ensures
        forall|k: int|
            0 <= k < nodes_of(doc).len() ==> {
                let n = #[trigger] nodes_of(doc)[k];
                &&& n.kind == Kind::Criterion ==> n.reference is Some
                &&& source_is_valid(n.source)
                &&& n.color == Some("election"@) ==> n.source == Some("entity-election"@)
            },
{
    lemma_structural_all_clean(nodes_of(doc), file);
}


/// A criterion, wherever it is written, gets one finding at most, in rule
/// order: a missing citation is reported as that alone, an invalid source
/// before a dangling reference, and a well-formed, resolving citation not at
/// all.
pub proof fn lemma_criterion_at_most_one(
    file: Seq<char>,
    path: Seq<char>,
    reference: Option<Seq<char>>,
    source: Option<Seq<char>>,
    okf: OkfV,
    what: Seq<char>,
)
    ensures
        criterion_findings(file, path, reference, source, okf, what).len() <= 1,
        reference is None ==> criterion_findings(file, path, reference, source, okf, what)[0].rule
            == Rule::MissingCitation,
        (reference matches Some(r) && source_is_valid(source) && okf.resolves(r)) <==> criterion_findings(
            file,
            path,
            reference,
            source,
            okf,
            what,
        ).len() == 0,
{
}


// ---------------------------------------------------------------------------
// Anchor resolution is monotonic in the bundle.

/// `f` places each item of `a` at an item of `b` equal to it, in order.
pub open spec fn increasing_into<A>(a: Seq<A>, b: Seq<A>, f: spec_fn(int) -> int) -> bool {
    &&& forall|k: int| 0 <= k < a.len() ==> 0 <= #[trigger] f(k) < b.len() && a[k] == b[f(k)]
    &&& forall|k: int, l: int| 0 <= k < l < a.len() ==> #[trigger] f(k) < #[trigger] f(l)
}

/// `a` is a subsequence of `b`: `b` with some items left out.
pub open spec fn subseq_of<A>(a: Seq<A>, b: Seq<A>) -> bool {
    exists|f: spec_fn(int) -> int| increasing_into(a, b, f)
}

proof fn lemma_subseq_refl<A>(a: Seq<A>)
    ensures
        subseq_of(a, a),
{
    let f = |k: int| k;
    assert(increasing_into(a, a, f));
}

proof fn lemma_subseq_empty<A>(b: Seq<A>)
    ensures
        subseq_of(Seq::<A>::empty(), b),
{
    let f = |k: int| k;
    assert(increasing_into(Seq::<A>::empty(), b, f));
}

proof fn lemma_subseq_add<A>(a1: Seq<A>, b1: Seq<A>, a2: Seq<A>, b2: Seq<A>)
    requires
        subseq_of(a1, b1),
        subseq_of(a2, b2),
    ensures
        subseq_of(a1 + a2, b1 + b2),
{
    let f1 = choose|f: spec_fn(int) -> int| increasing_into(a1, b1, f);
    let f2 = choose|f: spec_fn(int) -> int| increasing_into(a2, b2, f);
    let n1 = a1.len() as int;
    let m1 = b1.len() as int;
    let f = |k: int| if k < n1 { f1(k) } else { m1 + f2(k - n1) };
    let a = a1 + a2;
    let b = b1 + b2;
    assert forall|k: int| 0 <= k < a.len() implies 0 <= #[trigger] f(k) < b.len() && a[k] == b[f(k)] by {
        if k < n1 {
            assert(0 <= f1(k) < b1.len() && a1[k] == b1[f1(k)]);
        } else {
            assert(0 <= f2(k - n1) < b2.len() && a2[k - n1] == b2[f2(k - n1)]);
        }
    }
    assert forall|k: int, l: int| 0 <= k < l < a.len() implies #[trigger] f(k) < #[trigger] f(l) by {
        if l < n1 {
            assert(f1(k) < f1(l));
        } else if k < n1 {
            assert(0 <= f1(k) < b1.len());
            assert(0 <= f2(l - n1) < b2.len());
        } else {
            assert(f2(k - n1) < f2(l - n1));
        }
    }
    assert(increasing_into(a, b, f));
}

proof fn lemma_anchors_all_monotone(ns: Seq<NodeV>, file: Seq<char>, okf1: OkfV, okf2: OkfV)
    requires
        forall|r: Seq<char>| #[trigger] okf1.resolves(r) ==> okf2.resolves(r),
    ensures
        subseq_of(anchors_all(ns, file, okf2), anchors_all(ns, file, okf1)),
    decreases ns.len(),
{
    if ns.len() == 0 {
        lemma_subseq_refl(Seq::<FindingV>::empty());
    } else {
        lemma_anchors_all_monotone(ns.drop_last(), file, okf1, okf2);
        let n = ns.last();
        let x2 = anchor_node(n, file, okf2);
        let x1 = anchor_node(n, file, okf1);
        if x2.len() == 0 {
            lemma_subseq_empty(x1);
            assert(x2 =~= Seq::<FindingV>::empty());
        } else {
            let r = n.reference->Some_0;
            assert(!okf2.resolves(r));
            assert(!okf1.resolves(r));
            assert(x1 == x2);
            lemma_subseq_refl(x1);
        }
        lemma_subseq_add(
            anchors_all(ns.drop_last(), file, okf2),
            anchors_all(ns.drop_last(), file, okf1),
            x2,
            x1,
        );
    }
}

/// Declaring more anchors never adds a GROUND-3 finding: against a bundle that
/// resolves every reference another resolves (and perhaps more), anchor
/// resolution reports a subsequence of what it reports against the other.
/// Against the empty bundle it reports exactly one finding for each
/// criterion that carries a `grounds.ref` and a valid `grounds.source`, and
/// none for any other node.
pub proof fn lemma_more_anchors_fewer_findings(doc: Yaml, file: Seq<char>, okf1: OkfV, okf2: OkfV)
    requires
        forall|r: Seq<char>| #[trigger] okf1.resolves(r) ==> okf2.resolves(r),
    ensures
        subseq_of(anchor_findings(doc, file, okf2), anchor_findings(doc, file, okf1)),
        forall|k: int|
            0 <= k < nodes_of(doc).len() ==> {
                let n = #[trigger] nodes_of(doc)[k];
                &&& anchor_node(n, file, empty_okf()).len() <= 1
                &&& anchor_node(n, file, empty_okf()).len() == 1 <==> (n.kind == Kind::Criterion
                    && n.reference is Some && source_is_valid(n.source))
            },
{
    lemma_anchors_all_monotone(nodes_of(doc), file, okf1, okf2);
}


proof fn lemma_structural_all_relabel(ns: Seq<NodeV>, file: Seq<char>, g: Seq<char>)
    ensures
        structural_all(ns, g) == relabel(structural_all(ns, file), g),
    decreases ns.len(),
{
    broadcast use group_relabel;
    if ns.len() > 0 {
        lemma_structural_all_relabel(ns.drop_last(), file, g);
        assert(structural_node(ns.last(), g) == relabel(structural_node(ns.last(), file), g));
    }
}

/// Structural grounding run under another label reports the same findings,
/// relabelled.
pub proof fn lemma_structural_relabel(doc: Yaml, file: Seq<char>, g: Seq<char>)
    ensures
        structural_findings(doc, g) == relabel(structural_findings(doc, file), g),
{
    lemma_structural_all_relabel(nodes_of(doc), file, g);
}

} // verus!
