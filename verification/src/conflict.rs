//! Check 4 — conditional conflict.
//!
//! Priority is itself colored: a defeat edge carries a `binds` predicate, and
//! that predicate may be a judgment hole. So when two norms collide and the
//! edge that would resolve them binds on a judgment, the honest static report
//! is not "contradiction" but "underdetermined until grounded".
//!
//! - **CONFLICT-1 — dangling defeat.** `defeats:` names no norm in the
//!   document, or is written so that it names none at all.
//! - **CONFLICT-2 — underdetermined conflict.** A collision resolved by a
//!   `judgment`/`election`-colored `binds`.
//! - **CONFLICT-3 — determinate conflict.** The same collision where `binds`
//!   carries any other color: decidable at the seam.
//! - **CONFLICT-4 — uncolored priority.** The same collision where `binds`
//!   carries no color at all (the bare `binds: <predicate>` form always lands
//!   here).
//!
//! A collision is representational: the defeater and the defeated both
//! constrain the same commitment field with different values. A defeat edge
//! with no collision, or with no `binds`, is silent.

use vstd::prelude::*;
use crate::yaml::{Yaml, deref_opt, get, key_str, key_text, opt_view, render, render_text, str_eq, str_field, text_of, yaml_eq, yaml_equal};
use crate::text::{append, chars_of, index_path, index_path_of, join3, join5, owned, string_of, sviews};
use crate::rule::{Family, Finding, FindingV, Rule, finding, fviews, group_relabel, group_rules_in, push_finding, relabel, rules_in};
use crate::norm::{case_views, cases, cases_of, judgment_color, is_judgment_color, norm_path, norms, norms_of};

verus! {

/// Whether `f` begins with `p`.
pub open spec fn starts_with(f: Seq<char>, p: Seq<char>) -> bool {
    p.len() <= f.len() && f.take(p.len() as int) == p
}

/// A `modifies:` key with its `commitment.` prefix dropped: it names a field
/// of the defeated norm's commitment.
pub open spec fn strip_commitment(f: Seq<char>) -> Seq<char> {
    if starts_with(f, "commitment."@) {
        f.skip("commitment."@.len() as int)
    } else {
        f
    }
}

/// The `(field, value)` pairs one mapping constrains, in order, without the
/// prose `note`.
pub open spec fn field_entries(es: Seq<(Yaml, Yaml)>, strip: bool) -> Seq<(Seq<char>, Yaml)>
    decreases es.len(),
{
    if es.len() == 0 {
        seq![]
    } else {
        let key = key_text(es.last().0);
        let field = if strip { strip_commitment(key) } else { key };
        if field == "note"@ {
            field_entries(es.drop_last(), strip)
        } else {
            field_entries(es.drop_last(), strip).push((field, es.last().1))
        }
    }
}

/// What a commitment source constrains: the fields of a mapping, or nothing.
pub open spec fn source_entries(src: Option<Yaml>, strip: bool) -> Seq<(Seq<char>, Yaml)> {
    match src {
        Some(Yaml::Mapping(m)) => field_entries(m@, strip),
        _ => seq![],
    }
}

/// What the `cases:` branches constrain, branch after branch.
pub open spec fn case_entries(cs: Seq<(Seq<char>, Option<Yaml>)>) -> Seq<(Seq<char>, Yaml)>
    decreases cs.len(),
{
    if cs.len() == 0 {
        seq![]
    } else {
        case_entries(cs.drop_last()) + source_entries(cs.last().1, false)
    }
}

/// The residual branch's commitment.
pub open spec fn otherwise_commitment(norm: Yaml) -> Option<Yaml> {
    match get(norm, "otherwise"@) {
        Some(o) => get(o, "commitment"@),
        None => None,
    }
}

/// Every `(field, value)` a norm constrains at the seam: its `commitment`, its
/// residual `otherwise.commitment`, its `modifies` (keys normalized), then each
/// `cases[i].commitment`.
pub open spec fn constrained(norm: Yaml) -> Seq<(Seq<char>, Yaml)> {
    source_entries(get(norm, "commitment"@), false) + source_entries(otherwise_commitment(norm), false)
        + source_entries(get(norm, "modifies"@), true) + case_entries(cases_of(norm))
}

/// The first value `bs` gives `field` that differs from `av`.
pub open spec fn clash(field: Seq<char>, av: Yaml, bs: Seq<(Seq<char>, Yaml)>) -> Option<Yaml>
    decreases bs.len(),
{
    if bs.len() == 0 {
        None
    } else if bs[0].0 == field && !yaml_eq(av, bs[0].1) {
        Some(bs[0].1)
    } else {
        clash(field, av, bs.drop_first())
    }
}

/// A collision as a finding's detail names it: `` `field` (`x` vs `y`) ``.
pub open spec fn collision_text(field: Seq<char>, av: Yaml, bv: Yaml) -> Seq<char> {
    "`"@ + field + "` (`"@ + render_text(av) + "` vs `"@ + render_text(bv) + "`)"@
}

/// The fields on which `a`'s constraints and `b`'s differ, in `a`'s order.
pub open spec fn collisions(a: Seq<(Seq<char>, Yaml)>, b: Seq<(Seq<char>, Yaml)>) -> Seq<Seq<char>>
    decreases a.len(),
{
    if a.len() == 0 {
        seq![]
    } else {
        let (field, av) = a.last();
        collisions(a.drop_last(), b) + match clash(field, av, b) {
            Some(bv) => seq![collision_text(field, av, bv)],
            None => seq![],
        }
    }
}

/// Texts joined by `, `.
pub open spec fn join_comma(xs: Seq<Seq<char>>) -> Seq<char>
    decreases xs.len(),
{
    if xs.len() == 0 {
        seq![]
    } else if xs.len() == 1 {
        xs[0]
    } else {
        join_comma(xs.drop_last()) + ", "@ + xs.last()
    }
}

/// Each item of a `defeats:` list, at its path: its norm id when it is a
/// string, nothing otherwise.
pub open spec fn target_items(items: Seq<Yaml>, base: Seq<char>) -> Seq<(Seq<char>, Option<Seq<char>>)>
    decreases items.len(),
{
    if items.len() == 0 {
        seq![]
    } else {
        target_items(items.drop_last(), base).push(
            (index_path(base, (items.len() - 1) as nat), text_of(Some(items.last()))),
        )
    }
}

/// The norms the `i`-th norm claims to defeat, as `(path, target)`: one
/// string, a list of them, or (any other shape) one edge that names nothing.
pub open spec fn targets(norm: Yaml, i: nat) -> Seq<(Seq<char>, Option<Seq<char>>)> {
    let path = norm_path(i) + ".defeats"@;
    match get(norm, "defeats"@) {
        None => seq![],
        Some(Yaml::Text(s)) => seq![(path, Some(s@))],
        Some(Yaml::Sequence(list)) => target_items(list@, path),
        Some(_) => seq![(path, None)],
    }
}

/// Whether the norm's id is `target`.
pub open spec fn id_is(norm: Yaml, target: Seq<char>) -> bool {
    str_field(norm, "id"@) == Some(target)
}

/// `k` is the first norm whose id is `target`.
pub open spec fn first_match(ns: Seq<Yaml>, target: Seq<char>, k: int) -> bool {
    &&& 0 <= k < ns.len()
    &&& id_is(ns[k], target)
    &&& forall|l: int| 0 <= l < k ==> !id_is(#[trigger] ns[l], target)
}

/// The index of the first norm whose id is `target`.
pub open spec fn first_id(ns: Seq<Yaml>, target: Seq<char>) -> Option<int> {
    if exists|k: int| first_match(ns, target, k) {
        Some(choose|k: int| first_match(ns, target, k))
    } else {
        None
    }
}

/// How a norm is named in a finding: its id, or its path.
pub open spec fn here_of(norm: Yaml, i: nat) -> Seq<char> {
    match str_field(norm, "id"@) {
        Some(id) => id,
        None => norm_path(i),
    }
}

/// The `binds` predicate's name and color: the bare name of the abstract
/// grammar, or the `{ predicate, color }` mapping (`?` for a missing name).
pub open spec fn binding(b: Yaml) -> (Seq<char>, Option<Seq<char>>) {
    match b {
        Yaml::Text(s) => (s@, None),
        _ => (
            match str_field(b, "predicate"@) {
                Some(p) => p,
                None => "?"@,
            },
            str_field(b, "color"@),
        ),
    }
}

pub open spec fn no_target_msg() -> Seq<char> {
    "`defeats:` names no norm — it must be a norm id, or a list of them; as written the priority edge points nowhere"@
}

pub open spec fn dangling_msg(t: Seq<char>) -> Seq<char> {
    "`defeats: "@ + t + "` names no norm in this document — the priority edge points nowhere"@
}

pub open spec fn underdetermined_msg(p: Seq<char>, here: Seq<char>, t: Seq<char>, fields: Seq<char>, c: Seq<char>) -> Seq<char> {
    "underdetermined("@ + p + ") — `"@ + here + "` defeats `"@ + t + "` on "@ + fields + ", bound by a "@ + c
        + " predicate: the conflict cannot be resolved until that hole is grounded, so it is not a static contradiction (DESIGN §4.4)"@
}

pub open spec fn determinate_msg(p: Seq<char>, here: Seq<char>, t: Seq<char>, fields: Seq<char>, c: Seq<char>) -> Seq<char> {
    "`"@ + here + "` defeats `"@ + t + "` on "@ + fields + ", bound by a "@ + c + " predicate `"@ + p
        + "` — the collision is real and decidable at the seam"@
}

pub open spec fn uncolored_msg(p: Seq<char>, here: Seq<char>, t: Seq<char>, fields: Seq<char>) -> Seq<char> {
    "`"@ + here + "` defeats `"@ + t + "` on "@ + fields + ", bound by `"@ + p
        + "` which carries no color — priority is itself colored (DESIGN §3), and an uncolored predicate cannot be called decidable"@
}

/// The finding a colliding edge gets, by the color of its `binds`.
pub open spec fn bound_finding(
    b: Yaml,
    here: Seq<char>,
    t: Seq<char>,
    fields: Seq<char>,
    path: Seq<char>,
    file: Seq<char>,
) -> FindingV {
    let (p, color) = binding(b);
    match color {
        Some(c) => if judgment_color(c) {
            finding(file, path, Rule::UnderdeterminedConflict, underdetermined_msg(p, here, t, fields, c))
        } else {
            finding(file, path, Rule::DeterminateConflict, determinate_msg(p, here, t, fields, c))
        },
        None => finding(file, path, Rule::UncoloredPriority, uncolored_msg(p, here, t, fields)),
    }
}

/// Check 4 for one defeat edge of the `i`-th norm.
pub open spec fn edge_findings(
    ns: Seq<Yaml>,
    i: nat,
    path: Seq<char>,
    target: Option<Seq<char>>,
    file: Seq<char>,
) -> Seq<FindingV> {
    match target {
        None => seq![finding(file, path, Rule::DanglingDefeat, no_target_msg())],
        Some(t) => match first_id(ns, t) {
            None => seq![finding(file, path, Rule::DanglingDefeat, dangling_msg(t))],
            Some(j) => {
                let cs = collisions(constrained(ns[i as int]), constrained(ns[j]));
                if cs.len() == 0 {
                    seq![]
                } else {
                    match get(ns[i as int], "binds"@) {
                        None => seq![],
                        Some(b) => seq![
                            bound_finding(b, here_of(ns[i as int], i), t, join_comma(cs), path, file),
                        ],
                    }
                }
            },
        },
    }
}

/// Check 4 for the given edges of the `i`-th norm, in order.
pub open spec fn edges_findings(
    ns: Seq<Yaml>,
    i: nat,
    ts: Seq<(Seq<char>, Option<Seq<char>>)>,
    file: Seq<char>,
) -> Seq<FindingV>
    decreases ts.len(),
{
    if ts.len() == 0 {
        seq![]
    } else {
        edges_findings(ns, i, ts.drop_last(), file) + edge_findings(ns, i, ts.last().0, ts.last().1, file)
    }
}

/// Check 4 for the first `k` norms of `ns`.
pub open spec fn conflict_all(ns: Seq<Yaml>, k: nat, file: Seq<char>) -> Seq<FindingV>
    decreases k,
{
    if k == 0 {
        seq![]
    } else {
        let i = (k - 1) as nat;
        conflict_all(ns, i, file) + edges_findings(ns, i, targets(ns[i as int], i), file)
    }
}

/// Check 4 over a document: each defeat edge of each norm, in order.
pub open spec fn conflict_findings(doc: Yaml, file: Seq<char>) -> Seq<FindingV> {
    match norms_of(doc) {
        Some(ns) => conflict_all(ns, ns.len(), file),
        None => seq![],
    }
}

/// Constrained pairs, by their field names' characters.
pub open spec fn eviews(es: Seq<(String, &Yaml)>) -> Seq<(Seq<char>, Yaml)> {
    es.map_values(|e: (String, &Yaml)| (e.0@, *e.1))
}

/// Edges, by their characters.
pub open spec fn tviews(ts: Seq<(String, Option<String>)>) -> Seq<(Seq<char>, Option<Seq<char>>)> {
    ts.map_values(|t: (String, Option<String>)| (t.0@, opt_view(t.1)))
}

fn strip_commitment_of(f: String) -> (r: String)
    ensures
        r@ == strip_commitment(f@),
{
    let cs = chars_of(f.as_str());
    let p = chars_of("commitment.");
    if p.len() > cs.len() {
        return f;
    }
    let mut i: usize = 0;
    while i < p.len()
        invariant
            p@ == "commitment."@,
            cs@ == f@,
            p@.len() <= cs@.len(),
            i <= p@.len(),
            forall|k: int| 0 <= k < i ==> cs@[k] == p@[k],
        decreases p.len() - i,
    {
        if cs[i] != p[i] {
            proof {
                assert(cs@.take(p@.len() as int)[i as int] != p@[i as int]);
            }
            return f;
        }
        i = i + 1;
    }
    proof {
        assert(cs@.take(p@.len() as int) =~= p@);
        assert(cs@.subrange(p@.len() as int, cs@.len() as int) =~= cs@.skip(p@.len() as int));
    }
    string_of(&cs, p.len(), cs.len())
}

fn push_fields<'a>(m: &'a Vec<(Yaml, Yaml)>, strip: bool, out: &mut Vec<(String, &'a Yaml)>)
    ensures
        eviews(final(out)@) == eviews(old(out)@) + field_entries(m@, strip),
{
    let ghost start = eviews(out@);
    let mut i: usize = 0;
    proof {
        assert(start + field_entries(m@.take(0), strip) =~= start);
    }
    while i < m.len()
        invariant
            i <= m@.len(),
            eviews(out@) == start + field_entries(m@.take(i as int), strip),
        decreases m.len() - i,
    {
        proof {
            assert(m@.take(i + 1).drop_last() =~= m@.take(i as int));
        }
        let mut field = key_str(&m[i].0);
        if strip {
            field = strip_commitment_of(field);
        }
        if !str_eq(field.as_str(), "note") {
            let ghost before = out@;
            out.push((field, &m[i].1));
            proof {
                assert(eviews(out@) =~= eviews(before).push((field@, m@[i as int].1)));
            }
        }
        i = i + 1;
    }
    proof {
        assert(m@.take(m@.len() as int) =~= m@);
    }
}

fn push_source<'a>(src: Option<&'a Yaml>, strip: bool, out: &mut Vec<(String, &'a Yaml)>)
    ensures
        eviews(final(out)@) == eviews(old(out)@) + source_entries(deref_opt(src), strip),
{
    match src {
        Some(Yaml::Mapping(m)) => push_fields(m, strip, out),
        _ => {
            proof {
                assert(eviews(out@) + seq![] =~= eviews(out@));
            }
        },
    }
}

fn constrained_of(norm: &Yaml) -> (r: Vec<(String, &Yaml)>)
    ensures
        eviews(r@) == constrained(*norm),
{
    let mut out: Vec<(String, &Yaml)> = Vec::new();
    proof {
        assert(eviews(out@) =~= seq![]);
    }
    push_source(norm.get("commitment"), false, &mut out);
    let oc = match norm.get("otherwise") {
        Some(o) => o.get("commitment"),
        None => None,
    };
    push_source(oc, false, &mut out);
    push_source(norm.get("modifies"), true, &mut out);
    let ghost base = eviews(out@);
    let cs = cases(norm);
    let mut k: usize = 0;
    proof {
        assert(base + case_entries(case_views(cs@).take(0)) =~= base);
    }
    while k < cs.len()
        invariant
            k <= cs@.len(),
            eviews(out@) == base + case_entries(case_views(cs@).take(k as int)),
        decreases cs.len() - k,
    {
        proof {
            assert(case_views(cs@).take(k + 1).drop_last() =~= case_views(cs@).take(k as int));
        }
        push_source(cs[k].1, false, &mut out);
        proof {
            assert(eviews(out@) =~= base + case_entries(case_views(cs@).take(k + 1)));
        }
        k = k + 1;
    }
    proof {
        assert(case_views(cs@).take(cs@.len() as int) =~= case_views(cs@));
        assert(eviews(out@) =~= constrained(*norm));
    }
    out
}

fn clash_of<'a>(field: &str, av: &Yaml, bs: &Vec<(String, &'a Yaml)>) -> (r: Option<&'a Yaml>)
    ensures
        deref_opt(r) == clash(field@, *av, eviews(bs@)),
{
    let mut j: usize = 0;
    proof {
        assert(eviews(bs@).skip(0) =~= eviews(bs@));
    }
    while j < bs.len()
        invariant
            j <= bs@.len(),
            clash(field@, *av, eviews(bs@)) == clash(field@, *av, eviews(bs@).skip(j as int)),
        decreases bs.len() - j,
    {
        proof {
            assert(eviews(bs@).skip(j as int).drop_first() =~= eviews(bs@).skip(j + 1));
            assert(eviews(bs@).skip(j as int)[0] == (bs@[j as int].0@, *bs@[j as int].1));
        }
        if str_eq(bs[j].0.as_str(), field) && !yaml_equal(av, bs[j].1) {
            return Some(bs[j].1);
        }
        j = j + 1;
    }
    None
}

fn collision_message(field: &str, av: &Yaml, bv: &Yaml) -> (r: String)
    ensures
        r@ == collision_text(field@, *av, *bv),
{
    let mut s = join5("`", field, "` (`", render(av).as_str(), "` vs `");
    append(&mut s, render(bv).as_str());
    append(&mut s, "`)");
    s
}

fn collisions_of(a: &Vec<(String, &Yaml)>, b: &Vec<(String, &Yaml)>) -> (r: Vec<String>)
    ensures
        sviews(r@) == collisions(eviews(a@), eviews(b@)),
{
    let mut out: Vec<String> = Vec::new();
    let mut i: usize = 0;
    proof {
        assert(sviews(out@) =~= collisions(eviews(a@).take(0), eviews(b@)));
    }
    while i < a.len()
        invariant
            i <= a@.len(),
            sviews(out@) == collisions(eviews(a@).take(i as int), eviews(b@)),
        decreases a.len() - i,
    {
        proof {
            assert(eviews(a@).take(i + 1).drop_last() =~= eviews(a@).take(i as int));
            assert(eviews(a@).take(i + 1).last() == (a@[i as int].0@, *a@[i as int].1));
        }
        let ghost before = out@;
        match clash_of(a[i].0.as_str(), a[i].1, b) {
            Some(bv) => {
                let t = collision_message(a[i].0.as_str(), a[i].1, bv);
                out.push(t);
                proof {
                    assert(sviews(out@) =~= sviews(before).push(t@));
                }
            },
            None => {},
        }
        proof {
            assert(sviews(out@) =~= collisions(eviews(a@).take(i + 1), eviews(b@)));
        }
        i = i + 1;
    }
    proof {
        assert(eviews(a@).take(a@.len() as int) =~= eviews(a@));
    }
    out
}

fn join_fields(xs: &Vec<String>) -> (r: String)
    ensures
        r@ == join_comma(sviews(xs@)),
{
    let mut s = String::new();
    let mut i: usize = 0;
    proof {
        assert(sviews(xs@).take(0) =~= seq![]);
    }
    while i < xs.len()
        invariant
            i <= xs@.len(),
            s@ == join_comma(sviews(xs@).take(i as int)),
        decreases xs.len() - i,
    {
        proof {
            assert(sviews(xs@).take(i + 1).drop_last() =~= sviews(xs@).take(i as int));
        }
        if i > 0 {
            append(&mut s, ", ");
        }
        append(&mut s, xs[i].as_str());
        proof {
            if i == 0 {
                assert(s@ =~= sviews(xs@).take(1)[0]);
            }
        }
        i = i + 1;
    }
    proof {
        assert(sviews(xs@).take(xs@.len() as int) =~= sviews(xs@));
    }
    s
}

fn targets_of(norm: &Yaml, i: usize) -> (r: Vec<(String, Option<String>)>)
    ensures
        tviews(r@) == targets(*norm, i as nat),
{
    let mut path = index_path_of("norms", i);
    append(&mut path, ".defeats");
    let mut out: Vec<(String, Option<String>)> = Vec::new();
    match norm.get("defeats") {
        None => {},
        Some(Yaml::Text(s)) => {
            out.push((path, Some(s.clone())));
        },
        Some(Yaml::Sequence(list)) => {
            let mut k: usize = 0;
            while k < list.len()
                invariant
                    k <= list@.len(),
                    path@ == norm_path(i as nat) + ".defeats"@,
                    tviews(out@) == target_items(list@.take(k as int), path@),
                decreases list.len() - k,
            {
                proof {
                    assert(list@.take(k + 1).drop_last() =~= list@.take(k as int));
                }
                let at = index_path_of(path.as_str(), k);
                let t = match &list[k] {
                    Yaml::Text(s) => Some(s.clone()),
                    _ => None,
                };
                let ghost before = out@;
                out.push((at, t));
                proof {
                    assert(tviews(out@) =~= tviews(before).push((at@, opt_view(t))));
                }
                k = k + 1;
            }
            proof {
                assert(list@.take(list@.len() as int) =~= list@);
            }
        },
        Some(_) => {
            out.push((path, None));
        },
    }
    proof {
        assert(tviews(out@) =~= targets(*norm, i as nat));
    }
    out
}

fn position_of(ns: &Vec<Yaml>, target: &str) -> (r: Option<usize>)
    ensures
        match r {
            Some(j) => first_id(ns@, target@) == Some(j as int),
            None => first_id(ns@, target@) is None,
        },
{
    let mut k: usize = 0;
    while k < ns.len()
        invariant
            k <= ns@.len(),
            forall|l: int| 0 <= l < k ==> !id_is(#[trigger] ns@[l], target@),
        decreases ns.len() - k,
    {
        let hit = match ns[k].str_field("id") {
            Some(id) => str_eq(id.as_str(), target),
            None => false,
        };
        if hit {
            proof {
                assert(first_match(ns@, target@, k as int));
                let c = choose|c: int| first_match(ns@, target@, c);
                if c < k {
                    assert(!id_is(ns@[c], target@));
                }
                if c > k {
                    assert(!id_is(ns@[k as int], target@));
                }
            }
            return Some(k);
        }
        k = k + 1;
    }
    None
}

fn binding_of(b: &Yaml) -> (r: (String, Option<String>))
    ensures
        (r.0@, opt_view(r.1)) == binding(*b),
{
    match b {
        Yaml::Text(s) => (s.clone(), None),
        _ => {
            let p = match b.str_field("predicate") {
                Some(p) => p,
                None => owned("?"),
            };
            (p, b.str_field("color"))
        },
    }
}

fn bound_message(
    b: &Yaml,
    here: &str,
    t: &str,
    fields: &str,
    path: &str,
    file: &str,
    out: &mut Vec<Finding>,
)
    ensures
        fviews(final(out)@) == fviews(old(out)@).push(bound_finding(*b, here@, t@, fields@, path@, file@)),
{
    let (p, color) = binding_of(b);
    match color {
        Some(c) => {
            if is_judgment_color(c.as_str()) {
                let mut m = join5("underdetermined(", p.as_str(), ") — `", here, "` defeats `");
                append(&mut m, t);
                append(&mut m, "` on ");
                append(&mut m, fields);
                append(&mut m, ", bound by a ");
                append(&mut m, c.as_str());
                append(
                    &mut m,
                    " predicate: the conflict cannot be resolved until that hole is grounded, so it is not a static contradiction (DESIGN §4.4)",
                );
                push_finding(out, file, path, Rule::UnderdeterminedConflict, m);
            } else {
                let mut m = join5("`", here, "` defeats `", t, "` on ");
                append(&mut m, fields);
                append(&mut m, ", bound by a ");
                append(&mut m, c.as_str());
                append(&mut m, " predicate `");
                append(&mut m, p.as_str());
                append(&mut m, "` — the collision is real and decidable at the seam");
                push_finding(out, file, path, Rule::DeterminateConflict, m);
            }
        },
        None => {
            let mut m = join5("`", here, "` defeats `", t, "` on ");
            append(&mut m, fields);
            append(&mut m, ", bound by `");
            append(&mut m, p.as_str());
            append(
                &mut m,
                "` which carries no color — priority is itself colored (DESIGN §3), and an uncolored predicate cannot be called decidable",
            );
            push_finding(out, file, path, Rule::UncoloredPriority, m);
        },
    }
}

fn check_edge(ns: &Vec<Yaml>, i: usize, path: &str, target: &Option<String>, file: &str, out: &mut Vec<Finding>)
    requires
        i < ns@.len(),
    ensures
        fviews(final(out)@) == fviews(old(out)@) + edge_findings(ns@, i as nat, path@, opt_view(*target), file@),
{
    let ghost start = fviews(out@);
    match target {
        None => {
            push_finding(
                out,
                file,
                path,
                Rule::DanglingDefeat,
                owned("`defeats:` names no norm — it must be a norm id, or a list of them; as written the priority edge points nowhere"),
            );
            proof {
                assert(fviews(out@) =~= start + edge_findings(ns@, i as nat, path@, opt_view(*target), file@));
            }
        },
        Some(t) => match position_of(ns, t.as_str()) {
            None => {
                push_finding(
                    out,
                    file,
                    path,
                    Rule::DanglingDefeat,
                    join3("`defeats: ", t.as_str(), "` names no norm in this document — the priority edge points nowhere"),
                );
                proof {
                    assert(fviews(out@) =~= start + edge_findings(ns@, i as nat, path@, opt_view(*target), file@));
                }
            },
            Some(j) => {
                let a = constrained_of(&ns[i]);
                let b = constrained_of(&ns[j]);
                let cs = collisions_of(&a, &b);
                if cs.len() == 0 {
                    proof {
                        assert(start + seq![] =~= start);
                    }
                    return;
                }
                match ns[i].get("binds") {
                    None => {
                        proof {
                            assert(start + seq![] =~= start);
                        }
                    },
                    Some(bd) => {
                        let here = match ns[i].str_field("id") {
                            Some(id) => id,
                            None => index_path_of("norms", i),
                        };
                        let fields = join_fields(&cs);
                        bound_message(bd, here.as_str(), t.as_str(), fields.as_str(), path, file, out);
                        proof {
                            assert(fviews(out@) =~= start + edge_findings(ns@, i as nat, path@, opt_view(*target), file@));
                        }
                    },
                }
            },
        },
    }
}

fn check_norm(ns: &Vec<Yaml>, i: usize, file: &str, out: &mut Vec<Finding>)
    requires
        i < ns@.len(),
    ensures
        fviews(final(out)@) == fviews(old(out)@) + edges_findings(ns@, i as nat, targets(ns@[i as int], i as nat), file@),
{
    let ghost start = fviews(out@);
    let ts = targets_of(&ns[i], i);
    let mut k: usize = 0;
    proof {
        assert(start + edges_findings(ns@, i as nat, tviews(ts@).take(0), file@) =~= start);
    }
    while k < ts.len()
        invariant
            i < ns@.len(),
            k <= ts@.len(),
            fviews(out@) == start + edges_findings(ns@, i as nat, tviews(ts@).take(k as int), file@),
        decreases ts.len() - k,
    {
        proof {
            assert(tviews(ts@).take(k + 1).drop_last() =~= tviews(ts@).take(k as int));
            assert(tviews(ts@).take(k + 1).last() == (ts@[k as int].0@, opt_view(ts@[k as int].1)));
        }
        check_edge(ns, i, ts[k].0.as_str(), &ts[k].1, file, out);
        proof {
            assert(fviews(out@) =~= start + edges_findings(ns@, i as nat, tviews(ts@).take(k + 1), file@));
        }
        k = k + 1;
    }
    proof {
        assert(tviews(ts@).take(ts@.len() as int) =~= tviews(ts@));
    }
}

/// Run check 4 over the parsed document, appending findings.
pub fn check_conflicts(doc: &Yaml, file: &str, out: &mut Vec<Finding>)
    ensures
        fviews(final(out)@) == fviews(old(out)@) + conflict_findings(*doc, file@),
{
    let ghost start = fviews(out@);
    match norms(doc) {
        Some(ns) => {
            let mut i: usize = 0;
            proof {
                assert(start + conflict_all(ns@, 0, file@) =~= start);
            }
            while i < ns.len()
                invariant
                    i <= ns@.len(),
                    fviews(out@) == start + conflict_all(ns@, i as nat, file@),
                decreases ns.len() - i,
            {
                check_norm(ns, i, file, out);
                proof {
                    assert(fviews(out@) =~= start + conflict_all(ns@, (i + 1) as nat, file@));
                }
                i = i + 1;
            }
        },
        None => {
            proof {
                assert(start + seq![] =~= start);
            }
        },
    }
}


// ---------------------------------------------------------------------------
// How a defeat edge is judged.

/// Priority is itself colored. A defeat edge that names nothing, or no norm of
/// the document, is dangling (CONFLICT-1). One that reaches a norm is silent
/// when the two constrain no field differently, and silent when it carries no
/// `binds` (priority is then unconditional); otherwise it gets exactly one
/// finding, decided by the color of `binds` alone: CONFLICT-2 for a
/// judgment or election color, CONFLICT-3 for any other color, and CONFLICT-4
/// when there is none — an uncolored predicate is never reported as
/// decidable.
pub proof fn lemma_priority_is_colored(
    ns: Seq<Yaml>,
    i: nat,
    path: Seq<char>,
    target: Option<Seq<char>>,
    file: Seq<char>,
)
    requires
        i < ns.len(),
    ensures
        ({
            let fs = edge_findings(ns, i, path, target, file);
            match target {
                None => fs.len() == 1 && fs[0].rule == Rule::DanglingDefeat,
                Some(t) => match first_id(ns, t) {
                    None => fs.len() == 1 && fs[0].rule == Rule::DanglingDefeat,
                    Some(j) => {
                        let cs = collisions(constrained(ns[i as int]), constrained(ns[j]));
                        if cs.len() == 0 {
                            fs.len() == 0
                        } else {
                            match get(ns[i as int], "binds"@) {
                                None => fs.len() == 0,
                                Some(b) => fs.len() == 1 && fs[0].rule == match binding(b).1 {
                                    None => Rule::UncoloredPriority,
                                    Some(c) => if judgment_color(c) {
                                        Rule::UnderdeterminedConflict
                                    } else {
                                        Rule::DeterminateConflict
                                    },
                                },
                            }
                        }
                    },
                },
            }
        }),
{
}


proof fn lemma_edges_rules(ns: Seq<Yaml>, i: nat, ts: Seq<(Seq<char>, Option<Seq<char>>)>, file: Seq<char>)
    requires
        i < ns.len(),
    ensures
        rules_in(edges_findings(ns, i, ts, file), Family::Conflict),
    decreases ts.len(),
{
    broadcast use group_rules_in;
    if ts.len() > 0 {
        lemma_edges_rules(ns, i, ts.drop_last(), file);
        lemma_priority_is_colored(ns, i, ts.last().0, ts.last().1, file);
        assert(rules_in(edge_findings(ns, i, ts.last().0, ts.last().1, file), Family::Conflict));
    }
}

proof fn lemma_conflict_all_rules(ns: Seq<Yaml>, k: nat, file: Seq<char>)
    requires
        k <= ns.len(),
    ensures
        rules_in(conflict_all(ns, k, file), Family::Conflict),
    decreases k,
{
    broadcast use group_rules_in;
    if k > 0 {
        let i = (k - 1) as nat;
        lemma_conflict_all_rules(ns, i, file);
        lemma_edges_rules(ns, i, targets(ns[i as int], i), file);
    }
}

/// Check 4 reports CONFLICT rules and nothing else.
pub proof fn lemma_conflict_rules(doc: Yaml, file: Seq<char>)
    ensures
        rules_in(conflict_findings(doc, file), Family::Conflict),
{
    match norms_of(doc) {
        Some(ns) => lemma_conflict_all_rules(ns, ns.len(), file),
        None => {},
    }
}


proof fn lemma_edges_relabel(ns: Seq<Yaml>, i: nat, ts: Seq<(Seq<char>, Option<Seq<char>>)>, file: Seq<char>, g: Seq<char>)
    requires
        i < ns.len(),
    ensures
        edges_findings(ns, i, ts, g) == relabel(edges_findings(ns, i, ts, file), g),
    decreases ts.len(),
{
    broadcast use group_relabel;
    if ts.len() > 0 {
        lemma_edges_relabel(ns, i, ts.drop_last(), file, g);
        assert(edge_findings(ns, i, ts.last().0, ts.last().1, g) == relabel(
            edge_findings(ns, i, ts.last().0, ts.last().1, file),
            g,
        ));
    }
}

proof fn lemma_conflict_all_relabel(ns: Seq<Yaml>, k: nat, file: Seq<char>, g: Seq<char>)
    requires
        k <= ns.len(),
    ensures
        conflict_all(ns, k, g) == relabel(conflict_all(ns, k, file), g),
    decreases k,
{
    broadcast use group_relabel;
    if k > 0 {
        let i = (k - 1) as nat;
        lemma_conflict_all_relabel(ns, i, file, g);
        lemma_edges_relabel(ns, i, targets(ns[i as int], i), file, g);
    }
}

/// Check 4 run under another label reports the same findings, relabelled.
pub proof fn lemma_conflict_relabel(doc: Yaml, file: Seq<char>, g: Seq<char>)
    ensures
        conflict_findings(doc, g) == relabel(conflict_findings(doc, file), g),
{
    broadcast use group_relabel;
    match norms_of(doc) {
        Some(ns) => lemma_conflict_all_relabel(ns, ns.len(), file, g),
        None => {},
    }
}

/// No `(field, value)` pair of `cs` is for the field `note`.
pub open spec fn free_of_note(cs: Seq<(Seq<char>, Yaml)>) -> bool {
    forall|k: int| 0 <= k < cs.len() ==> (#[trigger] cs[k]).0 != "note"@
}

proof fn lemma_free_of_note_add(a: Seq<(Seq<char>, Yaml)>, b: Seq<(Seq<char>, Yaml)>)
    requires
        free_of_note(a),
        free_of_note(b),
    ensures
        free_of_note(a + b),
{
    assert forall|k: int| 0 <= k < (a + b).len() implies (#[trigger] (a + b)[k]).0 != "note"@ by {
        if k >= a.len() {
            assert((a + b)[k] == b[k - a.len()]);
        }
    }
}

proof fn lemma_field_entries_free_of_note(es: Seq<(Yaml, Yaml)>, strip: bool)
    ensures
        free_of_note(field_entries(es, strip)),
    decreases es.len(),
{
    if es.len() > 0 {
        lemma_field_entries_free_of_note(es.drop_last(), strip);
    }
}

proof fn lemma_case_entries_free_of_note(cs: Seq<(Seq<char>, Option<Yaml>)>)
    ensures
        free_of_note(case_entries(cs)),
    decreases cs.len(),
{
    if cs.len() > 0 {
        lemma_case_entries_free_of_note(cs.drop_last());
        match cs.last().1 {
            Some(Yaml::Mapping(m)) => lemma_field_entries_free_of_note(m@, false),
            _ => {},
        }
        lemma_free_of_note_add(case_entries(cs.drop_last()), source_entries(cs.last().1, false));
    }
}

proof fn lemma_source_free_of_note(src: Option<Yaml>, strip: bool)
    ensures
        free_of_note(source_entries(src, strip)),
{
    match src {
        Some(Yaml::Mapping(m)) => lemma_field_entries_free_of_note(m@, strip),
        _ => {},
    }
}

/// `note` is prose, not a constraint: no `(field, value)` pair a norm
/// constrains at the seam is for `note` (in its `commitment`, its
/// `otherwise.commitment`, its `modifies`, whether written `note` or
/// `commitment.note`, or any case), so a `note` never finds a clashing value
/// in another norm and never makes two norms collide.
pub proof fn lemma_note_is_prose(a: Yaml, b: Yaml, av: Yaml)
    ensures
        forall|k: int| 0 <= k < constrained(a).len() ==> (#[trigger] constrained(a)[k]).0 != "note"@,
        clash("note"@, av, constrained(b)) is None,
{
    lemma_source_free_of_note(get(a, "commitment"@), false);
    lemma_source_free_of_note(otherwise_commitment(a), false);
    lemma_source_free_of_note(get(a, "modifies"@), true);
    lemma_case_entries_free_of_note(cases_of(a));
    lemma_free_of_note_add(source_entries(get(a, "commitment"@), false), source_entries(otherwise_commitment(a), false));
    lemma_free_of_note_add(
        source_entries(get(a, "commitment"@), false) + source_entries(otherwise_commitment(a), false),
        source_entries(get(a, "modifies"@), true),
    );
    lemma_free_of_note_add(
        source_entries(get(a, "commitment"@), false) + source_entries(otherwise_commitment(a), false)
            + source_entries(get(a, "modifies"@), true),
        case_entries(cases_of(a)),
    );
    lemma_source_free_of_note(get(b, "commitment"@), false);
    lemma_source_free_of_note(otherwise_commitment(b), false);
    lemma_source_free_of_note(get(b, "modifies"@), true);
    lemma_case_entries_free_of_note(cases_of(b));
    lemma_free_of_note_add(source_entries(get(b, "commitment"@), false), source_entries(otherwise_commitment(b), false));
    lemma_free_of_note_add(
        source_entries(get(b, "commitment"@), false) + source_entries(otherwise_commitment(b), false),
        source_entries(get(b, "modifies"@), true),
    );
    lemma_free_of_note_add(
        source_entries(get(b, "commitment"@), false) + source_entries(otherwise_commitment(b), false)
            + source_entries(get(b, "modifies"@), true),
        case_entries(cases_of(b)),
    );
    lemma_clash_free_of_note(av, constrained(b));
}

proof fn lemma_clash_free_of_note(av: Yaml, bs: Seq<(Seq<char>, Yaml)>)
    requires
        free_of_note(bs),
    ensures
        clash("note"@, av, bs) is None,
    decreases bs.len(),
{
    if bs.len() > 0 {
        assert(bs[0].0 != "note"@);
        assert forall|k: int| 0 <= k < bs.drop_first().len() implies (#[trigger] bs.drop_first()[k]).0 != "note"@ by {
            assert(bs.drop_first()[k] == bs[k + 1]);
        }
        lemma_clash_free_of_note(av, bs.drop_first());
    }
}

proof fn lemma_field_entries_keep(es: Seq<(Yaml, Yaml)>, strip: bool, j: int)
    requires
        0 <= j < es.len(),
        (if strip { strip_commitment(key_text(es[j].0)) } else { key_text(es[j].0) }) != "note"@,
    ensures
        field_entries(es, strip).contains(
            (if strip { strip_commitment(key_text(es[j].0)) } else { key_text(es[j].0) }, es[j].1),
        ),
    decreases es.len(),
{
    let prev = field_entries(es.drop_last(), strip);
    if j < es.len() - 1 {
        assert(es.drop_last()[j] == es[j]);
        lemma_field_entries_keep(es.drop_last(), strip, j);
        let k = choose|k: int| 0 <= k < prev.len() && prev[k] == (
            if strip { strip_commitment(key_text(es[j].0)) } else { key_text(es[j].0) },
            es[j].1,
        );
        assert(field_entries(es, strip)[k] == prev[k]);
    } else {
        assert(field_entries(es, strip)[prev.len() as int] == (
            if strip { strip_commitment(key_text(es[j].0)) } else { key_text(es[j].0) },
            es[j].1,
        ));
    }
}

proof fn lemma_contains_add_pair(a: Seq<(Seq<char>, Yaml)>, b: Seq<(Seq<char>, Yaml)>, x: (Seq<char>, Yaml))
    ensures
        a.contains(x) ==> (a + b).contains(x),
        b.contains(x) ==> (a + b).contains(x),
{
    if a.contains(x) {
        let k = choose|k: int| 0 <= k < a.len() && a[k] == x;
        assert((a + b)[k] == x);
    }
    if b.contains(x) {
        let k = choose|k: int| 0 <= k < b.len() && b[k] == x;
        assert((a + b)[a.len() + k] == x);
    }
}

/// Everything but the prose `note` is a constraint: each entry of a norm's
/// `commitment` mapping not keyed `note` is a `(field, value)` pair the norm
/// constrains.
pub proof fn lemma_commitment_fields_constrain(norm: Yaml, c: Vec<(Yaml, Yaml)>, j: int)
    requires
        get(norm, "commitment"@) == Some(Yaml::Mapping(c)),
        0 <= j < c@.len(),
        key_text(c@[j].0) != "note"@,
    ensures
        constrained(norm).contains((key_text(c@[j].0), c@[j].1)),
{
    let a = source_entries(get(norm, "commitment"@), false);
    let b = source_entries(otherwise_commitment(norm), false);
    let c2 = source_entries(get(norm, "modifies"@), true);
    let d = case_entries(cases_of(norm));
    assert(constrained(norm) == a + b + c2 + d);
    let x = (key_text(c@[j].0), c@[j].1);
    lemma_field_entries_keep(c@, false, j);
    lemma_contains_add_pair(a, b, x);
    lemma_contains_add_pair(a + b, c2, x);
    lemma_contains_add_pair(a + b + c2, d, x);
}

/// Each entry of a norm's `modifies` mapping is a `(field, value)` pair the
/// norm constrains, with a `commitment.` prefix dropped from its key (it names
/// a field of the defeated norm's commitment), unless that leaves the prose
/// `note`.
pub proof fn lemma_modified_fields_constrain(norm: Yaml, md: Vec<(Yaml, Yaml)>, j: int)
    requires
        get(norm, "modifies"@) == Some(Yaml::Mapping(md)),
        0 <= j < md@.len(),
        strip_commitment(key_text(md@[j].0)) != "note"@,
    ensures
        constrained(norm).contains((strip_commitment(key_text(md@[j].0)), md@[j].1)),
{
    let a = source_entries(get(norm, "commitment"@), false);
    let b = source_entries(otherwise_commitment(norm), false);
    let c2 = source_entries(get(norm, "modifies"@), true);
    let d = case_entries(cases_of(norm));
    assert(constrained(norm) == a + b + c2 + d);
    let x = (strip_commitment(key_text(md@[j].0)), md@[j].1);
    lemma_field_entries_keep(md@, true, j);
    lemma_contains_add_pair(a + b, c2, x);
    lemma_contains_add_pair(a + b + c2, d, x);
}

/// Each entry not keyed `note` of a norm's residual `otherwise.commitment`
/// mapping is a `(field, value)` pair the norm constrains.
pub proof fn lemma_residual_fields_constrain(norm: Yaml, c: Vec<(Yaml, Yaml)>, j: int)
    requires
        otherwise_commitment(norm) == Some(Yaml::Mapping(c)),
        0 <= j < c@.len(),
        key_text(c@[j].0) != "note"@,
    ensures
        constrained(norm).contains((key_text(c@[j].0), c@[j].1)),
{
    let a = source_entries(get(norm, "commitment"@), false);
    let b = source_entries(otherwise_commitment(norm), false);
    let c2 = source_entries(get(norm, "modifies"@), true);
    let d = case_entries(cases_of(norm));
    assert(constrained(norm) == a + b + c2 + d);
    let x = (key_text(c@[j].0), c@[j].1);
    lemma_field_entries_keep(c@, false, j);
    lemma_contains_add_pair(a, b, x);
    lemma_contains_add_pair(a + b, c2, x);
    lemma_contains_add_pair(a + b + c2, d, x);
}

proof fn lemma_case_entries_keep(cs: Seq<(Seq<char>, Option<Yaml>)>, i: int, c: Vec<(Yaml, Yaml)>, j: int)
    requires
        0 <= i < cs.len(),
        cs[i].1 == Some(Yaml::Mapping(c)),
        0 <= j < c@.len(),
        key_text(c@[j].0) != "note"@,
    ensures
        case_entries(cs).contains((key_text(c@[j].0), c@[j].1)),
    decreases cs.len(),
{
    let x = (key_text(c@[j].0), c@[j].1);
    let prev = case_entries(cs.drop_last());
    let last = source_entries(cs.last().1, false);
    if i < cs.len() - 1 {
        assert(cs.drop_last()[i] == cs[i]);
        lemma_case_entries_keep(cs.drop_last(), i, c, j);
    } else {
        lemma_field_entries_keep(c@, false, j);
    }
    lemma_contains_add_pair(prev, last, x);
}

/// Each entry not keyed `note` of the commitment of any of a norm's `cases:`
/// branches is a `(field, value)` pair the norm constrains: a collision
/// against a middle case is as real as one against the residual.
pub proof fn lemma_case_fields_constrain(norm: Yaml, i: int, c: Vec<(Yaml, Yaml)>, j: int)
    requires
        0 <= i < cases_of(norm).len(),
        cases_of(norm)[i].1 == Some(Yaml::Mapping(c)),
        0 <= j < c@.len(),
        key_text(c@[j].0) != "note"@,
    ensures
        constrained(norm).contains((key_text(c@[j].0), c@[j].1)),
{
    let a = source_entries(get(norm, "commitment"@), false);
    let b = source_entries(otherwise_commitment(norm), false);
    let c2 = source_entries(get(norm, "modifies"@), true);
    let d = case_entries(cases_of(norm));
    assert(constrained(norm) == a + b + c2 + d);
    let x = (key_text(c@[j].0), c@[j].1);
    lemma_case_entries_keep(cases_of(norm), i, c, j);
    lemma_contains_add_pair(a + b + c2, d, x);
}

proof fn lemma_clash_absent(field: Seq<char>, av: Yaml, bs: Seq<(Seq<char>, Yaml)>)
    requires
        forall|j: int| 0 <= j < bs.len() ==> (#[trigger] bs[j]).0 != field,
    ensures
        clash(field, av, bs) is None,
    decreases bs.len(),
{
    if bs.len() > 0 {
        assert(bs[0].0 != field);
        assert forall|j: int| 0 <= j < bs.drop_first().len() implies (#[trigger] bs.drop_first()[j]).0 != field by {
            assert(bs.drop_first()[j] == bs[j + 1]);
        }
        lemma_clash_absent(field, av, bs.drop_first());
    }
}

proof fn lemma_collisions_disjoint(a: Seq<(Seq<char>, Yaml)>, b: Seq<(Seq<char>, Yaml)>)
    requires
        forall|i: int, j: int| 0 <= i < a.len() && 0 <= j < b.len() ==> (#[trigger] a[i]).0 != (#[trigger] b[j]).0,
    ensures
        collisions(a, b) == Seq::<Seq<char>>::empty(),
    decreases a.len(),
{
    if a.len() > 0 {
        assert forall|i: int, j: int| 0 <= i < a.drop_last().len() && 0 <= j < b.len() implies (#[trigger] a.drop_last()[i]).0
            != (#[trigger] b[j]).0 by {
            assert(a.drop_last()[i] == a[i]);
        }
        lemma_collisions_disjoint(a.drop_last(), b);
        let (field, av) = a.last();
        assert forall|j: int| 0 <= j < b.len() implies (#[trigger] b[j]).0 != field by {
            assert(a[a.len() - 1].0 != b[j].0);
        }
        lemma_clash_absent(field, av, b);
    }
}

/// Two norms collide only on a field both constrain: when no field one norm
/// constrains is constrained by the other, there is no collision between
/// them. With `note` never constrained, notes alone never make two norms
/// collide.
pub proof fn lemma_disjoint_fields_never_collide(a: Yaml, b: Yaml)
    requires
        forall|i: int, j: int|
            0 <= i < constrained(a).len() && 0 <= j < constrained(b).len() ==> (#[trigger] constrained(a)[i]).0
                != (#[trigger] constrained(b)[j]).0,
    ensures
        collisions(constrained(a), constrained(b)) == Seq::<Seq<char>>::empty(),
{
    lemma_collisions_disjoint(constrained(a), constrained(b));
}

/// A defeat edge that resolves to a norm it shares no constrained field with
/// is silent: the `i`-th norm's edge to `t`, the first norm with that id, has
/// nothing to report when no field either norm constrains is constrained by
/// the other, whatever their `note`s say.
pub proof fn lemma_disjoint_edge_is_silent(ns: Seq<Yaml>, i: nat, j: int, t: Seq<char>, path: Seq<char>, file: Seq<char>)
    requires
        i < ns.len(),
        first_id(ns, t) == Some(j),
        forall|p: int, q: int|
            0 <= p < constrained(ns[i as int]).len() && 0 <= q < constrained(ns[j]).len() ==> (#[trigger] constrained(
                ns[i as int],
            )[p]).0 != (#[trigger] constrained(ns[j])[q]).0,
    ensures
        edge_findings(ns, i, path, Some(t), file) == Seq::<FindingV>::empty(),
{
    lemma_disjoint_fields_never_collide(ns[i as int], ns[j]);
}

} // verus!
