//! **deon's bundle contract** — what the checker requires of the concept
//! bundle it consumes, and the binding that reads it out of OKF-format
//! markdown.
//!
//! The checker needs two things from a bundle:
//!
//! - the set of **anchor ids** it declares, for GROUND-3. An anchor is declared
//!   by a trailing `{#id}` on a line;
//! - each subject's **state space**, for coverage, read from a concept file's
//!   own frontmatter:
//!
//! ```yaml
//! subjects:
//!   performance-obligation:
//!     states:
//!       - { id: not-yet-satisfied, grounds: { ref: "#ifrs15-31", source: standard-criterion } }
//! ```
//!
//! A state may also be written as a bare string. It still counts as a
//! declaration, but carries no citation. Each declaration is kept with where it
//! was written and how it grounds, so the bundle can be held to the standard a
//! norm file is held to. A concept file with no frontmatter declares no state
//! space and is not a defect; frontmatter that does not parse, or a subject
//! with no `states:` list, is recorded as a defect.
//!
//! Reading the files of a bundle from disk is the caller's part: the bundle is
//! built here file by file, from each file's name and text.

use vstd::prelude::*;
use crate::yaml::{Yaml, get, key_text, str_field, opt_view, parse_yaml, yaml_load, key_str, str_eq};
use crate::text::{find_nl, frontmatter, frontmatter_of, lemma_next_nl_bounds, next_nl, trim, trim_end, chars_of, string_of, trim_start_at, trim_end_at, join3, sviews};

verus! {

// ---------------------------------------------------------------------------
// Strings in order.

/// Whether `a` sorts before `b` from position `i` on (code point order, which
/// is `String`'s order).
pub open spec fn lt_from(a: Seq<char>, b: Seq<char>, i: int) -> bool
    decreases a.len() - i,
{
    if i < 0 || i >= a.len() {
        0 <= i < b.len()
    } else if i >= b.len() {
        false
    } else if a[i] != b[i] {
        (a[i] as u32) < (b[i] as u32)
    } else {
        lt_from(a, b, i + 1)
    }
}

/// Whether `a` sorts before `b`.
pub open spec fn str_lt(a: Seq<char>, b: Seq<char>) -> bool {
    lt_from(a, b, 0)
}

/// Whether `a` sorts before `b`.
pub fn string_lt(a: &str, b: &str) -> (r: bool)
    ensures
        r == str_lt(a@, b@),
{
    let x = chars_of(a);
    let y = chars_of(b);
    let mut i: usize = 0;
    while i < x.len() && i < y.len() && x[i] == y[i]
        invariant
            i <= x@.len(),
            i <= y@.len(),
            x@ == a@,
            y@ == b@,
            lt_from(a@, b@, 0) == lt_from(a@, b@, i as int),
        decreases x.len() - i,
    {
        i = i + 1;
    }
    if i >= x.len() {
        i < y.len()
    } else if i >= y.len() {
        false
    } else {
        (x[i] as u32) < (y[i] as u32)
    }
}

/// The first position from `i` on whose element does not sort before `x`.
pub open spec fn lower_bound(list: Seq<Seq<char>>, x: Seq<char>, i: int) -> int
    decreases list.len() - i,
{
    if i < 0 || i >= list.len() || !str_lt(list[i], x) {
        i
    } else {
        lower_bound(list, x, i + 1)
    }
}

/// A sorted list with `x` added in its place (unchanged if already there).
pub open spec fn insert_sorted(list: Seq<Seq<char>>, x: Seq<char>) -> Seq<Seq<char>> {
    let p = lower_bound(list, x, 0);
    if 0 <= p < list.len() && list[p] == x {
        list
    } else {
        list.insert(p, x)
    }
}

/// A list in strictly increasing order.
pub open spec fn strictly_sorted(list: Seq<Seq<char>>) -> bool {
    forall|i: int, j: int| 0 <= i < j < list.len() ==> str_lt(list[i], list[j])
}

// ---------------------------------------------------------------------------
// The bundle.

/// One state declaration, as written: which concept file and subject it
/// belongs to, its position, the id it declares (absent if malformed), and its
/// citation.
#[derive(Debug, Clone)]
pub struct StateDecl {
    pub file: String,
    pub subject: String,
    pub index: usize,
    pub id: Option<String>,
    pub reference: Option<String>,
    pub source: Option<String>,
}

/// A place the bundle failed to yield a state space it looks like it meant to
/// declare.
#[derive(Debug, Clone)]
pub struct BundleDefect {
    pub file: String,
    pub path: String,
    pub detail: String,
}

/// What a bundle declares: anchor ids, each subject's state space (its states
/// in sorted order), every state declaration, and every defect.
#[derive(Debug, Clone)]
pub struct Okf {
    anchors: Vec<String>,
    states: Vec<(String, Vec<String>)>,
    declarations: Vec<StateDecl>,
    defects: Vec<BundleDefect>,
}

pub struct DeclV {
    pub file: Seq<char>,
    pub subject: Seq<char>,
    pub index: nat,
    pub id: Option<Seq<char>>,
    pub reference: Option<Seq<char>>,
    pub source: Option<Seq<char>>,
}

pub struct DefectV {
    pub file: Seq<char>,
    pub path: Seq<char>,
    pub detail: Seq<char>,
}

/// A bundle, by its characters.
pub struct OkfV {
    pub anchors: Seq<Seq<char>>,
    pub states: Seq<(Seq<char>, Seq<Seq<char>>)>,
    pub declarations: Seq<DeclV>,
    pub defects: Seq<DefectV>,
}

impl View for StateDecl {
    type V = DeclV;

    open spec fn view(&self) -> DeclV {
        DeclV {
            file: self.file@,
            subject: self.subject@,
            index: self.index as nat,
            id: opt_view(self.id),
            reference: opt_view(self.reference),
            source: opt_view(self.source),
        }
    }
}

impl View for BundleDefect {
    type V = DefectV;

    open spec fn view(&self) -> DefectV {
        DefectV { file: self.file@, path: self.path@, detail: self.detail@ }
    }
}

pub open spec fn state_views(s: Seq<(String, Vec<String>)>) -> Seq<(Seq<char>, Seq<Seq<char>>)> {
    s.map_values(|e: (String, Vec<String>)| (e.0@, sviews(e.1@)))
}

impl View for Okf {
    type V = OkfV;

    closed spec fn view(&self) -> OkfV {
        OkfV {
            anchors: sviews(self.anchors@),
            states: state_views(self.states@),
            declarations: self.declarations@.map_values(|d: StateDecl| d@),
            defects: self.defects@.map_values(|d: BundleDefect| d@),
        }
    }
}

/// The state space declared for `subject`, if any.
pub open spec fn states_for(states: Seq<(Seq<char>, Seq<Seq<char>>)>, subject: Seq<char>) -> Option<
    Seq<Seq<char>>,
>
    decreases states.len(),
{
    if states.len() == 0 {
        None
    } else if states[0].0 == subject {
        Some(states[0].1)
    } else {
        states_for(states.drop_first(), subject)
    }
}

impl OkfV {
    /// Anchors listed once each, subjects listed once each, and every state
    /// space in strictly increasing order.
    pub open spec fn wf(self) -> bool {
        &&& self.anchors.no_duplicates()
        &&& forall|i: int, j: int|
            0 <= i < j < self.states.len() ==> self.states[i].0 != self.states[j].0
        &&& forall|i: int| 0 <= i < self.states.len() ==> strictly_sorted(#[trigger] self.states[i].1)
    }

    /// `reference`, with its leading `#`s dropped, names a declared anchor.
    pub open spec fn resolves(self, reference: Seq<char>) -> bool {
        self.anchors.contains(strip_hashes(reference))
    }

    /// The state space declared for `subject`, if any.
    pub open spec fn states_of(self, subject: Seq<char>) -> Option<Seq<Seq<char>>> {
        states_for(self.states, subject)
    }
}

/// `str::trim_start_matches('#')`.
pub open spec fn strip_hashes(r: Seq<char>) -> Seq<char>
    decreases r.len(),
{
    if r.len() > 0 && r[0] == '#' {
        strip_hashes(r.drop_first())
    } else {
        r
    }
}

// ---------------------------------------------------------------------------
// Reading one concept file.

/// The last place at or before `k` where `{#` opens in the line `t`.
pub open spec fn last_open(t: Seq<char>, k: int) -> Option<int>
    decreases k + 1,
{
    if k < 0 || k + 1 >= t.len() {
        None
    } else if t[k] == '{' && t[k + 1] == '#' {
        Some(k)
    } else {
        last_open(t, k - 1)
    }
}

/// The anchor a line declares, given the line without its trailing
/// whitespace: one when it ends in `{#id}` (the last `{#` of the line, closed
/// by the line's final `}` and by no earlier one), the id trimmed and not
/// empty.
pub open spec fn line_anchor(t: Seq<char>) -> Seq<Seq<char>> {
    if t.len() < 3 || t[t.len() - 1] != '}' {
        seq![]
    } else {
        match last_open(t, t.len() - 3) {
            None => seq![],
            Some(o) => {
                let inner = t.subrange(o + 2, t.len() - 1);
                if !inner.contains('}') && trim(inner).len() > 0 {
                    seq![trim(inner)]
                } else {
                    seq![]
                }
            },
        }
    }
}

/// The anchors declared by the lines of `s` from the line start `p` on.
pub open spec fn anchors_from(s: Seq<char>, p: int) -> Seq<Seq<char>>
    decreases s.len() - p,
{
    if p < 0 || p >= s.len() {
        seq![]
    } else {
        proof {
            lemma_next_nl_bounds(s, p);
        }
        let q = next_nl(s, p);
        line_anchor(trim_end(s.subrange(p, q))) + if q < s.len() {
            anchors_from(s, q + 1)
        } else {
            seq![]
        }
    }
}

/// Every anchor a concept file declares, in order: a `{#id}` that ends its
/// line.
pub open spec fn anchor_ids(text: Seq<char>) -> Seq<Seq<char>> {
    anchors_from(text, 0)
}

/// The last `{#` of the line `cs[p..p + n]` at or before `n - 3`.
fn last_open_at(cs: &Vec<char>, p: usize, n: usize) -> (r: Option<usize>)
    requires
        3 <= n,
        p + n <= cs@.len(),
    ensures
        match r {
            Some(o) => last_open(cs@.subrange(p as int, p + n), n - 3) == Some(o as int),
            None => last_open(cs@.subrange(p as int, p + n), n - 3) is None,
        },
{
    let ghost t = cs@.subrange(p as int, p + n);
    let mut m: usize = n - 2;
    while m > 0
        invariant
            0 <= m <= n - 2,
            3 <= n,
            p + n <= cs@.len(),
            p + n <= cs.len(),
            t == cs@.subrange(p as int, p + n),
            last_open(t, n - 3) == last_open(t, m - 1),
        decreases m,
    {
        let k = m - 1;
        if cs[p + k] == '{' && cs[p + k + 1] == '#' {
            proof {
                assert(t[k as int] == cs@[p + k] && t[k + 1] == cs@[p + k + 1]);
            }
            return Some(k);
        }
        proof {
            assert(t[k as int] == cs@[p + k] && t[k + 1] == cs@[p + k + 1]);
        }
        m = m - 1;
    }
    None
}

/// The anchor the line `cs[p..e]` declares, `e` being where its trailing
/// whitespace starts.
fn line_anchor_at(cs: &Vec<char>, p: usize, e: usize) -> (r: Option<String>)
    requires
        p <= e <= cs@.len(),
    ensures
        match r {
            Some(x) => line_anchor(cs@.subrange(p as int, e as int)) == seq![x@],
            None => line_anchor(cs@.subrange(p as int, e as int)) == Seq::<Seq<char>>::empty(),
        },
{
    let ghost t = cs@.subrange(p as int, e as int);
    let n = e - p;
    if n < 3 || cs[e - 1] != '}' {
        proof {
            if n >= 3 {
                assert(t[t.len() - 1] == cs@[e - 1]);
            }
        }
        return None;
    }
    proof {
        assert(t[t.len() - 1] == cs@[e - 1]);
    }
    let o = match last_open_at(cs, p, n) {
        Some(o) => o,
        None => {
            return None;
        },
    };
    proof {
        lemma_last_open_bounds(t, n - 3);
    }
    let from = p + o + 2;
    let to = e - 1;
    let ghost inner = t.subrange(o + 2, t.len() - 1);
    proof {
        assert(inner =~= cs@.subrange(from as int, to as int));
        assert(line_anchor(t) == (if !inner.contains('}') && trim(inner).len() > 0 {
            seq![trim(inner)]
        } else {
            Seq::<Seq<char>>::empty()
        }));
    }
    let mut k = from;
    while k < to
        invariant
            from <= k <= to,
            to < cs@.len(),
            t == cs@.subrange(p as int, e as int),
            inner == cs@.subrange(from as int, to as int),
            line_anchor(t) == (if !inner.contains('}') && trim(inner).len() > 0 {
                seq![trim(inner)]
            } else {
                Seq::<Seq<char>>::empty()
            }),
            forall|l: int| from <= l < k ==> cs@[l] != '}',
        decreases to - k,
    {
        if cs[k] == '}' {
            proof {
                assert(inner[k - from] == '}');
            }
            return None;
        }
        k = k + 1;
    }
    proof {
        if inner.contains('}') {
            let l = choose|l: int| 0 <= l < inner.len() && inner[l] == '}';
            assert(cs@[from + l] == '}');
        }
    }
    let b = trim_start_at(cs, from, to);
    let e2 = trim_end_at(cs, b, to);
    proof {
        assert(cs@.subrange(b as int, e2 as int) == trim(inner));
    }
    if e2 > b {
        Some(string_of(cs, b, e2))
    } else {
        None
    }
}

proof fn lemma_last_open_bounds(t: Seq<char>, k: int)
    ensures
        last_open(t, k) matches Some(o) ==> 0 <= o <= k && o + 1 < t.len(),
    decreases k + 1,
{
    if 0 <= k && k + 1 < t.len() && !(t[k] == '{' && t[k + 1] == '#') {
        lemma_last_open_bounds(t, k - 1);
    }
}

/// Extract every anchor declared in a concept file: a `{#id}` that ends its
/// line.
pub fn anchors_in(text: &str) -> (r: Vec<String>)
    ensures
        sviews(r@) == anchor_ids(text@),
{
    let cs = chars_of(text);
    let mut out: Vec<String> = Vec::new();
    let mut p: usize = 0;
    while p < cs.len()
        invariant
            p <= cs@.len(),
            cs@ == text@,
            anchor_ids(cs@) == sviews(out@) + anchors_from(cs@, p as int),
        decreases cs.len() - p,
    {
        let q = find_nl(&cs, p);
        let e = trim_end_at(&cs, p, q);
        let ghost before = sviews(out@);
        match line_anchor_at(&cs, p, e) {
            Some(id) => {
                out.push(id);
                proof {
                    assert(sviews(out@) =~= before + line_anchor(trim_end(cs@.subrange(p as int, q as int))));
                }
            },
            None => {
                proof {
                    assert(sviews(out@) =~= before + line_anchor(trim_end(cs@.subrange(p as int, q as int))));
                }
            },
        }
        if q >= cs.len() {
            proof {
                assert(anchors_from(cs@, p as int) =~= line_anchor(trim_end(cs@.subrange(p as int, q as int))));
                assert(anchors_from(cs@, cs@.len() as int) =~= Seq::<Seq<char>>::empty());
            }
            p = cs.len();
        } else {
            p = q + 1;
        }
    }
    proof {
        assert(sviews(out@) + Seq::<Seq<char>>::empty() =~= sviews(out@));
    }
    out
}

// ---------------------------------------------------------------------------
// How a bundle grows, file by file.

/// The bundle with `id` among its anchors.
pub open spec fn with_anchor(o: OkfV, id: Seq<char>) -> OkfV {
    if o.anchors.contains(id) {
        o
    } else {
        OkfV { anchors: o.anchors.push(id), ..o }
    }
}

/// The bundle with every one of `ids` among its anchors.
pub open spec fn with_anchors(o: OkfV, ids: Seq<Seq<char>>) -> OkfV
    decreases ids.len(),
{
    if ids.len() == 0 {
        o
    } else {
        with_anchor(with_anchors(o, ids.drop_last()), ids.last())
    }
}

/// The position of `subject`'s state space from `i` on, or the length.
pub open spec fn subject_at(states: Seq<(Seq<char>, Seq<Seq<char>>)>, subject: Seq<char>, i: int) -> int
    decreases states.len() - i,
{
    if i < 0 || i >= states.len() || states[i].0 == subject {
        i
    } else {
        subject_at(states, subject, i + 1)
    }
}

/// The bundle with `id` among `subject`'s states: added in its sorted place,
/// or as the first state of a new state space.
pub open spec fn with_state(o: OkfV, subject: Seq<char>, id: Seq<char>) -> OkfV {
    let k = subject_at(o.states, subject, 0);
    if 0 <= k < o.states.len() {
        OkfV { states: o.states.update(k, (subject, insert_sorted(o.states[k].1, id))), ..o }
    } else {
        OkfV { states: o.states.push((subject, seq![id])), ..o }
    }
}

pub open spec fn with_decl(o: OkfV, d: DeclV) -> OkfV {
    OkfV { declarations: o.declarations.push(d), ..o }
}

pub open spec fn with_defect(o: OkfV, d: DefectV) -> OkfV {
    OkfV { defects: o.defects.push(d), ..o }
}

/// A state is either `{ id: <name>, grounds: ... }` or a bare `<name>`.
pub open spec fn state_id(st: Yaml) -> Option<Seq<char>> {
    match st {
        Yaml::Text(s) => Some(s@),
        _ => str_field(st, "id"@),
    }
}

/// The string field `key` of an optional node.
pub open spec fn field_of(g: Option<Yaml>, key: Seq<char>) -> Option<Seq<char>> {
    match g {
        Some(x) => str_field(x, key),
        None => None,
    }
}

/// The declaration the `index`-th entry of a `states:` list makes.
pub open spec fn decl_of(file: Seq<char>, subject: Seq<char>, index: nat, st: Yaml) -> DeclV {
    DeclV {
        file,
        subject,
        index,
        id: state_id(st),
        reference: field_of(get(st, "grounds"@), "ref"@),
        source: field_of(get(st, "grounds"@), "source"@),
    }
}

/// The bundle with a subject's `states:` list read in.
pub open spec fn add_states(o: OkfV, file: Seq<char>, subject: Seq<char>, sts: Seq<Yaml>) -> OkfV
    decreases sts.len(),
{
    if sts.len() == 0 {
        o
    } else {
        let o1 = add_states(o, file, subject, sts.drop_last());
        let d = decl_of(file, subject, (sts.len() - 1) as nat, sts.last());
        let o2 = match d.id {
            Some(x) => with_state(o1, subject, x),
            None => o1,
        };
        with_decl(o2, d)
    }
}

pub open spec fn no_states_msg(subject: Seq<char>) -> Seq<char> {
    "subject `"@ + subject
        + "` is declared with no `states:` list — it yields an empty state space, so coverage has nothing to check against"@
}

pub open spec fn unparsed_msg(e: Seq<char>) -> Seq<char> {
    "concept file opens with a `---` fence but its frontmatter does not parse ("@ + e
        + ") — any state space it declares is silently invisible"@
}

/// The bundle with one `subjects:` entry read in.
pub open spec fn add_subject(o: OkfV, file: Seq<char>, name: Yaml, body: Yaml) -> OkfV {
    let subject = key_text(name);
    match get(body, "states"@) {
        Some(Yaml::Sequence(sts)) => add_states(o, file, subject, sts@),
        _ => with_defect(
            o,
            DefectV { file, path: "subjects."@ + subject + ".states"@, detail: no_states_msg(subject) },
        ),
    }
}

/// The bundle with every `subjects:` entry read in.
pub open spec fn add_subjects(o: OkfV, file: Seq<char>, es: Seq<(Yaml, Yaml)>) -> OkfV
    decreases es.len(),
{
    if es.len() == 0 {
        o
    } else {
        let prev = add_subjects(o, file, es.drop_last());
        add_subject(prev, file, es.last().0, es.last().1)
    }
}

/// The bundle with a concept file's state declarations read in: none without
/// frontmatter; a defect when the frontmatter does not parse; otherwise each
/// entry of its `subjects:` mapping.
pub open spec fn read_states(o: OkfV, file: Seq<char>, text: Seq<char>) -> OkfV {
    match frontmatter_of(text) {
        None => o,
        Some(front) => match yaml_load(front) {
            Err(e) => with_defect(o, DefectV { file, path: "frontmatter"@, detail: unparsed_msg(e) }),
            Ok(doc) => match get(doc, "subjects"@) {
                Some(Yaml::Mapping(subjects)) => add_subjects(o, file, subjects@),
                _ => o,
            },
        },
    }
}

/// The bundle with one concept file read in: its anchors, then its state
/// declarations.
pub open spec fn load_file(o: OkfV, file: Seq<char>, text: Seq<char>) -> OkfV {
    read_states(with_anchors(o, anchor_ids(text)), file, text)
}

/// The empty bundle.
pub open spec fn empty_okf() -> OkfV {
    OkfV { anchors: seq![], states: seq![], declarations: seq![], defects: seq![] }
}

/// The bundle with each `(file, text)` read in, in order.
pub open spec fn load_files(o: OkfV, files: Seq<(Seq<char>, Seq<char>)>) -> OkfV
    decreases files.len(),
{
    if files.len() == 0 {
        o
    } else {
        load_file(load_files(o, files.drop_last()), files.last().0, files.last().1)
    }
}

/// Files, by their characters.
pub open spec fn file_views(files: Seq<(String, String)>) -> Seq<(Seq<char>, Seq<char>)> {
    files.map_values(|f: (String, String)| (f.0@, f.1@))
}

/// A sorted list of strings with `x` added in its place.
fn insert_sorted_vec(list: &mut Vec<String>, x: String)
    ensures
        sviews(final(list)@) == insert_sorted(sviews(old(list)@), x@),
{
    let ghost l = sviews(list@);
    let mut p: usize = 0;
    while p < list.len() && string_lt(list[p].as_str(), x.as_str())
        invariant
            p <= list@.len(),
            l == sviews(list@),
            lower_bound(l, x@, 0) == lower_bound(l, x@, p as int),
        decreases list.len() - p,
    {
        p = p + 1;
    }
    if p < list.len() && str_eq(list[p].as_str(), x.as_str()) {
        return;
    }
    list.insert(p, x);
    proof {
        assert(sviews(list@) =~= l.insert(p as int, x@));
    }
}

impl Default for Okf {
    /// The empty bundle, as [`Okf::new`] makes it.
    fn default() -> (r: Okf)
        ensures
            r@ == empty_okf(),
            r@.wf(),
    {
        Okf::new()
    }
}

impl Okf {
    /// An empty bundle.
    pub fn new() -> (r: Okf)
        ensures
            r@ == empty_okf(),
            r@.wf(),
    {
        let r = Okf { anchors: Vec::new(), states: Vec::new(), declarations: Vec::new(), defects: Vec::new() };
        proof {
            assert(r@.anchors =~= Seq::<Seq<char>>::empty());
            assert(r@.states =~= Seq::<(Seq<char>, Seq<Seq<char>>)>::empty());
            assert(r@.declarations =~= Seq::<DeclV>::empty());
            assert(r@.defects =~= Seq::<DefectV>::empty());
        }
        r
    }

    /// A bundle read from its concept files, given as `(path, text)` pairs in
    /// the order they were read; the path labels what the bundle reports.
    pub fn load(files: &Vec<(String, String)>) -> (r: Okf)
        ensures
            r@ == load_files(empty_okf(), file_views(files@)),
            r@.wf(),
    {
        proof {
            lemma_load_files_wf(file_views(files@));
        }
        let mut okf = Okf::new();
        let mut i: usize = 0;
        while i < files.len()
            invariant
                i <= files@.len(),
                okf@ == load_files(empty_okf(), file_views(files@).take(i as int)),
            decreases files.len() - i,
        {
            proof {
                assert(file_views(files@).take(i + 1).drop_last() =~= file_views(files@).take(i as int));
            }
            okf.add_file(files[i].0.as_str(), files[i].1.as_str());
            i = i + 1;
        }
        proof {
            assert(file_views(files@).take(files@.len() as int) =~= file_views(files@));
        }
        okf
    }

    /// Does `reference` (with or without a leading `#`) resolve to a declared
    /// anchor?
    pub fn resolves(&self, reference: &str) -> (r: bool)
        ensures
            r == self@.resolves(reference@),
    {
        let cs = chars_of(reference);
        let mut i: usize = 0;
        proof {
            assert(cs@.subrange(0, cs@.len() as int) =~= cs@);
        }
        while i < cs.len() && cs[i] == '#'
            invariant
                i <= cs@.len(),
                cs@ == reference@,
                strip_hashes(reference@) == strip_hashes(cs@.subrange(i as int, cs@.len() as int)),
            decreases cs.len() - i,
        {
            proof {
                assert(cs@.subrange(i as int, cs@.len() as int).drop_first() =~= cs@.subrange(i + 1, cs@.len() as int));
            }
            i = i + 1;
        }
        let rest = string_of(&cs, i, cs.len());
        proof {
            if i < cs@.len() {
                assert(cs@.subrange(i as int, cs@.len() as int)[0] == cs@[i as int]);
            }
        }
        crate::text::contains_str(&self.anchors, rest.as_str())
    }

    /// Number of anchors declared (for reporting).
    pub fn len(&self) -> (r: usize)
        ensures
            r == self@.anchors.len(),
    {
        self.anchors.len()
    }

    /// Whether the bundle declares no anchors.
    pub fn is_empty(&self) -> (r: bool)
        ensures
            r == (self@.anchors.len() == 0),
    {
        self.anchors.len() == 0
    }

    /// The states declared for `subject`, in sorted order, if the bundle
    /// declares a state space for it at all. `None` and an empty list are
    /// different: the first means "this bundle says nothing about the
    /// subject's states".
    pub fn states(&self, subject: &str) -> (r: Option<&Vec<String>>)
        ensures
            match r {
                Some(l) => self@.states_of(subject@) == Some(sviews(l@)),
                None => self@.states_of(subject@) is None,
            },
    {
        let mut k: usize = 0;
        proof {
            assert(state_views(self.states@).skip(0) =~= state_views(self.states@));
        }
        while k < self.states.len()
            invariant
                k <= self.states@.len(),
                states_for(state_views(self.states@), subject@) == states_for(
                    state_views(self.states@).skip(k as int),
                    subject@,
                ),
            decreases self.states.len() - k,
        {
            if str_eq(self.states[k].0.as_str(), subject) {
                return Some(&self.states[k].1);
            }
            proof {
                assert(state_views(self.states@).skip(k as int).drop_first() =~= state_views(
                    self.states@,
                ).skip(k + 1));
            }
            k = k + 1;
        }
        None
    }

    /// Number of subjects with a declared state space (for reporting).
    pub fn subjects(&self) -> (r: usize)
        ensures
            r == self@.states.len(),
    {
        self.states.len()
    }

    /// Every state declaration the bundle carries, in load order.
    pub fn declarations(&self) -> (r: &Vec<StateDecl>)
        ensures
            r@.map_values(|d: StateDecl| d@) == self@.declarations,
    {
        &self.declarations
    }

    /// Every place the bundle failed to yield a state space it looks like it
    /// meant to declare.
    pub fn defects(&self) -> (r: &Vec<BundleDefect>)
        ensures
            r@.map_values(|d: BundleDefect| d@) == self@.defects,
    {
        &self.defects
    }

    fn add_anchor(&mut self, id: String)
        ensures
            final(self)@ == with_anchor(old(self)@, id@),
    {
        if !crate::text::contains_str(&self.anchors, id.as_str()) {
            self.anchors.push(id);
            proof {
                assert(sviews(self.anchors@) =~= sviews(old(self).anchors@).push(id@));
            }
        }
        proof {
            assert(self@.states =~= with_anchor(old(self)@, id@).states);
        }
    }

    fn add_state(&mut self, subject: &str, id: String)
        ensures
            final(self)@ == with_state(old(self)@, subject@, id@),
    {
        let ghost st = state_views(self.states@);
        let mut k: usize = 0;
        while k < self.states.len() && !str_eq(self.states[k].0.as_str(), subject)
            invariant
                k <= self.states@.len(),
                st == state_views(self.states@),
                subject_at(st, subject@, 0) == subject_at(st, subject@, k as int),
            decreases self.states.len() - k,
        {
            k = k + 1;
        }
        if k < self.states.len() {
            let (name, mut list) = self.states.remove(k);
            insert_sorted_vec(&mut list, id);
            self.states.insert(k, (name, list));
            proof {
                assert(state_views(self.states@) =~= st.update(k as int, (subject@, insert_sorted(st[k as int].1, id@))));
            }
        } else {
            let mut list: Vec<String> = Vec::new();
            list.push(id);
            self.states.push((subject.to_owned(), list));
            proof {
                assert(sviews(list@) =~= seq![id@]);
                assert(state_views(self.states@) =~= st.push((subject@, seq![id@])));
            }
        }
    }

    fn add_decl(&mut self, d: StateDecl)
        ensures
            final(self)@ == with_decl(old(self)@, d@),
    {
        self.declarations.push(d);
        proof {
            assert(self@.declarations =~= old(self)@.declarations.push(d@));
        }
    }

    fn add_defect(&mut self, file: &str, path: String, detail: String)
        ensures
            final(self)@ == with_defect(old(self)@, DefectV { file: file@, path: path@, detail: detail@ }),
    {
        self.defects.push(BundleDefect { file: file.to_owned(), path, detail });
        proof {
            assert(self@.defects =~= with_defect(old(self)@, DefectV { file: file@, path: path@, detail: detail@ }).defects);
        }
    }

    fn add_one_state(&mut self, file: &str, subject: &str, index: usize, st: &Yaml)
        ensures
            final(self)@ == ({
                let d = decl_of(file@, subject@, index as nat, *st);
                let o2 = match d.id {
                    Some(x) => with_state(old(self)@, subject@, x),
                    None => old(self)@,
                };
                with_decl(o2, d)
            }),
    {
        let id: Option<String> = match st {
            Yaml::Text(s) => Some(s.clone()),
            _ => st.str_field("id"),
        };
        let grounds = st.get("grounds");
        let reference = match grounds {
            Some(g) => g.str_field("ref"),
            None => None,
        };
        let source = match grounds {
            Some(g) => g.str_field("source"),
            None => None,
        };
        match &id {
            Some(x) => self.add_state(subject, x.clone()),
            None => {},
        }
        let d = StateDecl { file: file.to_owned(), subject: subject.to_owned(), index, id, reference, source };
        self.add_decl(d);
    }

    fn add_subject(&mut self, file: &str, name: &Yaml, body: &Yaml)
        ensures
            final(self)@ == add_subject(old(self)@, file@, *name, *body),
    {
        let subject = key_str(name);
        match body.get("states") {
            Some(Yaml::Sequence(sts)) => {
                let mut j: usize = 0;
                while j < sts.len()
                    invariant
                        j <= sts@.len(),
                        subject@ == key_text(*name),
                        self@ == add_states(old(self)@, file@, subject@, sts@.take(j as int)),
                    decreases sts.len() - j,
                {
                    proof {
                        assert(sts@.take(j + 1).drop_last() =~= sts@.take(j as int));
                    }
                    self.add_one_state(file, subject.as_str(), j, &sts[j]);
                    j = j + 1;
                }
                proof {
                    assert(sts@.take(sts@.len() as int) =~= sts@);
                }
            },
            _ => {
                let path = join3("subjects.", subject.as_str(), ".states");
                let detail = join3(
                    "subject `",
                    subject.as_str(),
                    "` is declared with no `states:` list — it yields an empty state space, so coverage has nothing to check against",
                );
                self.add_defect(file, path, detail);
            },
        }
    }

    fn read_states(&mut self, file: &str, text: &str)
        ensures
            final(self)@ == read_states(old(self)@, file@, text@),
    {
        match frontmatter(text) {
            None => {},
            Some(front) => match parse_yaml(front) {
                Err(e) => {
                    let detail = join3(
                        "concept file opens with a `---` fence but its frontmatter does not parse (",
                        e.as_str(),
                        ") — any state space it declares is silently invisible",
                    );
                    self.add_defect(file, "frontmatter".to_owned(), detail);
                },
                Ok(doc) => match doc.get("subjects") {
                    Some(Yaml::Mapping(subjects)) => {
                        let mut i: usize = 0;
                        while i < subjects.len()
                            invariant
                                i <= subjects@.len(),
                                self@ == add_subjects(old(self)@, file@, subjects@.take(i as int)),
                            decreases subjects.len() - i,
                        {
                            proof {
                                assert(subjects@.take(i + 1).drop_last() =~= subjects@.take(i as int));
                            }
                            self.add_subject(file, &subjects[i].0, &subjects[i].1);
                            i = i + 1;
                        }
                        proof {
                            assert(subjects@.take(subjects@.len() as int) =~= subjects@);
                        }
                    },
                    _ => {},
                },
            },
        }
    }

    /// Read one concept file of the bundle into it: every `{#id}` anchor it
    /// declares, then the state spaces its frontmatter declares under
    /// `subjects:`, recording both what it declares and where it failed to.
    /// Reading never fails: a located defect says more than a load error does.
    pub fn add_file(&mut self, file: &str, text: &str)
        ensures
            final(self)@ == load_file(old(self)@, file@, text@),
    {
        let ids = anchors_in(text);
        let mut i: usize = 0;
        while i < ids.len()
            invariant
                i <= ids@.len(),
                sviews(ids@) == anchor_ids(text@),
                self@ == with_anchors(old(self)@, sviews(ids@).take(i as int)),
            decreases ids.len() - i,
        {
            proof {
                assert(sviews(ids@).take(i + 1).drop_last() =~= sviews(ids@).take(i as int));
            }
            self.add_anchor(ids[i].clone());
            i = i + 1;
        }
        proof {
            assert(sviews(ids@).take(ids@.len() as int) =~= sviews(ids@));
        }
        self.read_states(file, text);
    }
}


// ---------------------------------------------------------------------------
// What every bundle keeps: anchors once each, subjects once each, and each
// state space strictly sorted.

/// No string sorts before itself.
pub proof fn lemma_lt_irreflexive(a: Seq<char>, i: int)
    requires
        0 <= i,
    ensures
        !lt_from(a, a, i),
    decreases a.len() - i,
{
    if i < a.len() {
        lemma_lt_irreflexive(a, i + 1);
    }
}

/// Sorting before is transitive.
pub proof fn lemma_lt_transitive(a: Seq<char>, b: Seq<char>, c: Seq<char>, i: int)
    requires
        0 <= i,
        lt_from(a, b, i),
        lt_from(b, c, i),
    ensures
        lt_from(a, c, i),
    decreases a.len() - i,
{
    if i < a.len() && i < b.len() && i < c.len() && a[i] == b[i] && b[i] == c[i] {
        lemma_lt_transitive(a, b, c, i + 1);
    }
}

/// Of two different strings, one sorts before the other.
pub proof fn lemma_lt_total(a: Seq<char>, b: Seq<char>, i: int)
    requires
        0 <= i <= a.len(),
        i <= b.len(),
        a.take(i) == b.take(i),
        a != b,
    ensures
        lt_from(a, b, i) || lt_from(b, a, i),
    decreases a.len() - i,
{
    if i < a.len() && i < b.len() && a[i] == b[i] {
        assert(a.take(i + 1) =~= a.take(i).push(a[i]));
        assert(b.take(i + 1) =~= b.take(i).push(b[i]));
        lemma_lt_total(a, b, i + 1);
    } else if i == a.len() && i == b.len() {
        assert(a =~= a.take(i));
        assert(b =~= b.take(i));
    } else if i < a.len() && i < b.len() {
        vstd::utf8::char_u32_cast(a[i], a[i] as u32);
        vstd::utf8::char_u32_cast(b[i], b[i] as u32);
    }
}

/// `str_lt` is a strict total order.
pub proof fn lemma_lt_order(a: Seq<char>, b: Seq<char>)
    ensures
        !str_lt(a, a),
        a != b ==> str_lt(a, b) || str_lt(b, a),
        str_lt(a, b) ==> !str_lt(b, a),
{
    lemma_lt_irreflexive(a, 0);
    if a != b {
        assert(a.take(0) =~= b.take(0));
        lemma_lt_total(a, b, 0);
    }
    if str_lt(a, b) && str_lt(b, a) {
        lemma_lt_transitive(a, b, a, 0);
    }
}

/// What the insertion point is: everything before it sorts before `x`, and
/// what stands there does not.
pub proof fn lemma_lower_bound(list: Seq<Seq<char>>, x: Seq<char>, i: int)
    requires
        0 <= i <= list.len(),
    ensures
        i <= lower_bound(list, x, i) <= list.len(),
        forall|k: int| i <= k < lower_bound(list, x, i) ==> str_lt(#[trigger] list[k], x),
        lower_bound(list, x, i) < list.len() ==> !str_lt(list[lower_bound(list, x, i)], x),
    decreases list.len() - i,
{
    if i < list.len() && str_lt(list[i], x) {
        lemma_lower_bound(list, x, i + 1);
    }
}

/// Inserting into a strictly sorted list keeps it strictly sorted, and adds
/// exactly `x`.
pub proof fn lemma_insert_sorted(list: Seq<Seq<char>>, x: Seq<char>)
    requires
        strictly_sorted(list),
    ensures
        strictly_sorted(insert_sorted(list, x)),
        forall|y: Seq<char>| #[trigger] insert_sorted(list, x).contains(y) <==> (list.contains(y) || y == x),
{
    lemma_lower_bound(list, x, 0);
    let p = lower_bound(list, x, 0);
    if 0 <= p < list.len() && list[p] == x {
        assert(list.contains(x));
    } else {
        let r = list.insert(p, x);
        if p < list.len() {
            lemma_lt_order(list[p], x);
        }
        assert forall|i: int, j: int| 0 <= i < j < r.len() implies str_lt(r[i], r[j]) by {
            if j < p {
            } else if j == p {
            } else if i < p {
                assert(r[j] == list[j - 1]);
            } else if i == p {
                if j - 1 > p {
                    assert(str_lt(list[p], list[j - 1]));
                    assert(str_lt(x, list[p]));
                    lemma_lt_transitive(x, list[p], list[j - 1], 0);
                }
            } else {
                assert(r[i] == list[i - 1] && r[j] == list[j - 1]);
            }
        }
        assert forall|y: Seq<char>| #[trigger] r.contains(y) <==> (list.contains(y) || y == x) by {
            if r.contains(y) {
                let k = choose|k: int| 0 <= k < r.len() && r[k] == y;
                if k < p {
                    assert(list[k] == y);
                } else if k > p {
                    assert(list[k - 1] == y);
                }
            }
            if list.contains(y) {
                let k = choose|k: int| 0 <= k < list.len() && list[k] == y;
                if k < p {
                    assert(r[k] == y);
                } else {
                    assert(r[k + 1] == y);
                }
            }
            if y == x {
                assert(r[p] == y);
            }
        }
    }
}

/// Where `subject_at` stops: past every other subject, at the subject or at
/// the end.
pub proof fn lemma_subject_at(states: Seq<(Seq<char>, Seq<Seq<char>>)>, subject: Seq<char>, i: int)
    requires
        0 <= i <= states.len(),
    ensures
        i <= subject_at(states, subject, i) <= states.len(),
        forall|k: int| i <= k < subject_at(states, subject, i) ==> (#[trigger] states[k]).0 != subject,
        subject_at(states, subject, i) < states.len() ==> states[subject_at(states, subject, i)].0 == subject,
    decreases states.len() - i,
{
    if i < states.len() && states[i].0 != subject {
        lemma_subject_at(states, subject, i + 1);
    }
}

/// Adding an anchor keeps a bundle well formed, and keeps every anchor it had.
pub proof fn lemma_with_anchor(o: OkfV, id: Seq<char>)
    requires
        o.wf(),
    ensures
        with_anchor(o, id).wf(),
        with_anchor(o, id).anchors.contains(id),
        forall|a: Seq<char>| o.anchors.contains(a) ==> #[trigger] with_anchor(o, id).anchors.contains(a),
        with_anchor(o, id).states == o.states,
{
    if !o.anchors.contains(id) {
        let n = o.anchors.push(id);
        assert forall|i: int, j: int| 0 <= i < j < n.len() implies n[i] != n[j] by {
            if j == o.anchors.len() {
                assert(o.anchors[i] == n[i]);
            }
        }
        assert(n[o.anchors.len() as int] == id);
        assert forall|a: Seq<char>| o.anchors.contains(a) implies #[trigger] n.contains(a) by {
            let k = choose|k: int| 0 <= k < o.anchors.len() && o.anchors[k] == a;
            assert(n[k] == a);
        }
    }
}

/// Adding anchors keeps a bundle well formed; each of them, and every anchor
/// it had, is then declared.
pub proof fn lemma_with_anchors(o: OkfV, ids: Seq<Seq<char>>)
    requires
        o.wf(),
    ensures
        with_anchors(o, ids).wf(),
        forall|k: int| 0 <= k < ids.len() ==> with_anchors(o, ids).anchors.contains(#[trigger] ids[k]),
        forall|a: Seq<char>| o.anchors.contains(a) ==> #[trigger] with_anchors(o, ids).anchors.contains(a),
        with_anchors(o, ids).states == o.states,
    decreases ids.len(),
{
    if ids.len() > 0 {
        let prev = with_anchors(o, ids.drop_last());
        lemma_with_anchors(o, ids.drop_last());
        lemma_with_anchor(prev, ids.last());
        assert forall|k: int| 0 <= k < ids.len() implies with_anchors(o, ids).anchors.contains(#[trigger] ids[k]) by {
            if k < ids.len() - 1 {
                assert(ids.drop_last()[k] == ids[k]);
            }
        }
    }
}

/// Adding a state keeps a bundle well formed and its anchors as they were.
pub proof fn lemma_with_state(o: OkfV, subject: Seq<char>, id: Seq<char>)
    requires
        o.wf(),
    ensures
        with_state(o, subject, id).wf(),
        with_state(o, subject, id).anchors == o.anchors,
{
    lemma_subject_at(o.states, subject, 0);
    let k = subject_at(o.states, subject, 0);
    let n = with_state(o, subject, id).states;
    if 0 <= k < o.states.len() {
        lemma_insert_sorted(o.states[k].1, id);
        assert forall|i: int| 0 <= i < n.len() implies strictly_sorted(#[trigger] n[i].1) by {
            if i != k {
                assert(n[i] == o.states[i]);
            }
        }
        assert forall|i: int, j: int| 0 <= i < j < n.len() implies n[i].0 != n[j].0 by {
            assert(n[i].0 == o.states[i].0 && n[j].0 == o.states[j].0);
        }
    } else {
        assert forall|i: int| 0 <= i < n.len() implies strictly_sorted(#[trigger] n[i].1) by {
            if i < o.states.len() {
                assert(n[i] == o.states[i]);
            }
        }
        assert forall|i: int, j: int| 0 <= i < j < n.len() implies n[i].0 != n[j].0 by {
            if j == o.states.len() {
                assert(n[i] == o.states[i]);
            }
        }
    }
}

/// Reading in a `states:` list keeps a bundle well formed and its anchors as
/// they were.
pub proof fn lemma_add_states(o: OkfV, file: Seq<char>, subject: Seq<char>, sts: Seq<Yaml>)
    requires
        o.wf(),
    ensures
        add_states(o, file, subject, sts).wf(),
        add_states(o, file, subject, sts).anchors == o.anchors,
    decreases sts.len(),
{
    if sts.len() > 0 {
        lemma_add_states(o, file, subject, sts.drop_last());
        let o1 = add_states(o, file, subject, sts.drop_last());
        let d = decl_of(file, subject, (sts.len() - 1) as nat, sts.last());
        match d.id {
            Some(x) => lemma_with_state(o1, subject, x),
            None => {},
        }
    }
}

/// Reading in `subjects:` entries keeps a bundle well formed and its anchors
/// as they were.
pub proof fn lemma_add_subjects(o: OkfV, file: Seq<char>, es: Seq<(Yaml, Yaml)>)
    requires
        o.wf(),
    ensures
        add_subjects(o, file, es).wf(),
        add_subjects(o, file, es).anchors == o.anchors,
    decreases es.len(),
{
    if es.len() > 0 {
        lemma_add_subjects(o, file, es.drop_last());
        let prev = add_subjects(o, file, es.drop_last());
        let subject = key_text(es.last().0);
        match get(es.last().1, "states"@) {
            Some(Yaml::Sequence(sts)) => lemma_add_states(prev, file, subject, sts@),
            _ => {},
        }
    }
}

/// Reading one concept file into a well-formed bundle leaves it well formed:
/// each anchor once, each subject once, each state space strictly sorted. The
/// file's anchors are then declared, and none the bundle had is lost.
pub proof fn lemma_load_file_wf(o: OkfV, file: Seq<char>, text: Seq<char>)
    requires
        o.wf(),
    ensures
        load_file(o, file, text).wf(),
        forall|k: int|
            0 <= k < anchor_ids(text).len() ==> load_file(o, file, text).anchors.contains(
                #[trigger] anchor_ids(text)[k],
            ),
        forall|a: Seq<char>| o.anchors.contains(a) ==> #[trigger] load_file(o, file, text).anchors.contains(a),
{
    let o1 = with_anchors(o, anchor_ids(text));
    lemma_with_anchors(o, anchor_ids(text));
    match frontmatter_of(text) {
        None => {},
        Some(front) => match yaml_load(front) {
            Err(e) => {},
            Ok(doc) => match get(doc, "subjects"@) {
                Some(Yaml::Mapping(subjects)) => lemma_add_subjects(o1, file, subjects@),
                _ => {},
            },
        },
    }
}

/// However many concept files are read in, and in whatever order, a bundle
/// built from the empty one is well formed.
pub proof fn lemma_load_files_wf(files: Seq<(Seq<char>, Seq<char>)>)
    ensures
        load_files(empty_okf(), files).wf(),
    decreases files.len(),
{
    if files.len() == 0 {
        assert(empty_okf().anchors.no_duplicates());
    } else {
        lemma_load_files_wf(files.drop_last());
        lemma_load_file_wf(load_files(empty_okf(), files.drop_last()), files.last().0, files.last().1);
    }
}


/// A reference resolves the same with or without a leading `#`.
pub proof fn lemma_resolves_hash(o: OkfV, reference: Seq<char>)
    ensures
        o.resolves(seq!['#'] + reference) == o.resolves(reference),
{
    assert((seq!['#'] + reference).drop_first() =~= reference);
}


/// Where `states_for` finds a subject: at the first entry that names it.
pub proof fn lemma_states_for(states: Seq<(Seq<char>, Seq<Seq<char>>)>, subject: Seq<char>, i: int)
    requires
        0 <= i <= states.len(),
    ensures
        states_for(states.skip(i), subject) == if subject_at(states, subject, i) < states.len() {
            Some(states[subject_at(states, subject, i)].1)
        } else {
            None::<Seq<Seq<char>>>
        },
    decreases states.len() - i,
{
    if i < states.len() {
        assert(states.skip(i)[0] == states[i]);
        if states[i].0 != subject {
            assert(states.skip(i).drop_first() =~= states.skip(i + 1));
            lemma_states_for(states, subject, i + 1);
        }
    }
}

/// The state space a well-formed bundle declares for `subject`: the one
/// entry that names it.
pub proof fn lemma_states_of(o: OkfV, subject: Seq<char>)
    requires
        o.wf(),
    ensures
        forall|k: int|
            0 <= k < o.states.len() && (#[trigger] o.states[k]).0 == subject ==> o.states_of(subject) == Some(
                o.states[k].1,
            ),
        o.states_of(subject) is None ==> forall|k: int| 0 <= k < o.states.len() ==> (#[trigger] o.states[k]).0 != subject,
        o.states_of(subject) is Some ==> subject_at(o.states, subject, 0) < o.states.len() && o.states_of(subject)
            == Some(o.states[subject_at(o.states, subject, 0)].1),
{
    assert(o.states.skip(0) =~= o.states);
    lemma_states_for(o.states, subject, 0);
    lemma_subject_at(o.states, subject, 0);
}

/// Whether the bundle declares `id` among `subject`'s states.
pub open spec fn declares(o: OkfV, subject: Seq<char>, id: Seq<char>) -> bool {
    match o.states_of(subject) {
        Some(l) => l.contains(id),
        None => false,
    }
}

/// Adding a state puts it in its subject's state space, and takes no state
/// out of any.
pub proof fn lemma_with_state_declares(o: OkfV, subject: Seq<char>, id: Seq<char>)
    requires
        o.wf(),
    ensures
        declares(with_state(o, subject, id), subject, id),
        forall|s: Seq<char>, x: Seq<char>| declares(o, s, x) ==> #[trigger] declares(with_state(o, subject, id), s, x),
{
    let n = with_state(o, subject, id);
    lemma_with_state(o, subject, id);
    lemma_subject_at(o.states, subject, 0);
    let k = subject_at(o.states, subject, 0);
    lemma_states_of(n, subject);
    if 0 <= k < o.states.len() {
        lemma_insert_sorted(o.states[k].1, id);
        assert(n.states[k].0 == subject);
    } else {
        assert(n.states[o.states.len() as int].0 == subject);
        assert(n.states[o.states.len() as int].1 =~= seq![id]);
        assert(n.states[o.states.len() as int].1[0] == id);
    }
    assert forall|s: Seq<char>, x: Seq<char>| declares(o, s, x) implies #[trigger] declares(n, s, x) by {
        lemma_states_of(o, s);
        lemma_states_of(n, s);
        lemma_subject_at(o.states, s, 0);
        let j = subject_at(o.states, s, 0);
        assert(j < o.states.len());
        assert(o.states_of(s) == Some(o.states[j].1));
        if j == k {
            lemma_insert_sorted(o.states[k].1, id);
            assert(n.states[j].0 == s);
        } else {
            assert(n.states[j] == o.states[j]);
        }
    }
}

/// Reading in a `states:` list puts every state it names in its subject's
/// state space, and takes none out of any; an entry that names no state adds
/// none.
pub proof fn lemma_add_states_declares(o: OkfV, file: Seq<char>, subject: Seq<char>, sts: Seq<Yaml>)
    requires
        o.wf(),
    ensures
        forall|k: int|
            0 <= k < sts.len() && (#[trigger] state_id(sts[k])) is Some ==> declares(
                add_states(o, file, subject, sts),
                subject,
                state_id(sts[k])->Some_0,
            ),
        forall|s: Seq<char>, x: Seq<char>|
            declares(o, s, x) ==> #[trigger] declares(add_states(o, file, subject, sts), s, x),
    decreases sts.len(),
{
    if sts.len() > 0 {
        let prev = sts.drop_last();
        lemma_add_states_declares(o, file, subject, prev);
        lemma_add_states(o, file, subject, prev);
        let o1 = add_states(o, file, subject, prev);
        let d = decl_of(file, subject, (sts.len() - 1) as nat, sts.last());
        let o2 = match d.id {
            Some(x) => with_state(o1, subject, x),
            None => o1,
        };
        let r = add_states(o, file, subject, sts);
        assert(r == with_decl(o2, d));
        assert(r.states == o2.states);
        assert forall|t: Seq<char>, x: Seq<char>| declares(o1, t, x) implies #[trigger] declares(r, t, x) by {
            match d.id {
                Some(y) => {
                    lemma_with_state_declares(o1, subject, y);
                    assert(declares(o2, t, x));
                },
                None => {},
            }
        }
        match d.id {
            Some(y) => {
                lemma_with_state_declares(o1, subject, y);
                assert(declares(r, subject, y));
            },
            None => {},
        }
        assert forall|k: int|
            0 <= k < sts.len() && (#[trigger] state_id(sts[k])) is Some implies declares(
                r,
                subject,
                state_id(sts[k])->Some_0,
            ) by {
            if k < sts.len() - 1 {
                assert(prev[k] == sts[k]);
                assert(state_id(prev[k]) is Some);
                assert(declares(o1, subject, state_id(sts[k])->Some_0));
            } else {
                assert(sts.last() == sts[k]);
            }
        }
        assert forall|t: Seq<char>, x: Seq<char>| declares(o, t, x) implies #[trigger] declares(r, t, x) by {
            assert(declares(o1, t, x));
        }
    }
}


/// Reading in `subjects:` entries takes no state out of any state space.
proof fn lemma_add_subjects_keeps(o: OkfV, file: Seq<char>, es: Seq<(Yaml, Yaml)>)
    requires
        o.wf(),
    ensures
        forall|s: Seq<char>, x: Seq<char>| declares(o, s, x) ==> #[trigger] declares(add_subjects(o, file, es), s, x),
    decreases es.len(),
{
    if es.len() > 0 {
        lemma_add_subjects_keeps(o, file, es.drop_last());
        lemma_add_subjects(o, file, es.drop_last());
        let prev = add_subjects(o, file, es.drop_last());
        let subject = key_text(es.last().0);
        match get(es.last().1, "states"@) {
            Some(Yaml::Sequence(sts)) => {
                lemma_add_states_declares(prev, file, subject, sts@);
            },
            _ => {},
        }
        assert forall|t: Seq<char>, x: Seq<char>| declares(o, t, x) implies #[trigger] declares(
            add_subjects(o, file, es),
            t,
            x,
        ) by {
            assert(declares(prev, t, x));
        }
    }
}

/// A bundle's state spaces only grow as concept files are read into it: no
/// file takes out a state an earlier file declared.
pub proof fn lemma_load_file_keeps_states(o: OkfV, file: Seq<char>, text: Seq<char>)
    requires
        o.wf(),
    ensures
        forall|s: Seq<char>, x: Seq<char>| declares(o, s, x) ==> #[trigger] declares(load_file(o, file, text), s, x),
{
    let o1 = with_anchors(o, anchor_ids(text));
    lemma_with_anchors(o, anchor_ids(text));
    assert forall|s: Seq<char>, x: Seq<char>| declares(o, s, x) implies declares(o1, s, x) by {}
    match frontmatter_of(text) {
        None => {},
        Some(front) => match yaml_load(front) {
            Err(e) => {
                assert forall|s: Seq<char>, x: Seq<char>| declares(o, s, x) implies #[trigger] declares(
                    load_file(o, file, text),
                    s,
                    x,
                ) by {
                    assert(declares(o1, s, x));
                }
            },
            Ok(doc) => match get(doc, "subjects"@) {
                Some(Yaml::Mapping(subjects)) => {
                    lemma_add_subjects_keeps(o1, file, subjects@);
                    assert forall|s: Seq<char>, x: Seq<char>| declares(o, s, x) implies #[trigger] declares(
                        load_file(o, file, text),
                        s,
                        x,
                    ) by {
                        assert(declares(o1, s, x));
                    }
                },
                _ => {},
            },
        },
    }
}

} // verus!
