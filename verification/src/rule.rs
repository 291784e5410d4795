//! Every rule the checker can report, and the located finding it reports.

use vstd::prelude::*;
use crate::text::append;

verus! {

/// Every rule the checker can report, across all checks.
#[derive(Debug, Clone, Copy, PartialEq, Eq, Structural)]
pub enum Rule {
    /// LEAK-1: a mechanical test computes on a judgment/election name.
    JudgmentComputed,
    /// LEAK-2: a mechanical test references an undeclared / uncolored input.
    UndeclaredInput,
    /// LEAK-3: a judgment-aggregation carries a formula/test.
    FakedAggregation,
    /// LEAK-4: a commitment's `method`/`measure` declares no color.
    UncoloredCommitmentField,
    /// GROUND-1: a judgment hole (a criterion) carries no citation.
    MissingCitation,
    /// GROUND-2: a citation's `source` type is absent or not one of the four.
    InvalidSource,
    /// GROUND-3: a citation's `ref` does not resolve in the OKF bundle.
    DanglingAnchor,
    /// COVER-1: a declared state that no branch of the norm claims.
    UncoveredState,
    /// COVER-2: a `covers:` naming a state the subject does not declare.
    UndeclaredStateClaimed,
    /// COVER-3: a bundle state declaration that names no state.
    MalformedState,
    /// COVER-4: a bundle block that reads as a state space but yields none.
    UnreadableStateSpace,
    /// CONFLICT-1: a `defeats:` that names no norm.
    DanglingDefeat,
    /// CONFLICT-2: a collision resolved by a judgment/election `binds`.
    UnderdeterminedConflict,
    /// CONFLICT-3: a collision resolved by a colored, mechanical `binds`.
    DeterminateConflict,
    /// CONFLICT-4: a collision whose `binds` declares no color.
    UncoloredPriority,
    /// SEAM-1: a norm with neither a `commitment` nor a `modifies`.
    UnreachedSeam,
    /// SEAM-2: an empty commitment, or a branch that carries none.
    EmptyCommitment,
    /// SEAM-3: a norm written in both the binary and the `cases:` form.
    MixedBranchForms,
    /// REGIME-1: a norm with no effective regime.
    UndeterminedRegime,
    /// REGIME-2: a regime-stamped artifact from another regime.
    CrossRegimeArtifact,
}

/// The stable short code of a rule.
pub open spec fn code_text(r: Rule) -> Seq<char> {
    match r {
        Rule::JudgmentComputed => "LEAK-1"@,
        Rule::UndeclaredInput => "LEAK-2"@,
        Rule::FakedAggregation => "LEAK-3"@,
        Rule::UncoloredCommitmentField => "LEAK-4"@,
        Rule::MissingCitation => "GROUND-1"@,
        Rule::InvalidSource => "GROUND-2"@,
        Rule::DanglingAnchor => "GROUND-3"@,
        Rule::UncoveredState => "COVER-1"@,
        Rule::UndeclaredStateClaimed => "COVER-2"@,
        Rule::MalformedState => "COVER-3"@,
        Rule::UnreadableStateSpace => "COVER-4"@,
        Rule::DanglingDefeat => "CONFLICT-1"@,
        Rule::UnderdeterminedConflict => "CONFLICT-2"@,
        Rule::DeterminateConflict => "CONFLICT-3"@,
        Rule::UncoloredPriority => "CONFLICT-4"@,
        Rule::UnreachedSeam => "SEAM-1"@,
        Rule::EmptyCommitment => "SEAM-2"@,
        Rule::MixedBranchForms => "SEAM-3"@,
        Rule::UndeterminedRegime => "REGIME-1"@,
        Rule::CrossRegimeArtifact => "REGIME-2"@,
    }
}

/// The human-readable name of a rule.
pub open spec fn title_text(r: Rule) -> Seq<char> {
    match r {
        Rule::JudgmentComputed => "judgment computed"@,
        Rule::UndeclaredInput => "undeclared/uncolored input"@,
        Rule::FakedAggregation => "faked aggregation"@,
        Rule::UncoloredCommitmentField => "uncolored commitment field"@,
        Rule::MissingCitation => "missing citation"@,
        Rule::InvalidSource => "invalid source type"@,
        Rule::DanglingAnchor => "dangling anchor"@,
        Rule::UncoveredState => "uncovered state"@,
        Rule::UndeclaredStateClaimed => "undeclared state claimed"@,
        Rule::MalformedState => "malformed state declaration"@,
        Rule::UnreadableStateSpace => "unreadable state space"@,
        Rule::DanglingDefeat => "dangling defeat"@,
        Rule::UnderdeterminedConflict => "underdetermined conflict"@,
        Rule::DeterminateConflict => "determinate conflict"@,
        Rule::UncoloredPriority => "uncolored priority"@,
        Rule::UnreachedSeam => "unreached seam"@,
        Rule::EmptyCommitment => "empty commitment"@,
        Rule::MixedBranchForms => "mixed branch forms"@,
        Rule::UndeterminedRegime => "undetermined regime"@,
        Rule::CrossRegimeArtifact => "cross-regime artifact"@,
    }
}

impl Rule {
    /// Stable short code, e.g. `LEAK-1` / `GROUND-2`.
    pub fn code(self) -> (r: &'static str)
        ensures
            r@ == code_text(self),
    {
        match self {
            Rule::JudgmentComputed => "LEAK-1",
            Rule::UndeclaredInput => "LEAK-2",
            Rule::FakedAggregation => "LEAK-3",
            Rule::UncoloredCommitmentField => "LEAK-4",
            Rule::MissingCitation => "GROUND-1",
            Rule::InvalidSource => "GROUND-2",
            Rule::DanglingAnchor => "GROUND-3",
            Rule::UncoveredState => "COVER-1",
            Rule::UndeclaredStateClaimed => "COVER-2",
            Rule::MalformedState => "COVER-3",
            Rule::UnreadableStateSpace => "COVER-4",
            Rule::DanglingDefeat => "CONFLICT-1",
            Rule::UnderdeterminedConflict => "CONFLICT-2",
            Rule::DeterminateConflict => "CONFLICT-3",
            Rule::UncoloredPriority => "CONFLICT-4",
            Rule::UnreachedSeam => "SEAM-1",
            Rule::EmptyCommitment => "SEAM-2",
            Rule::MixedBranchForms => "SEAM-3",
            Rule::UndeterminedRegime => "REGIME-1",
            Rule::CrossRegimeArtifact => "REGIME-2",
        }
    }

    /// Human-readable rule name.
    pub fn title(self) -> (r: &'static str)
        ensures
            r@ == title_text(self),
    {
        match self {
            Rule::JudgmentComputed => "judgment computed",
            Rule::UndeclaredInput => "undeclared/uncolored input",
            Rule::FakedAggregation => "faked aggregation",
            Rule::UncoloredCommitmentField => "uncolored commitment field",
            Rule::MissingCitation => "missing citation",
            Rule::InvalidSource => "invalid source type",
            Rule::DanglingAnchor => "dangling anchor",
            Rule::UncoveredState => "uncovered state",
            Rule::UndeclaredStateClaimed => "undeclared state claimed",
            Rule::MalformedState => "malformed state declaration",
            Rule::UnreadableStateSpace => "unreadable state space",
            Rule::DanglingDefeat => "dangling defeat",
            Rule::UnderdeterminedConflict => "underdetermined conflict",
            Rule::DeterminateConflict => "determinate conflict",
            Rule::UncoloredPriority => "uncolored priority",
            Rule::UnreachedSeam => "unreached seam",
            Rule::EmptyCommitment => "empty commitment",
            Rule::MixedBranchForms => "mixed branch forms",
            Rule::UndeterminedRegime => "undetermined regime",
            Rule::CrossRegimeArtifact => "cross-regime artifact",
        }
    }
}

/// A located finding: which file, which node, which rule, and why.
#[derive(Debug, Clone, PartialEq, Eq)]
pub struct Finding {
    /// Source file the finding was found in.
    pub file: String,
    /// Node path into the frontmatter, e.g. `norms[0].antecedent.over-time`.
    pub path: String,
    /// Which rule tripped.
    pub rule: Rule,
    /// One-line explanation.
    pub detail: String,
}

/// A finding, by its characters.
pub struct FindingV {
    pub file: Seq<char>,
    pub path: Seq<char>,
    pub rule: Rule,
    pub detail: Seq<char>,
}

impl View for Finding {
    type V = FindingV;

    open spec fn view(&self) -> FindingV {
        FindingV { file: self.file@, path: self.path@, rule: self.rule, detail: self.detail@ }
    }
}

/// A finding, from its parts.
pub open spec fn finding(file: Seq<char>, path: Seq<char>, rule: Rule, detail: Seq<char>) -> FindingV {
    FindingV { file, path, rule, detail }
}

/// A list of findings, by their characters.
pub open spec fn fviews(fs: Seq<Finding>) -> Seq<FindingV> {
    fs.map_values(|f: Finding| f@)
}

/// How a finding is printed: `file:path<TAB>CODE (title): detail`.
pub open spec fn finding_line(f: FindingV) -> Seq<char> {
    f.file + ":"@ + f.path + "\t"@ + code_text(f.rule) + " ("@ + title_text(f.rule) + "): "@
        + f.detail
}

impl Finding {
    /// A finding at `path` in `file`.
    pub fn new(file: &str, path: &str, rule: Rule, detail: String) -> (r: Finding)
        ensures
            r@ == finding(file@, path@, rule, detail@),
    {
        Finding { file: file.to_owned(), path: path.to_owned(), rule, detail }
    }

    /// The finding as one printed line.
    pub fn to_string(&self) -> (r: String)
        ensures
            r@ == finding_line(self@),
    {
        let mut s = self.file.clone();
        append(&mut s, ":");
        append(&mut s, self.path.as_str());
        append(&mut s, "\t");
        append(&mut s, self.rule.code());
        append(&mut s, " (");
        append(&mut s, self.rule.title());
        append(&mut s, "): ");
        append(&mut s, self.detail.as_str());
        s
    }
}

/// Appends a finding to `out`.
pub fn push_finding(out: &mut Vec<Finding>, file: &str, path: &str, rule: Rule, detail: String)
    ensures
        fviews(final(out)@) == fviews(old(out)@).push(finding(file@, path@, rule, detail@)),
{
    let f = Finding::new(file, path, rule, detail);
    out.push(f);
    proof {
        assert(fviews(final(out)@) =~= fviews(old(out)@).push(finding(file@, path@, rule, detail@)));
    }
}


/// The rules one check, or one half of a check, can report.
pub enum Family {
    /// Check 1: LEAK-1/2/3/4.
    Leak,
    /// Check 2 without a bundle: GROUND-1/2.
    Citation,
    /// Check 2 against a bundle: GROUND-3.
    Anchor,
    /// Check 3 over a norm file: COVER-1/2.
    Coverage,
    /// Check 4: CONFLICT-1/2/3/4.
    Conflict,
    /// Check 5: SEAM-1/2/3.
    Seam,
    /// Check 6: REGIME-1/2.
    Regime,
    /// What runs without a bundle: checks 1, 2 (GROUND-1/2), 4, 5 and 6.
    AlwaysOn,
    /// What runs over a norm file against a bundle: GROUND-3 and COVER-1/2.
    BundleBacked,
}

/// Whether the family holds the rule.
pub open spec fn in_family(r: Rule, f: Family) -> bool {
    match f {
        Family::AlwaysOn => one_check(r, Family::Leak) || one_check(r, Family::Citation) || one_check(
            r,
            Family::Conflict,
        ) || one_check(r, Family::Seam) || one_check(r, Family::Regime),
        Family::BundleBacked => one_check(r, Family::Anchor) || one_check(r, Family::Coverage),
        _ => one_check(r, f),
    }
}

/// Whether the family of a single check holds the rule.
pub open spec fn one_check(r: Rule, f: Family) -> bool {
    match f {
        Family::Leak => r is JudgmentComputed || r is UndeclaredInput || r is FakedAggregation
            || r is UncoloredCommitmentField,
        Family::Citation => r is MissingCitation || r is InvalidSource,
        Family::Anchor => r is DanglingAnchor,
        Family::Coverage => r is UncoveredState || r is UndeclaredStateClaimed,
        Family::Conflict => r is DanglingDefeat || r is UnderdeterminedConflict || r is DeterminateConflict
            || r is UncoloredPriority,
        Family::Seam => r is UnreachedSeam || r is EmptyCommitment || r is MixedBranchForms,
        Family::Regime => r is UndeterminedRegime || r is CrossRegimeArtifact,
        _ => false,
    }
}

/// A family's findings are findings of any wider family.
pub proof fn lemma_rules_in_widen(fs: Seq<FindingV>, f: Family, g: Family)
    requires
        rules_in(fs, f),
        forall|r: Rule| in_family(r, f) ==> #[trigger] in_family(r, g),
    ensures
        rules_in(fs, g),
{
    assert forall|k: int| 0 <= k < fs.len() implies in_family((#[trigger] fs[k]).rule, g) by {
        assert(in_family(fs[k].rule, f));
    }
}

/// Every finding reports a rule of the family.
pub open spec fn rules_in(fs: Seq<FindingV>, f: Family) -> bool {
    forall|k: int| 0 <= k < fs.len() ==> in_family((#[trigger] fs[k]).rule, f)
}

pub broadcast proof fn lemma_rules_in_add(a: Seq<FindingV>, b: Seq<FindingV>, f: Family)
    requires
        rules_in(a, f),
        rules_in(b, f),
    ensures
        #[trigger] rules_in(a + b, f),
{
    assert forall|k: int| 0 <= k < (a + b).len() implies in_family((#[trigger] (a + b)[k]).rule, f) by {
        if k < a.len() {
            assert((a + b)[k] == a[k]);
        } else {
            assert((a + b)[k] == b[k - a.len()]);
        }
    }
}

pub broadcast proof fn lemma_rules_in_push(a: Seq<FindingV>, x: FindingV, f: Family)
    requires
        rules_in(a, f),
        in_family(x.rule, f),
    ensures
        #[trigger] rules_in(a.push(x), f),
{
    assert forall|k: int| 0 <= k < a.push(x).len() implies in_family((#[trigger] a.push(x)[k]).rule, f) by {
        if k < a.len() {
            assert(a.push(x)[k] == a[k]);
        }
    }
}

pub broadcast group group_rules_in {
    lemma_rules_in_add,
    lemma_rules_in_push,
}


// ---------------------------------------------------------------------------
// The file label.

/// The findings, each labelled with `file` in place of its own file.
pub open spec fn relabel(fs: Seq<FindingV>, file: Seq<char>) -> Seq<FindingV> {
    fs.map_values(|f: FindingV| FindingV { file, ..f })
}

pub broadcast proof fn lemma_relabel_add(a: Seq<FindingV>, b: Seq<FindingV>, file: Seq<char>)
    ensures
        #[trigger] relabel(a + b, file) == relabel(a, file) + relabel(b, file),
{
    assert(relabel(a + b, file) =~= relabel(a, file) + relabel(b, file));
}

pub broadcast proof fn lemma_relabel_push(a: Seq<FindingV>, x: FindingV, file: Seq<char>)
    ensures
        #[trigger] relabel(a.push(x), file) == relabel(a, file).push(FindingV { file, ..x }),
{
    assert(relabel(a.push(x), file) =~= relabel(a, file).push(FindingV { file, ..x }));
}

pub broadcast proof fn lemma_relabel_one(x: FindingV, file: Seq<char>)
    ensures
        #[trigger] relabel(seq![x], file) == seq![FindingV { file, ..x }],
{
    assert(relabel(seq![x], file) =~= seq![FindingV { file, ..x }]);
}

pub broadcast proof fn lemma_relabel_none(file: Seq<char>)
    ensures
        #[trigger] relabel(Seq::<FindingV>::empty(), file) == Seq::<FindingV>::empty(),
{
    assert(relabel(Seq::<FindingV>::empty(), file) =~= Seq::<FindingV>::empty());
}

pub broadcast group group_relabel {
    lemma_relabel_add,
    lemma_relabel_push,
    lemma_relabel_one,
    lemma_relabel_none,
}

} // verus!
