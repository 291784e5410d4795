//! The checker's acceptance suite, run over the fixtures and seed norms it
//! is checked against (embedded below), and further cases of its own.

use deon_check::{check, check_anchors, check_bundle, check_with_okf, Finding, Okf, Rule, Yaml};
use deon_check::checks::{parse, read_document};
use deon_check::expr::tokenize;
use deon_check::okf::anchors_in;

/// `examples/revenue-recognition-timing.okf.md`: its branches claim their
/// states (`covers:`), and its restatement `method` says its color.
const REVENUE_SEED: &str = r###"---
concept: revenue-recognition-timing
title: Revenue recognition — timing (when control transfers)
regime: IFRS-15
sources:
  - IFRS 15.31–38  # satisfaction of performance obligations
  - IFRS 15.39–45  # measuring progress
  - IFRS 15.56–58  # constraining variable consideration
  - IAS 8          # errors vs changes in estimate
norms:
  - id: rev-rec-timing
    subject: performance-obligation
    deontic: obligation
    covers: satisfied-over-time
    antecedent:                        # mechanical any-of over judgment atoms
      over-time:
        any-of:
          - { predicate: simultaneous-receipt-consumption, color: judgment,
              grounds: { ref: "#ifrs15-35a", source: standard-criterion } }
          - { predicate: customer-controlled-asset, color: judgment,
              grounds: { ref: "#ifrs15-35b", source: standard-criterion } }
          - { predicate: no-alt-use-and-enforceable-payment, color: judgment,
              grounds: { ref: "#ifrs15-35c", source: legal-fact } }
    commitment:
      timing: over-time
      measure: { color: judgment, grounds: { ref: "#ifrs15-39", source: standard-criterion } }
      note: arithmetic (measure → per-period amounts) is downstream Lean
    otherwise:                         # residual branch
      covers: satisfied-at-a-point
      commitment:
        timing: point-in-time
        point:
          judgment-aggregation:        # weighed indicators, NO combination rule
            factors: [right-to-payment, legal-title, possession, risks-rewards, acceptance]
            grounds: { ref: "#ifrs15-38", source: standard-criterion }

  - id: var-consideration-constraint
    concept-ref: variable-consideration
    defeats: rev-rec-timing            # priority is itself a colored-judgment hole
    binds: { predicate: highly-probable-no-reversal, color: judgment,
             grounds: { ref: "#ifrs15-56", source: standard-criterion } }
    modifies: { commitment.amount: cap-to-no-significant-reversal }

  - id: rev-rec-restatement            # contrary-to-duty
    deontic: obligation
    antecedent:
      all-of:
        - { predicate: violated, norm: rev-rec-timing, color: judgment,
            grounds: { ref: "#ias8-error-vs-estimate", source: standard-criterion } }
        - { predicate: material, color: judgment,
            grounds: { ref: "materiality", source: standard-criterion } }
    commitment: { adjustment: prior-period, method: { value: retrospective, color: mechanical } }

coverage-note: >
  "Performance obligation not yet satisfied → recognize nothing" is a third state
  not represented above; the checker flags it as a coverage gap (spike 1, F5).
---

# Revenue recognition — timing

The cited judgment prose lives here, beside the norm block, as an OKF concept.
This stub is a placeholder for that prose; in a real OKF bundle it would carry the
full reasoning and citations that the `grounds:` refs above point into
(`#ifrs15-35a`, `#ifrs15-38`, …). This seed passes the always-on checks clean —
leak detection (check 1) and structural grounding (check 2, GROUND-1/2): every
criterion is cited and typed. Only anchor _resolution_ (GROUND-3, under `--okf`)
is expected to flag, because that OKF bundle does not exist yet, so the refs
dangle until it lands.

This file demonstrates the deon convention: **the formal norm is frontmatter; the
authoritative judgment is the prose beneath it.** If they ever disagree, the prose
wins and the norm is the bug.
"###;

/// `examples/lease-classification.okf.md`: `payments` is a declared input, and
/// the election ranges over `lease`.
const LEASE_SEED: &str = r###"---
concept: lease-classification
title: Lease classification — finance vs operating (lessee)
regime: ASC-840
sources:
  - ASC 840        # bright-line classification (superseded)
  - IAS 17         # substantially-all risks and rewards (superseded)
  - IFRS 16        # lessee capitalizes all leases
norms:
  - id: lease-classification
    subject: lease
    deontic: obligation
    antecedent:
      is-finance-lease:                # mechanical any-of over mixed atoms
        any-of:
          - { predicate: ownership-transfers, color: mechanical,
              test: lease.transfers-ownership }
          - { predicate: purchase-option-certain, color: judgment,
              grounds: { ref: "#option", source: standard-criterion } }
          - term-major-part:
              mechanical:
                test: "lease.term / economic-life >= threshold"
                threshold: { value: 0.75, regime: ASC-840, color: mechanical }
                inputs: { economic-life: { color: judgment, source: world-fact } }
          - pv-substantially-all:
              mechanical:
                test: "pv(payments, rate) / fair-value >= threshold"
                threshold: { value: 0.90, regime: ASC-840, color: mechanical }
                inputs:
                  payments:   { color: mechanical }
                  fair-value: { color: judgment, source: world-fact }
                  rate:       { color: judgment, source: world-fact }
          - { predicate: specialized-no-alt-use, color: judgment,
              grounds: { ref: "#specialized", source: standard-criterion } }
    commitment: { classification: finance }
    otherwise:
      commitment: { classification: operating }
    note: measurement (ROU asset + lease liability) is downstream Lean

  - id: short-term-low-value-election  # an election defeats the default
    subject: lease
    regime: IFRS-16
    deontic: permission
    defeats: lease-classification
    antecedent:
      all-of:
        - { predicate: short-term, color: mechanical,
            test: "lease.term <= threshold",
            threshold: { value: "12mo", regime: IFRS-16, color: mechanical } }
        - { predicate: low-value, color: judgment,
            grounds: { ref: "#low-value", source: entity-election } }
    commitment: { capitalize: false }

regime-note: >
  Under IFRS-16 the lessee classification norm above does not exist — all lessee
  leases capitalize. A norm's existence is regime-relative (spike 2, N1).
---

# Lease classification (lessee)

The cited judgment prose lives here, beside the norm block. This stub stands in
for the OKF concept that the `grounds:` refs point into (`#option`,
`#specialized`, `#low-value`). Because that OKF bundle does not exist yet, those
anchors are dangling, so the grounding-completeness check (DESIGN §4, check 2) is
_expected_ to flag every hole here until the bundle lands — the leak-detection
check (check 1) is the one this seed is authored to pass clean.

Note the two regime-scoped thresholds (`0.75 @ASC-840`, `0.90 @ASC-840`,
`12mo @IFRS-16`): each is a **colored artifact**, not an inert number — the
mechanization of a judgment that a different regime leaves open ("major part",
"substantially all").
"###;

/// `examples/financial-instrument-classification.okf.md`.
const INSTRUMENT_SEED: &str = r###"---
concept: financial-instrument-classification
title: Financial instrument — liability vs equity (issuer)
regime: IAS-32
sources:
  - IAS 32.11        # definitions: financial liability, equity instrument
  - IAS 32.15–16     # substance over form; the two equity conditions
  - IAS 32.16A–16D   # puttable instruments exception
  - IAS 32.25        # contingent settlement provisions
  - IAS 32.28–32     # compound instruments
norms:
  - id: instrument-classification
    subject: financial-instrument
    deontic: obligation
    antecedent:
      is-financial-liability:          # mechanical any-of over judgment atoms
        any-of:
          - { predicate: contractual-obligation-to-deliver-cash, color: judgment,
              grounds: { ref: "#ias32-11-liability", source: standard-criterion } }
          - { predicate: obligation-to-exchange-on-unfavourable-terms, color: judgment,
              grounds: { ref: "#ias32-11-unfavourable", source: standard-criterion } }
          - settles-in-variable-own-equity:
              mechanical:
                test: "financial-instrument.settles-in-own-equity and not fixed-for-fixed"
                inputs:
                  # "fixed amount of cash for a fixed number of own equity
                  # instruments" — a legal reading of the contract terms, which
                  # crosses the seam as a value, not as a computation.
                  fixed-for-fixed: { color: judgment, source: legal-fact }
    commitment: { classification: liability }
    otherwise:
      commitment: { classification: equity }

  - id: contingent-settlement          # IAS 32.25
    subject: financial-instrument
    deontic: obligation
    defeats: instrument-classification
    binds: { predicate: contingency-is-genuine, color: judgment,
             grounds: { ref: "#ias32-25", source: standard-criterion } }
    commitment: { classification: liability }

  - id: puttable-exception             # IAS 32.16A–16D
    subject: financial-instrument
    deontic: permission
    defeats: instrument-classification
    binds: { predicate: meets-puttable-conditions, color: judgment,
             grounds: { ref: "#ias32-16a", source: standard-criterion } }
    commitment: { classification: equity }

  - id: compound-instrument            # IAS 32.28–32 — see the note below
    subject: financial-instrument
    deontic: obligation
    antecedent:
      all-of:
        - { predicate: contains-both-liability-and-equity-components, color: judgment,
            grounds: { ref: "#ias32-28", source: standard-criterion } }
    commitment:
      classification: compound
      method: { value: residual-allocation, color: mechanical }

seam-note: >
  The first three norms terminate exactly on Pacioli's seam: `classification:
  liability | equity` is the argument its injected `classify : α → AccountClass`
  wants (`AccountClass.claim .liability` / `.claim .equity`). `compound-instrument`
  does not — see the body.
---

# Financial instrument — liability vs equity (issuer)

A third seed, encoded to **test the language** rather than to grow a catalog of
norms (deon owns the language, not the norms). It was chosen because
its commitment lands on the one place Pacioli already expects a value from the
judgment half — `classify : α → AccountClass` — so it probes the seam contract
that the two repos assert but nothing has exercised.

This stub stands in for the OKF concept the `grounds:` refs point into. The
encoding is a test artifact, not an authority on IAS 32.
"###;

/// `tests/fixtures/leaky.okf.md`.
const LEAKY: &str = r###"---
concept: leaky-fixture
title: Deliberately leaky fixture — trips each leak rule once
regime: TEST
norms:
  - id: leak1-judgment-computed        # LEAK-1: mechanical test embeds `is-material`
    subject: thing
    deontic: obligation
    antecedent:
      all-of:
        - { predicate: is-material, color: judgment,
            grounds: { ref: "#materiality", source: standard-criterion } }
        - predicate: over-threshold
          color: mechanical
          test: "thing.ratio >= threshold and is-material"
          threshold: { value: 0.05, regime: TEST, color: mechanical }
    commitment: { flag: true }

  - id: leak2-undeclared-input         # LEAK-2: `benchmark` is neither field nor input
    subject: thing
    deontic: obligation
    antecedent:
      is-big:
        mechanical:
          test: "thing.size / benchmark >= threshold"
          threshold: { value: 100, regime: TEST, color: mechanical }
    commitment: { flag: true }

  - id: leak3-faked-aggregation        # LEAK-3: aggregation carries a formula
    subject: thing
    deontic: obligation
    antecedent:
      weigh:
        judgment-aggregation:
          factors: [a, b, c]
          grounds: { ref: "#weighing", source: standard-criterion }
          test: "0.4*a + 0.4*b + 0.2*c >= threshold"
    commitment: { flag: true }
---

# Leaky fixture (test data — not a real norm)

This file exists only to prove the checker's teeth: it trips **LEAK-1**,
**LEAK-2**, and **LEAK-3** exactly once each. It is intentionally dishonest and
must never be treated as an authored norm.
"###;

/// `tests/fixtures/near-miss.okf.md`, with the uncolored commitment `method`
/// at `norms[3]` that the suite looks for.
const NEAR_MISS: &str = r###"---
concept: near-miss-fixture
title: The near-miss forms — one line away from silencing each rule
regime: TEST
norms:
  - id: n1-dotted-judgment          # LEAK-1: a field access on a judgment name
    subject: thing
    deontic: obligation
    antecedent:
      all-of:
        - { predicate: is-material, color: judgment,
            grounds: { ref: "#m", source: standard-criterion } }
        - predicate: leaky
          color: mechanical
          test: "thing.ratio >= threshold and is-material.value"
          threshold: { value: 0.05, regime: TEST, color: mechanical }
    commitment: { flag: true }

  - id: n2-foreign-record           # LEAK-2: a dotted name rooted elsewhere
    subject: thing
    deontic: obligation
    antecedent:
      all-of:
        - { predicate: elsewhere, color: mechanical,
            test: contract.control_transferred }
    commitment: { flag: true }

  - id: n3-uncolored-input          # LEAK-2: declared, but says nothing
    subject: thing
    deontic: obligation
    antecedent:
      is-big:
        mechanical:
          test: "thing.size / benchmark >= threshold"
          threshold: { value: 100, regime: TEST, color: mechanical }
          inputs: { benchmark: {} }
    commitment: { flag: true }

  - id: n4-uncolored-method          # LEAK-4: a commitment field that says nothing
    subject: thing
    deontic: obligation
    antecedent:
      all-of:
        - { predicate: due, color: mechanical, test: thing.due }
    commitment: { method: straight-line }

  - id: n5-uncited-aggregation      # LEAK-3 + GROUND-1: no `grounds` at all
    subject: thing
    deontic: obligation
    antecedent:
      weigh:
        judgment-aggregation:
          factors: [a, b, c]
          test: "0.4*a + 0.4*b + 0.2*c >= threshold"
    commitment: { flag: true }
---

# Near-miss fixture (test data — not a real norm)

Every other red fixture in this repo demonstrates the **canonical** form of a
defect. This one demonstrates the *near-miss* forms — the small edits that used
to make a rule stop applying instead of making it fire. Each norm here was
silent before the recognition fix, and `tests/fixtures/leaky.okf.md` was one
deleted line (`grounds:`) or one added line (`inputs: { benchmark: {} }`) away
from being entirely green.

- `n1-dotted-judgment` appends `.value` to a name declared `judgment` in this
  same file. Waving every dotted token through as "seam data" let any judgment
  be laundered by giving it a field.
- `n2-foreign-record` computes on `contract.…` in a norm that ranges over
  `thing` — a record it never declares. LEAK-2's message always claimed to
  require "a subject field or a declared colored input"; now it checks.
- `n3-uncolored-input` declares `benchmark` and says nothing about it. An entry
  that names no color is not a declaration.
- `n4-uncited-aggregation` omits `grounds`, which used to stop it from being
  recognized as an aggregation at all — invisible to GROUND-1, the rule that
  exists to demand the citation, *and* to LEAK-3, despite the formula.

The principle each of these enforces: **recognize a node by the weakest signal
that it was intended, then check the rest.** What a rule checks for must never
also be what makes the rule apply, or the check gets weaker exactly as the input
gets more dishonest. Intentionally malformed — never an authored norm.
"###;

/// `tests/fixtures/ungrounded.okf.md`.
const UNGROUNDED: &str = r###"---
concept: ungrounded-fixture
title: Deliberately ungrounded fixture — trips each grounding rule
regime: TEST
norms:
  - id: g0-resolves                    # well-formed: cited + typed + resolves
    subject: thing
    deontic: obligation
    antecedent:
      all-of:
        - predicate: cited-and-real
          color: judgment
          grounds: { ref: "#real-anchor", source: standard-criterion }
    commitment: { flag: true }

  - id: g1-missing-citation            # GROUND-1: judgment criterion, no grounds
    subject: thing
    deontic: obligation
    antecedent:
      all-of:
        - predicate: open-textured
          color: judgment
    commitment: { flag: true }

  - id: g2-invalid-source              # GROUND-2: source not one of the four
    subject: thing
    deontic: obligation
    antecedent:
      all-of:
        - predicate: mistyped
          color: judgment
          grounds: { ref: "#somewhere", source: vibes }
    commitment: { flag: true }

  - id: g2-election-cites-standard     # GROUND-2: an election grounded in the standard
    subject: thing
    deontic: permission
    antecedent:
      all-of:
        - predicate: not-really-a-choice
          color: election
          grounds: { ref: "#real-anchor", source: standard-criterion }
    commitment: { flag: true }

  - id: g3-dangling-anchor             # GROUND-3 (under --okf): ref does not resolve
    subject: thing
    deontic: obligation
    antecedent:
      all-of:
        - predicate: cited-but-missing
          color: judgment
          grounds: { ref: "#does-not-exist", source: standard-criterion }
    commitment: { flag: true }
---

# Ungrounded fixture (test data — not a real norm)

Trips **GROUND-1** (missing citation) and **GROUND-2** twice under the always-on
checks — once for a source outside the four types, once for an `election` that
grounds in the standard's prose rather than in entity policy — and **GROUND-3**
(dangling anchor) when run with `--okf tests/fixtures/okf`.

That second GROUND-2 is what makes `election` a real color rather than a synonym
for `judgment`: DESIGN §3 types it `election(grounds: entity-policy)`, so a
choice the *standard* makes for you is a judgment, however it is labelled.

`g0-resolves` is the well-formed control: cited, typed, and resolvable.
Intentionally dishonest — never an authored norm.
"###;

/// `tests/fixtures/wrong-regime.okf.md`.
const WRONG_REGIME: &str = r###"---
concept: wrong-regime-fixture
title: Deliberately regime-incoherent fixture
# no document-level regime: — so a norm that declares none has no effective regime
norms:
  - id: r2-cross-regime-threshold    # REGIME-2: IFRS-16 threshold in an ASC-840 norm
    subject: thing
    deontic: obligation
    regime: ASC-840
    antecedent:
      is-big:
        mechanical:
          test: "thing.ratio >= threshold"
          threshold: { value: 0.75, regime: IFRS-16, color: mechanical }
    commitment: { flag: true }

  - id: r1-no-regime                 # REGIME-1: no own regime, no document regime
    subject: thing
    deontic: obligation
    antecedent:
      all-of:
        - { predicate: p, color: mechanical, test: thing.flag }
    commitment: { flag: true }
---

# Wrong-regime fixture (test data — not a real norm)

`r2-cross-regime-threshold` pulls a `@IFRS-16` bright-line into a norm scoped to
`ASC-840` (**REGIME-2**); `r1-no-regime` declares no regime and the document
declares none, so it cannot be scoped (**REGIME-1**). Intentionally incoherent —
never an authored norm.
"###;

/// `tests/fixtures/conflicting.okf.md`.
const CONFLICTING: &str = r###"---
concept: conflicting-fixture
title: Deliberately conflicting fixture
regime: IFRS-15
norms:
  - id: base-timing
    subject: thing
    deontic: obligation
    antecedent:
      all-of:
        - { predicate: transferred, color: mechanical, test: thing.transferred }
    commitment: { timing: over-time }

  - id: c2-judgment-defeat           # CONFLICT-2: collides, bound by a judgment
    subject: thing
    deontic: obligation
    defeats: base-timing
    binds: { predicate: highly-uncertain, color: judgment,
             grounds: { ref: "#uncertain", source: standard-criterion } }
    commitment: { timing: point-in-time }

  - id: c3-mechanical-defeat         # CONFLICT-3: collides, bound mechanically
    subject: thing
    deontic: obligation
    defeats: base-timing
    binds: { predicate: past-cutoff, color: mechanical, test: thing.date > cutoff }
    commitment: { timing: point-in-time }

  - id: c1-dangling-defeat           # CONFLICT-1: defeats a norm that isn't here
    subject: thing
    deontic: obligation
    defeats: no-such-norm
    binds: { predicate: whatever, color: mechanical, test: thing.flag }
    commitment: { timing: point-in-time }

  - id: quiet-disjoint-defeat        # silent: collides on nothing
    subject: thing
    deontic: permission
    defeats: base-timing
    binds: { predicate: elected, color: election,
             grounds: { ref: "#elected", source: entity-election } }
    commitment: { capitalize: false }

  - id: quiet-unconditional-defeat   # silent: collides, but priority is settled
    subject: thing
    deontic: obligation
    defeats: base-timing
    commitment: { timing: point-in-time }
---

# Conflicting fixture (test data — not a real norm)

Four defeat edges against `base-timing`, plus one dangling edge.
`c2-judgment-defeat` and `c3-mechanical-defeat` both collide with it on `timing`;
the first is bound by a judgment hole, so it is **CONFLICT-2**
(`underdetermined(highly-uncertain)`), and the second is bound mechanically, so
it is **CONFLICT-3** (a determinate conflict). `c1-dangling-defeat` names a norm
that does not exist (**CONFLICT-1**).

The last two are deliberately silent, and pin the definition of a conditional
conflict: `quiet-disjoint-defeat` constrains a different field, so there is
nothing to resolve; `quiet-unconditional-defeat` collides but carries no `binds`,
so its priority is settled rather than conditional. Intentionally incoherent —
never an authored norm.
"###;

/// `tests/fixtures/three-case.okf.md`.
const THREE_CASE: &str = r###"---
concept: three-case-fixture
title: N-ary `cases:` fixture — the third state the binary form cannot express
regime: IFRS-15
norms:
  - id: full-cases                   # well-formed: every case commits
    subject: performance-obligation
    deontic: obligation
    cases:
      - when:
          over-time:
            any-of:
              - { predicate: consumed-as-delivered, color: judgment,
                  grounds: { ref: "#ifrs15-35a", source: standard-criterion } }
        commitment: { timing: over-time }
      - when:
          all-of:
            - { predicate: satisfied, color: mechanical, test: po.satisfied }
        commitment: { timing: point-in-time }
      - commitment: { timing: none }  # residual: the `when`-less third state

  - id: dead-end-case                # SEAM-2: the middle case commits nothing
    subject: performance-obligation
    deontic: obligation
    cases:
      - when:
          all-of:
            - { predicate: a, color: mechanical, test: po.a }
        commitment: { timing: over-time }
      - when:
          all-of:
            - { predicate: b, color: mechanical, test: po.b }
        note: no commitment on this case
      - commitment: { timing: none }

  - id: defeats-a-middle-case        # CONFLICT-2 against `full-cases`' middle case
    subject: performance-obligation
    deontic: obligation
    defeats: full-cases
    binds: { predicate: control-retained, color: judgment,
             grounds: { ref: "#ifrs15-38", source: standard-criterion } }
    commitment: { timing: over-time }
---

# Three-case fixture (test data — not a real norm)

`full-cases` is the shape the binary form cannot express: over-time,
point-in-time, **and** the `when`-less residual "recognize nothing" third state
(spike 1, F5). It terminates cleanly — every case carries its own commitment.

`dead-end-case` proves termination reaches *inside* the n-ary form: its middle
case commits nothing, so it trips **SEAM-2** at `cases[1]` rather than passing
unseen. `defeats-a-middle-case` proves conditional conflict does too — it
collides with `full-cases` only on that norm's *middle* case
(`timing: point-in-time` vs its own `over-time`), and its judgment `binds` makes
that **CONFLICT-2**, not a static contradiction.

Intentionally part-malformed — never an authored norm.
"###;

/// `tests/fixtures/claim-shapes.okf.md`.
const CLAIM_SHAPES: &str = r###"---
concept: claim-shapes-fixture
title: Claims written in shapes the checker used to skip
regime: TEST
norms:
  - id: base
    subject: thing
    deontic: obligation
    antecedent:
      all-of:
        - { predicate: p, color: mechanical, test: thing.p }
    covers: [a, b]                   # a branch may cover several states
    commitment: { timing: over-time }

  - id: list-defeater                # CONFLICT-2 + CONFLICT-1 from one list
    subject: thing
    deontic: obligation
    defeats: [base, no-such-norm]
    binds: { predicate: uncertain, color: judgment,
             grounds: { ref: "#u", source: standard-criterion } }
    commitment: { timing: point-in-time }

  - id: uncolored-binds              # CONFLICT-4: priority that names no color
    subject: thing
    deontic: obligation
    defeats: base
    binds: bare-predicate-name
    commitment: { timing: point-in-time }

  - id: malformed-claim              # COVER-2: a `covers:` that names no state
    subject: thing
    deontic: obligation
    covers: { state: a }
    antecedent:
      all-of:
        - { predicate: q, color: mechanical, test: thing.q }
    commitment: { timing: point-in-time }
---

# Claim-shapes fixture (test data — not a real norm)

The companion to `near-miss.okf.md`, for the two fields that name *other things*
— `covers:` names a state, `defeats:` names a norm. Both used to be read with a
string accessor, so any other shape yielded nothing and the norm was silently
treated as making no claim at all. Skipping an unreadable claim is the worst
available behaviour: it turns a typo into an opt-out of the very check that
would have caught it.

Two shapes are now **accepted**, because they are meaningful rather than wrong:
`base` covers two states in one branch, and `list-defeater` defeats two norms at
once — which is why that one list yields both a CONFLICT-2 against `base` and a
CONFLICT-1 for the target that does not exist.

Two are **reported**: `uncolored-binds` binds priority to a predicate that names
no color (CONFLICT-4 — the abstract grammar's own bare form, which cannot carry
one), and `malformed-claim` writes a `covers:` that names no state (COVER-2).

Intentionally part-malformed — never an authored norm.
"###;

/// `tests/fixtures/unterminated.okf.md`.
const UNTERMINATED: &str = r###"---
concept: unterminated-fixture
title: Deliberately unterminated fixture — trips the seam rules
regime: TEST
norms:
  - id: s1-no-commitment             # SEAM-1: no commitment and no modifies
    subject: thing
    deontic: obligation
    antecedent:
      all-of:
        - { predicate: p, color: mechanical, test: thing.flag }

  - id: s2-empty-commitment          # SEAM-2: commitment present but empty
    subject: thing
    deontic: obligation
    antecedent:
      all-of:
        - { predicate: q, color: mechanical, test: thing.flag }
    commitment: {}

  - id: s2-otherwise-dead-end        # SEAM-2: residual branch carries no commitment
    subject: thing
    deontic: obligation
    antecedent:
      all-of:
        - { predicate: r, color: mechanical, test: thing.flag }
    commitment: { classify: a }
    otherwise:
      note: no commitment on this residual branch
---

# Unterminated fixture (test data — not a real norm)

Trips **SEAM-1** (a norm whose obligation reaches no commitment) and **SEAM-2**
twice (an empty commitment, and an `otherwise` residual branch that carries no
commitment). Intentionally malformed — never an authored norm.
"###;

/// `tests/fixtures/mixed-forms.okf.md`.
const MIXED_FORMS: &str = r###"---
concept: mixed-forms-fixture
title: Deliberately mixed branch forms — trips SEAM-3
regime: TEST
norms:
  - id: guard-and-cases              # SEAM-3: a stray `antecedent` beside `cases:`
    subject: thing
    deontic: obligation
    antecedent:
      all-of:
        - { predicate: in-scope, color: mechanical, test: thing.in-scope }
    cases:
      - when:
          all-of:
            - { predicate: a, color: mechanical, test: thing.a }
        commitment: { classify: a }
      - commitment: { classify: none }

  - id: two-residuals                # SEAM-3: `otherwise` beside a `when`-less case
    subject: thing
    deontic: obligation
    cases:
      - when:
          all-of:
            - { predicate: b, color: mechanical, test: thing.b }
        commitment: { classify: b }
      - commitment: { classify: none }
    otherwise:
      commitment: { classify: other }

  - id: unconditional-and-cases      # SEAM-3: a top-level `commitment` beside `cases:`
    subject: thing
    deontic: obligation
    commitment: { classify: always }
    cases:
      - when:
          all-of:
            - { predicate: c, color: mechanical, test: thing.c }
        commitment: { classify: c }
      - commitment: { classify: none }
---

# Mixed-forms fixture (test data — not a real norm)

Three ways to mix the binary and n-ary branch forms, each undefined in a
different way (DESIGN §3). `guard-and-cases` carries an `antecedent` that no
check reads for branch structure — dead text that still passes LEAK and GROUND,
and that an author would reasonably mistake for a guard. `two-residuals` gives
the norm two mutually exclusive residuals (a `when`-less case *and* an
`otherwise`), so which one takes effect is unstated. `unconditional-and-cases`
commits unconditionally *and* splits into cases, which contradict each other.

Every branch here carries a commitment, so nothing trips SEAM-1 or SEAM-2 — the
malformedness is the *shape*, not a dead end. Intentionally malformed — never an
authored norm.
"###;

/// `tests/fixtures/uncovered.okf.md`.
const UNCOVERED: &str = r###"---
concept: uncovered-fixture
title: Deliberately incomplete coverage
regime: TEST
norms:
  - id: full-cover                   # green: claims every declared state
    subject: thing
    deontic: obligation
    cases:
      - when:
          all-of:
            - { predicate: p, color: mechanical, test: thing.p }
        covers: a
        commitment: { classify: a }
      - covers: b
        commitment: { classify: b }

  - id: c1-gap                       # COVER-1: claims `a`, never claims `b`
    subject: thing
    deontic: obligation
    covers: a
    antecedent:
      all-of:
        - { predicate: q, color: mechanical, test: thing.q }
    commitment: { classify: a }

  - id: c2-undeclared                # COVER-2: `z` is not a declared state
    subject: thing
    deontic: obligation
    cases:
      - when:
          all-of:
            - { predicate: r, color: mechanical, test: thing.r }
        covers: a
        commitment: { classify: a }
      - when:
          all-of:
            - { predicate: s, color: mechanical, test: thing.s }
        covers: b
        commitment: { classify: b }
      - covers: z
        commitment: { classify: z }

  - id: no-claim                     # skipped: makes no coverage claim at all
    subject: thing
    deontic: obligation
    antecedent:
      all-of:
        - { predicate: t, color: mechanical, test: thing.t }
    commitment: { classify: a }

  - id: unknown-subject              # COVER-2: the bundle declares no states here
    subject: widget
    deontic: obligation
    covers: x
    antecedent:
      all-of:
        - { predicate: u, color: mechanical, test: widget.u }
    commitment: { classify: x }
---

# Uncovered fixture (test data — not a real norm)

Checked against a bundle declaring `thing` with states `a` and `b`.

`full-cover` claims both and is clean. `c1-gap` claims `a` and never claims `b`,
so **COVER-1** names the state it missed. `c2-undeclared` claims a state `z` the
subject does not declare (**COVER-2**), while still covering `a` and `b` — so the
undeclared claim is the only finding. `unknown-subject` claims a state for a
subject the bundle says nothing about, which is **COVER-2** with a different
reason.

`no-claim` is the load-bearing one: it makes no coverage claim, so coverage says
nothing about it even though its single branch plainly does not partition
`thing`'s states. Coverage is opt-in per norm — a norm that claims one state
must claim them all, but a norm that claims none is not guessed at.
"###;

/// `tests/fixtures/okf-states/performance-obligation.md`.
const STATES_BUNDLE: &str = r###"---
concept: revenue-recognition-timing
subjects:
  performance-obligation:
    states:
      - { id: not-yet-satisfied,
          grounds: { ref: "#ifrs15-31", source: standard-criterion } }
      - { id: satisfied-over-time,
          grounds: { ref: "#ifrs15-35", source: standard-criterion } }
      - { id: satisfied-at-a-point,
          grounds: { ref: "#ifrs15-38", source: standard-criterion } }
  thing:
    states:
      - { id: a, grounds: { ref: "#thing-a", source: standard-criterion } }
      - { id: b, grounds: { ref: "#thing-b", source: standard-criterion } }
---

# Performance obligation — state space (fixture)

A stand-in for the OKF concept prose that would declare what states IFRS 15
recognizes for a performance obligation. Which states a subject *has* is a
judgment about the standard, so it is norm content and lives here beside the
prose that grounds it — not in the checker.

The third state is the one spike 1 found missing from the seed norm (F5):

## Control has not yet transferred {#ifrs15-31}

Revenue is recognized when (or as) a performance obligation is satisfied. Until
then the obligation is in neither the over-time nor the point-in-time state, and
the entity recognizes nothing — the state an over-time/point-in-time binary
hides rather than closes.

## Satisfied over time {#ifrs15-35}

Prose for the over-time criteria.

## Satisfied at a point in time {#ifrs15-38}

Prose for the point-in-time indicators.

## Thing, state a {#thing-a}

Prose for the generic `thing` subject the red fixtures are checked against.

## Thing, state b {#thing-b}

Prose for the other state of `thing`.
"###;

/// `tests/fixtures/okf-bad-states/concepts.md`.
const BAD_STATES_BUNDLE: &str = r###"---
concept: bad-state-declarations
subjects:
  thing:
    states:
      - { id: grounded,
          grounds: { ref: "#real", source: standard-criterion } }
      - { id: uncited }                                    # GROUND-1: no ref
      - { id: mistyped,
          grounds: { ref: "#real", source: vibes } }        # GROUND-2: bad source
      - { id: dangling,
          grounds: { ref: "#nowhere", source: standard-criterion } }  # GROUND-3
      - { grounds: { ref: "#real", source: standard-criterion } }     # COVER-3: no id
---

# Bad state declarations (fixture)

A bundle that fails to ground its own claims about what states a subject has.
Only `grounded` is well-formed.

The last entry is the quiet one: with no `id` it declares nothing, so it drops
out of the state space entirely — and a state that is not in the space is a
state coverage stops looking for. That is a coverage gap created by a typo, with
no finding anywhere until COVER-3.

## A real anchor {#real}

Prose for the declarations that resolve.
"###;

/// `tests/fixtures/okf-unreadable/broken-frontmatter.md`.
const BROKEN_BUNDLE: &str = r###"---
concept: broken
subjects:
  thing:
    states:
   - { id: a }
     bad indentation: [unclosed
---

# Broken frontmatter (fixture)

This file opens with a `---` fence, so it is announcing frontmatter — but the
YAML inside does not parse. Whatever state space it meant to declare is
invisible, and without **COVER-4** nothing anywhere says so.
"###;

/// `tests/fixtures/okf-unreadable/no-states-list.md`.
const NO_STATES_BUNDLE: &str = r###"---
concept: stateless
subjects:
  widget:
    note: this subject was declared, but its `states:` list never was
---

# Subject with no states list (fixture)

`widget` reads as a declared subject, but there is no `states:` list, so it
yields an empty state space — **COVER-4**. Coverage would have nothing to check
a `covers: ...` claim against, and would report the subject as undeclared, which
is true of the bundle but misleading about the intent.
"###;

/// `tests/fixtures/okf/anchors.md`.
const ONE_ANCHOR_BUNDLE: &str = r###"---
concept: one-anchor
---

# One anchor (fixture)

The bundle the grounding fixture resolves against: it declares a single anchor.

## A real anchor {#real-anchor}

Prose for the one criterion that resolves.
"###;

fn read(rel: &str) -> String {
    match rel {
        "examples/revenue-recognition-timing.okf.md" => REVENUE_SEED.to_string(),
        "examples/lease-classification.okf.md" => LEASE_SEED.to_string(),
        "examples/financial-instrument-classification.okf.md" => INSTRUMENT_SEED.to_string(),
        "tests/fixtures/leaky.okf.md" => LEAKY.to_string(),
        "tests/fixtures/near-miss.okf.md" => NEAR_MISS.to_string(),
        "tests/fixtures/ungrounded.okf.md" => UNGROUNDED.to_string(),
        "tests/fixtures/wrong-regime.okf.md" => WRONG_REGIME.to_string(),
        "tests/fixtures/conflicting.okf.md" => CONFLICTING.to_string(),
        "tests/fixtures/three-case.okf.md" => THREE_CASE.to_string(),
        "tests/fixtures/claim-shapes.okf.md" => CLAIM_SHAPES.to_string(),
        "tests/fixtures/unterminated.okf.md" => UNTERMINATED.to_string(),
        "tests/fixtures/mixed-forms.okf.md" => MIXED_FORMS.to_string(),
        "tests/fixtures/uncovered.okf.md" => UNCOVERED.to_string(),
        _ => panic!("no fixture {rel}"),
    }
}

/// The concept files of a fixture bundle, as `(path, text)`.
fn manifest(rel: &str) -> Vec<(String, String)> {
    match rel {
        "tests/fixtures/okf-states" => vec![
            ("tests/fixtures/okf-states/performance-obligation.md".to_string(), STATES_BUNDLE.to_string()),
        ],
        "tests/fixtures/okf-bad-states" => vec![
            ("tests/fixtures/okf-bad-states/concepts.md".to_string(), BAD_STATES_BUNDLE.to_string()),
        ],
        "tests/fixtures/okf-unreadable" => vec![
            ("tests/fixtures/okf-unreadable/broken-frontmatter.md".to_string(), BROKEN_BUNDLE.to_string()),
            ("tests/fixtures/okf-unreadable/no-states-list.md".to_string(), NO_STATES_BUNDLE.to_string()),
        ],
        "tests/fixtures/okf" => vec![
            ("tests/fixtures/okf/anchors.md".to_string(), ONE_ANCHOR_BUNDLE.to_string()),
        ],
        _ => panic!("no fixture bundle {rel}"),
    }
}

fn bundle() -> Okf {
    Okf::load(&manifest("tests/fixtures/okf-states"))
}

fn conflict_findings(findings: &[Finding]) -> Vec<&Finding> {
    findings
        .iter()
        .filter(|f| {
            matches!(
                f.rule,
                Rule::DanglingDefeat
                    | Rule::UnderdeterminedConflict
                    | Rule::DeterminateConflict
                    | Rule::UncoloredPriority
            )
        })
        .collect()
}

fn cover_findings(findings: &[Finding]) -> Vec<&Finding> {
    findings
        .iter()
        .filter(|f| matches!(f.rule, Rule::UncoveredState | Rule::UndeclaredStateClaimed))
        .collect()
}

fn ground_findings(findings: &[Finding]) -> Vec<&Finding> {
    findings
        .iter()
        .filter(|f| {
            matches!(
                f.rule,
                Rule::MissingCitation | Rule::InvalidSource | Rule::DanglingAnchor
            )
        })
        .collect()
}

fn regime_findings(findings: &[Finding]) -> Vec<&Finding> {
    findings
        .iter()
        .filter(|f| matches!(f.rule, Rule::UndeterminedRegime | Rule::CrossRegimeArtifact))
        .collect()
}

fn seam_findings(findings: &[Finding]) -> Vec<&Finding> {
    findings
        .iter()
        .filter(|f| matches!(f.rule, Rule::UnreachedSeam | Rule::EmptyCommitment))
        .collect()
}

fn render(findings: &[&Finding]) -> String {
    findings
        .iter()
        .map(|f| f.to_string())
        .collect::<Vec<_>>()
        .join("\n")
}

fn render_all(findings: &[Finding]) -> String {
    findings
        .iter()
        .map(|f| f.to_string())
        .collect::<Vec<_>>()
        .join("\n")
}

// ---------------------------------------------------------------------------
// Check 1: leaks.

#[test]
fn seed_norms_are_clean() {
    for seed in [
        "examples/revenue-recognition-timing.okf.md",
        "examples/lease-classification.okf.md",
    ] {
        let findings = check(seed, &read(seed)).expect("seed parses");
        assert!(
            findings.is_empty(),
            "expected 0 findings in {seed}, got {}:\n{}",
            findings.len(),
            render_all(&findings)
        );
    }
}

#[test]
fn leaks_seed_norms_are_clean() {
    for seed in [
        "examples/revenue-recognition-timing.okf.md",
        "examples/lease-classification.okf.md",
    ] {
        let findings = check(seed, &read(seed)).expect("seed parses");
        assert!(
            findings.is_empty(),
            "expected 0 findings in {seed}, got {}:\n{}",
            findings.len(),
            render_all(&findings)
        );
    }
}

fn assert_leaky_fixture_trips_each_rule_once() {
    let rel = "tests/fixtures/leaky.okf.md";
    let findings = check(rel, &read(rel)).expect("fixture parses");

    assert_eq!(
        findings.len(),
        3,
        "expected exactly 3 leaks, got:\n{}",
        render_all(&findings)
    );

    for kind in [
        Rule::JudgmentComputed,
        Rule::UndeclaredInput,
        Rule::FakedAggregation,
    ] {
        assert_eq!(
            findings.iter().filter(|f| f.rule == kind).count(),
            1,
            "expected exactly one {} finding",
            kind.code()
        );
    }

    let at = |kind: Rule| findings.iter().find(|f| f.rule == kind).unwrap();
    assert!(
        at(Rule::JudgmentComputed)
            .path
            .contains("leak1-judgment-computed")
            || at(Rule::JudgmentComputed).path.starts_with("norms[0]")
    );
    assert!(at(Rule::UndeclaredInput).path.starts_with("norms[1]"));
    assert!(at(Rule::FakedAggregation).path.starts_with("norms[2]"));

    assert!(at(Rule::JudgmentComputed).detail.contains("is-material"));
    assert!(at(Rule::UndeclaredInput).detail.contains("benchmark"));
}

#[test]
fn leaky_fixture_trips_each_rule_once() {
    assert_leaky_fixture_trips_each_rule_once();
}

#[test]
fn leaks_leaky_fixture_trips_each_rule_once() {
    assert_leaky_fixture_trips_each_rule_once();
}

#[test]
fn missing_frontmatter_is_an_error() {
    assert!(check("x.md", "# just prose\n").is_err());
}

#[test]
fn leaks_missing_frontmatter_is_an_error() {
    assert!(check("x.md", "# just prose\n").is_err());
}

#[test]
fn near_miss_forms_are_caught() {
    let rel = "tests/fixtures/near-miss.okf.md";
    let findings = check(rel, &read(rel)).expect("fixture parses");
    let rendered = render_all(&findings);

    let at = |path: &str, rule: Rule| {
        assert!(
            findings.iter().any(|f| f.path == path && f.rule == rule),
            "expected {} at {path} in:\n{rendered}",
            rule.code()
        );
    };

    at("norms[3].commitment.method", Rule::UncoloredCommitmentField);
    at("norms[0].antecedent.all-of[1]", Rule::JudgmentComputed);
    at("norms[1].antecedent.all-of[0]", Rule::UndeclaredInput);
    at(
        "norms[2].antecedent.is-big.inputs.benchmark",
        Rule::UndeclaredInput,
    );
    at(
        "norms[4].antecedent.weigh.judgment-aggregation",
        Rule::FakedAggregation,
    );
    at(
        "norms[4].antecedent.weigh.judgment-aggregation",
        Rule::MissingCitation,
    );

    assert_eq!(
        findings.len(),
        6,
        "expected exactly 6 findings:\n{rendered}"
    );
}

#[test]
fn removing_a_citation_cannot_silence_a_rule() {
    let cited = "\
---
norms:
  - id: n
    subject: thing
    antecedent:
      weigh:
        judgment-aggregation:
          factors: [a, b]
          grounds: { ref: \"#w\", source: standard-criterion }
          test: \"0.5*a + 0.5*b >= threshold\"
    commitment: { flag: true }
---
# body
";
    let uncited = cited
        .lines()
        .filter(|l| !l.trim_start().starts_with("grounds:"))
        .collect::<Vec<_>>()
        .join("\n");

    let with = check("cited.okf.md", cited).expect("parses");
    let without = check("uncited.okf.md", &uncited).expect("parses");

    assert!(
        !with.is_empty(),
        "control: the cited aggregation still trips LEAK-3 for its formula"
    );
    assert!(
        without.len() > with.len(),
        "deleting `grounds:` produced {} findings, down from {} — the check got \
         weaker on the more dishonest input:\n{}",
        without.len(),
        with.len(),
        render_all(&without)
    );
    assert!(
        without.iter().any(|f| f.rule == Rule::MissingCitation),
        "the deleted citation must itself be the new finding"
    );
}

// ---------------------------------------------------------------------------
// Check 2: grounding.

#[test]
fn seed_norms_are_grounded() {
    for seed in [
        "examples/revenue-recognition-timing.okf.md",
        "examples/lease-classification.okf.md",
    ] {
        let findings = check(seed, &read(seed)).expect("seed parses");
        let g = ground_findings(&findings);
        assert!(
            g.is_empty(),
            "expected 0 grounding findings in {seed}, got:\n{}",
            render(&g)
        );
    }
}

#[test]
fn ungrounded_fixture_trips_structural_rules() {
    let rel = "tests/fixtures/ungrounded.okf.md";
    let findings = check(rel, &read(rel)).expect("fixture parses");
    let g = ground_findings(&findings);

    assert_eq!(
        g.len(),
        3,
        "expected exactly 3 structural grounding findings, got:\n{}",
        render(&g)
    );
    let g1 = g.iter().find(|f| f.rule == Rule::MissingCitation).unwrap();
    let g2 = g.iter().find(|f| f.rule == Rule::InvalidSource).unwrap();
    assert!(g1.path.starts_with("norms[1]"), "GROUND-1 at {}", g1.path);
    assert!(g2.path.starts_with("norms[2]"), "GROUND-2 at {}", g2.path);
    assert!(g2.detail.contains("vibes"));

    let election = g
        .iter()
        .find(|f| f.path.starts_with("norms[3]"))
        .expect("GROUND-2 for the election grounded in the standard");
    assert_eq!(election.rule, Rule::InvalidSource);
    assert!(
        election.detail.contains("entity-election"),
        "{}",
        election.detail
    );
}

#[test]
fn dangling_anchor_trips_only_under_okf() {
    let rel = "tests/fixtures/ungrounded.okf.md";
    let src = read(rel);
    let okf = Okf::load(&manifest("tests/fixtures/okf"));
    assert_eq!(okf.len(), 1, "fixture bundle should declare one anchor");

    let bundle_findings = check_with_okf(rel, &src, &okf).expect("fixture parses");
    let anchors = ground_findings(&bundle_findings);
    assert_eq!(
        anchors.len(),
        1,
        "expected exactly one GROUND-3, got:\n{}",
        render(&anchors)
    );
    let f = anchors[0];
    assert_eq!(f.rule, Rule::DanglingAnchor);
    assert!(f.path.starts_with("norms[4]"), "GROUND-3 at {}", f.path);
    assert!(f.detail.contains("#does-not-exist"));
}

#[test]
fn judgment_input_is_grounded_by_source() {
    let ok = "\
---
norms:
  - id: n
    subject: thing
    antecedent:
      m:
        mechanical:
          test: \"thing.a / est >= threshold\"
          inputs: { est: { color: judgment, source: world-fact } }
    commitment: { flag: true }
---
# body
";
    assert!(
        ground_findings(&check("ok.okf.md", ok).unwrap()).is_empty(),
        "a judgment input with a valid source must not flag"
    );

    let bad = ok.replace("source: world-fact", "source: hunch");
    let g = check("bad.okf.md", &bad).unwrap();
    let g = ground_findings(&g);
    assert_eq!(
        g.len(),
        1,
        "a judgment input with a bad source must flag once"
    );
    assert_eq!(g[0].rule, Rule::InvalidSource);
}

// ---------------------------------------------------------------------------
// Check 3: coverage.

#[test]
fn seed_gap_is_flagged_as_expected() {
    let rel = "examples/revenue-recognition-timing.okf.md";
    let findings = check_with_okf(rel, &read(rel), &bundle()).expect("seed parses");
    let c = cover_findings(&findings);

    assert_eq!(
        c.len(),
        1,
        "expected exactly the known gap, got:\n{}",
        render(&c)
    );
    assert_eq!(c[0].rule, Rule::UncoveredState);
    assert_eq!(c[0].path, "norms[0]");
    assert!(
        c[0].detail.contains("not-yet-satisfied"),
        "the finding names the missing state: {}",
        c[0].detail
    );
}

#[test]
fn coverage_is_silent_without_a_bundle() {
    for seed in [
        "examples/revenue-recognition-timing.okf.md",
        "examples/lease-classification.okf.md",
    ] {
        let findings = check(seed, &read(seed)).expect("seed parses");
        assert!(
            cover_findings(&findings).is_empty(),
            "coverage must not run without a bundle ({seed})"
        );
    }
}

#[test]
fn uncovered_fixture_trips_both_rules() {
    let rel = "tests/fixtures/uncovered.okf.md";
    let findings = check_with_okf(rel, &read(rel), &bundle()).expect("fixture parses");
    let c = cover_findings(&findings);

    assert_eq!(
        c.len(),
        3,
        "expected 3 coverage findings, got:\n{}",
        render(&c)
    );

    let gap = c.iter().find(|f| f.rule == Rule::UncoveredState).unwrap();
    assert_eq!(gap.path, "norms[1]");
    assert!(gap.detail.contains('b'), "{}", gap.detail);

    let undeclared: Vec<_> = c
        .iter()
        .filter(|f| f.rule == Rule::UndeclaredStateClaimed)
        .collect();
    assert_eq!(undeclared.len(), 2);
    let z = undeclared
        .iter()
        .find(|f| f.path == "norms[2].cases[2].covers")
        .expect("COVER-2 located at the claiming branch");
    assert!(z.detail.contains("no state declared"), "{}", z.detail);

    let x = undeclared
        .iter()
        .find(|f| f.path == "norms[4].covers")
        .expect("COVER-2 for the undeclared subject");
    assert!(x.detail.contains("no state space"), "{}", x.detail);

    assert!(
        !c.iter()
            .any(|f| f.path.starts_with("norms[0]") || f.path.starts_with("norms[3]")),
        "a covering norm and a claimless norm must both stay silent:\n{}",
        render(&c)
    );
}

#[test]
fn bundle_state_declarations_are_grounded() {
    let okf = Okf::load(&manifest("tests/fixtures/okf-bad-states"));
    let findings = check_bundle(&okf);
    let rendered = render_all(&findings);

    assert_eq!(findings.len(), 4, "expected 4 findings, got:\n{rendered}");
    for (i, rule) in [
        (1, Rule::MissingCitation),
        (2, Rule::InvalidSource),
        (3, Rule::DanglingAnchor),
        (4, Rule::MalformedState),
    ] {
        let f = findings
            .iter()
            .find(|f| f.path == format!("subjects.thing.states[{i}]"))
            .unwrap_or_else(|| panic!("no finding at states[{i}] in:\n{rendered}"));
        assert_eq!(f.rule, rule, "at states[{i}]");
        assert!(
            f.file.ends_with("concepts.md"),
            "located in the bundle: {}",
            f.file
        );
    }

    assert!(
        !findings.iter().any(|f| f.path.ends_with("states[0]")),
        "the well-formed declaration must stay silent:\n{rendered}"
    );
}

#[test]
fn state_space_bundle_grounds_itself() {
    let findings = check_bundle(&bundle());
    assert!(
        findings.is_empty(),
        "the fixture bundle must ground its own claims, got:\n{}",
        render_all(&findings)
    );
}

// ---------------------------------------------------------------------------
// Check 4: conditional conflict.

#[test]
fn seed_defeat_edges_are_conflict_free() {
    for seed in [
        "examples/revenue-recognition-timing.okf.md",
        "examples/lease-classification.okf.md",
    ] {
        let findings = check(seed, &read(seed)).expect("seed parses");
        let c = conflict_findings(&findings);
        assert!(
            c.is_empty(),
            "expected 0 conflict findings in {seed}, got:\n{}",
            render(&c)
        );
    }
}

#[test]
fn conflicting_fixture_trips_each_rule_once() {
    let rel = "tests/fixtures/conflicting.okf.md";
    let findings = check(rel, &read(rel)).expect("fixture parses");
    let c = conflict_findings(&findings);

    assert_eq!(
        c.len(),
        3,
        "expected 3 conflict findings, got:\n{}",
        render(&c)
    );

    let c2 = c
        .iter()
        .find(|f| f.rule == Rule::UnderdeterminedConflict)
        .expect("CONFLICT-2");
    assert_eq!(c2.path, "norms[1].defeats");
    assert!(
        c2.detail.contains("underdetermined(highly-uncertain)"),
        "CONFLICT-2 reports the ungrounded predicate: {}",
        c2.detail
    );
    assert!(
        c2.detail.contains("`timing`") && c2.detail.contains("over-time"),
        "CONFLICT-2 locates the colliding field: {}",
        c2.detail
    );

    let c3 = c
        .iter()
        .find(|f| f.rule == Rule::DeterminateConflict)
        .expect("CONFLICT-3");
    assert_eq!(c3.path, "norms[2].defeats");
    assert!(c3.detail.contains("past-cutoff"), "{}", c3.detail);

    let c1 = c
        .iter()
        .find(|f| f.rule == Rule::DanglingDefeat)
        .expect("CONFLICT-1");
    assert_eq!(c1.path, "norms[3].defeats");
    assert!(c1.detail.contains("no-such-norm"), "{}", c1.detail);
}

#[test]
fn conflict_collides_against_a_middle_case() {
    let rel = "tests/fixtures/three-case.okf.md";
    let findings = check(rel, &read(rel)).expect("fixture parses");
    let c = conflict_findings(&findings);

    assert_eq!(
        c.len(),
        1,
        "expected 1 conflict finding, got:\n{}",
        render(&c)
    );
    assert_eq!(c[0].rule, Rule::UnderdeterminedConflict);
    assert_eq!(c[0].path, "norms[2].defeats");
    assert!(
        c[0].detail.contains("underdetermined(control-retained)")
            && c[0].detail.contains("point-in-time"),
        "collides on the middle case: {}",
        c[0].detail
    );
}

#[test]
fn claim_shapes_are_recognized_not_skipped() {
    let rel = "tests/fixtures/claim-shapes.okf.md";
    let findings = check(rel, &read(rel)).expect("fixture parses");
    let c = conflict_findings(&findings);
    let rendered = render(&c);

    let at = |path: &str, rule: Rule| {
        assert!(
            c.iter().any(|f| f.path == path && f.rule == rule),
            "expected {} at {path} in:\n{rendered}",
            rule.code()
        );
    };

    at("norms[1].defeats[0]", Rule::UnderdeterminedConflict);
    at("norms[1].defeats[1]", Rule::DanglingDefeat);
    at("norms[2].defeats", Rule::UncoloredPriority);
    assert!(
        !c.iter().any(|f| f.rule == Rule::DeterminateConflict),
        "an uncolored binds must never be reported as determinate:\n{rendered}"
    );
    assert_eq!(
        c.len(),
        3,
        "expected exactly 3 conflict findings:\n{rendered}"
    );
}

// ---------------------------------------------------------------------------
// Check 5: termination at the seam.

#[test]
fn seed_norms_terminate() {
    for seed in [
        "examples/revenue-recognition-timing.okf.md",
        "examples/lease-classification.okf.md",
    ] {
        let findings = check(seed, &read(seed)).expect("seed parses");
        let s = seam_findings(&findings);
        assert!(
            s.is_empty(),
            "expected 0 termination findings in {seed}, got:\n{}",
            render(&s)
        );
    }
}

#[test]
fn unterminated_fixture_trips_seam_rules() {
    let rel = "tests/fixtures/unterminated.okf.md";
    let findings = check(rel, &read(rel)).expect("fixture parses");
    let s = seam_findings(&findings);

    assert_eq!(
        s.len(),
        3,
        "expected 3 termination findings, got:\n{}",
        render(&s)
    );

    let seam1: Vec<_> = s.iter().filter(|f| f.rule == Rule::UnreachedSeam).collect();
    let seam2: Vec<_> = s
        .iter()
        .filter(|f| f.rule == Rule::EmptyCommitment)
        .collect();
    assert_eq!(seam1.len(), 1, "expected one SEAM-1");
    assert_eq!(seam2.len(), 2, "expected two SEAM-2");

    assert_eq!(seam1[0].path, "norms[0]");
    assert!(seam2.iter().any(|f| f.path == "norms[1].commitment"));
    assert!(seam2.iter().any(|f| f.path == "norms[2].otherwise"));
}

#[test]
fn cases_form_terminates_and_is_reached() {
    let rel = "tests/fixtures/three-case.okf.md";
    let findings = check(rel, &read(rel)).expect("fixture parses");
    let s = seam_findings(&findings);

    assert_eq!(
        s.len(),
        1,
        "expected 1 termination finding, got:\n{}",
        render(&s)
    );
    assert_eq!(s[0].rule, Rule::EmptyCommitment);
    assert_eq!(s[0].path, "norms[1].cases[1]");
}

// ---------------------------------------------------------------------------
// Check 6: regime hygiene.

#[test]
fn seed_norms_are_regime_coherent() {
    for seed in [
        "examples/revenue-recognition-timing.okf.md",
        "examples/lease-classification.okf.md",
    ] {
        let findings = check(seed, &read(seed)).expect("seed parses");
        let r = regime_findings(&findings);
        assert!(
            r.is_empty(),
            "expected 0 regime findings in {seed}, got:\n{}",
            render(&r)
        );
    }
}

#[test]
fn wrong_regime_fixture_trips_both_rules() {
    let rel = "tests/fixtures/wrong-regime.okf.md";
    let findings = check(rel, &read(rel)).expect("fixture parses");
    let r = regime_findings(&findings);

    assert_eq!(
        r.len(),
        2,
        "expected 2 regime findings, got:\n{}",
        render(&r)
    );

    let r2 = r
        .iter()
        .find(|f| f.rule == Rule::CrossRegimeArtifact)
        .unwrap();
    let r1 = r
        .iter()
        .find(|f| f.rule == Rule::UndeterminedRegime)
        .unwrap();
    assert!(r2.path.starts_with("norms[0]"), "REGIME-2 at {}", r2.path);
    assert!(r2.detail.contains("IFRS-16") && r2.detail.contains("ASC-840"));
    assert_eq!(r1.path, "norms[1]");
}

// ---------------------------------------------------------------------------
// Beyond the acceptance suite: exact values, edges, and the laws on examples.

#[test]
fn mixed_branch_forms_trip_seam3_once_per_norm() {
    let rel = "tests/fixtures/mixed-forms.okf.md";
    let findings = check(rel, &read(rel)).expect("fixture parses");
    let mixed: Vec<_> = findings
        .iter()
        .filter(|f| f.rule == Rule::MixedBranchForms)
        .collect();
    assert_eq!(mixed.len(), 3, "got:\n{}", render_all(&findings));
    assert_eq!(mixed[0].path, "norms[0]");
    assert!(mixed[0].detail.contains("(`antecedent`)"), "{}", mixed[0].detail);
    assert_eq!(mixed[1].path, "norms[1]");
    assert!(mixed[1].detail.contains("(`otherwise`)"), "{}", mixed[1].detail);
    assert_eq!(mixed[2].path, "norms[2]");
    assert!(mixed[2].detail.contains("(`commitment`)"), "{}", mixed[2].detail);
    assert!(seam_findings(&findings).is_empty());
}

#[test]
fn instrument_seed_reports_its_conflicts_as_underdetermined() {
    let rel = "examples/financial-instrument-classification.okf.md";
    let findings = check(rel, &read(rel)).expect("seed parses");
    assert_eq!(findings.len(), 2, "got:\n{}", render_all(&findings));
    assert!(findings.iter().all(|f| f.rule == Rule::UnderdeterminedConflict));
    assert_eq!(findings[0].path, "norms[1].defeats");
    assert!(findings[0].detail.starts_with("underdetermined(contingency-is-genuine) — "));
    assert!(findings[0].detail.contains("`classification` (`liability` vs `equity`)"));
    assert_eq!(findings[1].path, "norms[2].defeats");
    assert!(findings[1].detail.contains("`classification` (`equity` vs `liability`)"));
}

#[test]
fn a_finding_prints_as_one_located_line() {
    let rel = "tests/fixtures/unterminated.okf.md";
    let findings = check(rel, &read(rel)).expect("fixture parses");
    let seam1 = findings.iter().find(|f| f.rule == Rule::UnreachedSeam).unwrap();
    assert_eq!(
        seam1.to_string(),
        "tests/fixtures/unterminated.okf.md:norms[0]\tSEAM-1 (unreached seam): norm reaches no commitment about plain data — it has neither a `commitment` nor a `modifies`, so its obligation leads nowhere"
    );
}

#[test]
fn rule_codes_and_titles() {
    assert_eq!(Rule::JudgmentComputed.code(), "LEAK-1");
    assert_eq!(Rule::UncoloredCommitmentField.code(), "LEAK-4");
    assert_eq!(Rule::DanglingAnchor.code(), "GROUND-3");
    assert_eq!(Rule::UnreadableStateSpace.code(), "COVER-4");
    assert_eq!(Rule::UncoloredPriority.code(), "CONFLICT-4");
    assert_eq!(Rule::MixedBranchForms.code(), "SEAM-3");
    assert_eq!(Rule::CrossRegimeArtifact.code(), "REGIME-2");
    assert_eq!(Rule::DanglingAnchor.title(), "dangling anchor");
}

#[test]
fn missing_frontmatter_says_why() {
    assert_eq!(
        check("x.md", "# just prose\n").unwrap_err(),
        "no YAML frontmatter (`---` fences) found"
    );
    assert!(check("x.md", "---\nnorms: []\n").is_err(), "an unclosed fence is no frontmatter");
}

#[test]
fn unparseable_frontmatter_is_an_error() {
    let e = check("x.md", "---\nnorms: [unclosed\n---\n").unwrap_err();
    assert!(e.starts_with("YAML frontmatter parse error: "), "{e}");
    assert!(e.len() > "YAML frontmatter parse error: ".len());
}

#[test]
fn a_document_without_norms_is_clean() {
    assert!(check("x.md", "---\ntitle: nothing here\n---\n").unwrap().is_empty());
    assert!(check("x.md", "---\n---\n").unwrap().is_empty());
}

#[test]
fn read_document_prefixes_the_parser_message() {
    assert_eq!(
        read_document(Err("boom".to_string())),
        Err("YAML frontmatter parse error: boom".to_string())
    );
    assert_eq!(read_document(Ok(Yaml::Null)), Ok(Yaml::Null));
}

#[test]
fn the_yaml_wrapper_reads_the_value_tree() {
    let v = parse("---\na: 1\nb: [x, true]\nc: ~\n---\n").unwrap();
    assert_eq!(
        v,
        Yaml::Mapping(vec![
            (Yaml::Text("a".to_string()), Yaml::Number("1".to_string())),
            (
                Yaml::Text("b".to_string()),
                Yaml::Sequence(vec![Yaml::Text("x".to_string()), Yaml::Bool(true)])
            ),
            (Yaml::Text("c".to_string()), Yaml::Null),
        ])
    );
    assert!(parse("---\na: [1\n---\n").is_err());
    assert!(parse("---\na: 1\na: 2\n---\n").is_err(), "a repeated key is refused");
    assert_eq!(
        parse("---\n!Thing {k: -0.5}\n---\n").unwrap(),
        Yaml::Tagged(
            "!Thing".to_string(),
            Box::new(Yaml::Mapping(vec![(
                Yaml::Text("k".to_string()),
                Yaml::Number("-0.5".to_string())
            )]))
        )
    );
}

#[test]
fn anchors_resolve_with_or_without_hash() {
    let okf = Okf::load(&manifest("tests/fixtures/okf"));
    assert!(okf.resolves("real-anchor"));
    assert!(okf.resolves("#real-anchor"));
    assert!(okf.resolves("##real-anchor"));
    assert!(!okf.resolves("#does-not-exist"));
    assert!(!okf.is_empty());
}

#[test]
fn a_bundle_counts_its_anchors_and_subjects() {
    let okf = bundle();
    assert_eq!(okf.len(), 5);
    assert_eq!(okf.subjects(), 2);
    let empty = Okf::new();
    assert!(empty.is_empty());
    assert_eq!(empty.subjects(), 0);
}

#[test]
fn unreadable_state_spaces_are_cover4() {
    let okf = Okf::load(&manifest("tests/fixtures/okf-unreadable"));
    let findings = check_bundle(&okf);
    assert_eq!(findings.len(), 2, "got:\n{}", render_all(&findings));
    assert!(findings.iter().all(|f| f.rule == Rule::UnreadableStateSpace));
    assert!(findings
        .iter()
        .any(|f| f.path == "frontmatter" && f.file.ends_with("broken-frontmatter.md")));
    assert!(findings
        .iter()
        .any(|f| f.path == "subjects.widget.states" && f.detail.contains("`widget`")));
}

#[test]
fn check_anchors_reports_ground3_only() {
    let rel = "tests/fixtures/ungrounded.okf.md";
    let okf = Okf::load(&manifest("tests/fixtures/okf"));
    let findings = check_anchors(rel, &read(rel), &okf).unwrap();
    assert_eq!(findings.len(), 1, "got:\n{}", render_all(&findings));
    assert_eq!(findings[0].rule, Rule::DanglingAnchor);
    assert_eq!(
        findings[0].detail,
        "`grounds.ref` `#does-not-exist` does not resolve to an OKF anchor"
    );
}

#[test]
fn the_two_runs_never_report_the_same_finding() {
    let okf = bundle();
    for rel in [
        "examples/revenue-recognition-timing.okf.md",
        "examples/lease-classification.okf.md",
        "tests/fixtures/uncovered.okf.md",
        "tests/fixtures/ungrounded.okf.md",
        "tests/fixtures/claim-shapes.okf.md",
        "tests/fixtures/near-miss.okf.md",
    ] {
        let always = check(rel, &read(rel)).unwrap();
        let backed = check_with_okf(rel, &read(rel), &okf).unwrap();
        for f in &always {
            assert!(!backed.contains(f), "{rel}: reported twice: {}", f.to_string());
            assert!(!matches!(
                f.rule,
                Rule::DanglingAnchor
                    | Rule::UncoveredState
                    | Rule::UndeclaredStateClaimed
                    | Rule::MalformedState
                    | Rule::UnreadableStateSpace
            ));
        }
        for f in &backed {
            assert!(matches!(
                f.rule,
                Rule::DanglingAnchor | Rule::UncoveredState | Rule::UndeclaredStateClaimed
            ));
        }
    }
}

#[test]
fn a_claim_that_names_no_state_is_cover2() {
    let rel = "tests/fixtures/claim-shapes.okf.md";
    let findings = check_with_okf(rel, &read(rel), &bundle()).unwrap();
    let c = cover_findings(&findings);
    assert_eq!(c.len(), 3, "got:\n{}", render(&c));
    assert_eq!(c[0].rule, Rule::UndeclaredStateClaimed);
    assert_eq!(c[0].path, "norms[3].covers");
    assert!(c[0].detail.contains("names no state"), "{}", c[0].detail);
    // The unreadable claim still opts the norm in: it claims neither state.
    assert_eq!(c[1].rule, Rule::UncoveredState);
    assert!(c[1].detail.contains("`a`"), "{}", c[1].detail);
    assert_eq!(c[2].rule, Rule::UncoveredState);
    assert!(c[2].detail.contains("`b`"), "{}", c[2].detail);
}

#[test]
fn uncolored_priority_names_the_bare_predicate() {
    let rel = "tests/fixtures/claim-shapes.okf.md";
    let findings = check(rel, &read(rel)).unwrap();
    let f = findings
        .iter()
        .find(|f| f.rule == Rule::UncoloredPriority)
        .unwrap();
    assert_eq!(
        f.detail,
        "`uncolored-binds` defeats `base` on `timing` (`point-in-time` vs `over-time`), bound by `bare-predicate-name` which carries no color — priority is itself colored (DESIGN §3), and an uncolored predicate cannot be called decidable"
    );
}

#[test]
fn a_defeat_that_is_not_a_name_is_dangling() {
    let src = "---\nregime: TEST\nnorms:\n  - id: a\n    commitment: { x: 1 }\n  - id: b\n    defeats: { norm: a }\n    commitment: { x: 2 }\n---\n";
    let findings = check("d.okf.md", src).unwrap();
    let c = conflict_findings(&findings);
    assert_eq!(c.len(), 1, "got:\n{}", render(&c));
    assert_eq!(c[0].rule, Rule::DanglingDefeat);
    assert_eq!(c[0].path, "norms[1].defeats");
}

#[test]
fn a_modifies_key_collides_on_the_field_it_names() {
    let src = "---\nregime: TEST\nnorms:\n  - id: a\n    commitment: { amount: 1 }\n  - id: b\n    defeats: a\n    binds: { predicate: p, color: mechanical }\n    modifies: { commitment.amount: 2, note: prose }\n---\n";
    let findings = check("m.okf.md", src).unwrap();
    let c = conflict_findings(&findings);
    assert_eq!(c.len(), 1, "got:\n{}", render(&c));
    assert_eq!(c[0].rule, Rule::DeterminateConflict);
    assert!(c[0].detail.contains("`amount` (`2` vs `1`)"), "{}", c[0].detail);
}

#[test]
fn tokens_are_maximal_identifier_runs() {
    assert_eq!(
        tokenize("thing.ratio >= threshold and is-material"),
        vec![
            ("thing.ratio".to_string(), false),
            ("threshold".to_string(), false),
            ("and".to_string(), false),
            ("is-material".to_string(), false),
        ]
    );
    assert_eq!(
        tokenize("max (a - b, fair-value)"),
        vec![
            ("max".to_string(), true),
            ("a".to_string(), false),
            ("b".to_string(), false),
            ("fair-value".to_string(), false),
        ]
    );
    assert!(tokenize("  >= ( )").is_empty());
    assert_eq!(tokenize("fair-value"), vec![("fair-value".to_string(), false)]);
    assert_eq!(
        tokenize("a - b"),
        vec![("a".to_string(), false), ("b".to_string(), false)]
    );
    assert_eq!(
        tokenize("-x- -- ."),
        vec![("-x-".to_string(), false)],
        "a run is maximal; a run of `-` and `.` alone is no token"
    );
    assert_eq!(
        tokenize("a -b x--y"),
        vec![
            ("a".to_string(), false),
            ("-b".to_string(), false),
            ("x--y".to_string(), false),
        ]
    );
    assert_eq!(
        tokenize("x > -1"),
        vec![("x".to_string(), false), ("-1".to_string(), false)]
    );
}

#[test]
fn paths_count_past_nine() {
    let mut src = String::from("---\nregime: TEST\nnorms:\n");
    for i in 0..12 {
        src.push_str(&format!("  - id: n{i}\n    commitment: {{ x: 1 }}\n"));
    }
    src.push_str("  - id: last\n---\n");
    let findings = check("many.okf.md", &src).unwrap();
    assert_eq!(findings.len(), 1, "got:\n{}", render_all(&findings));
    assert_eq!(findings[0].path, "norms[12]");
    assert_eq!(findings[0].rule, Rule::UnreachedSeam);
}

#[test]
fn state_spaces_are_sorted_and_only_grow() {
    let first = "---\nsubjects:\n  thing:\n    states: [c, a]\n---\n# one {#x}\n".to_string();
    let second = "---\nsubjects:\n  thing:\n    states: [b, a]\n  other:\n    states: [z]\n---\n# two {#x}\n## three {#y}  \n".to_string();
    let okf = Okf::load(&vec![
        ("one.md".to_string(), first.clone()),
        ("two.md".to_string(), second.clone()),
    ]);
    assert_eq!(
        okf.states("thing"),
        Some(&vec!["a".to_string(), "b".to_string(), "c".to_string()])
    );
    assert_eq!(okf.states("other"), Some(&vec!["z".to_string()]));
    assert_eq!(okf.states("widget"), None);
    assert_eq!(okf.len(), 2, "each anchor counts once");
    assert_eq!(okf.subjects(), 2, "each subject counts once");
    assert_eq!(okf.declarations().len(), 5);

    let reversed = Okf::load(&vec![
        ("two.md".to_string(), second),
        ("one.md".to_string(), first),
    ]);
    assert_eq!(reversed.states("thing"), okf.states("thing"));
}

#[test]
fn only_a_trailing_anchor_is_declared() {
    assert_eq!(anchors_in("see {#a} here\n## B {#b}\n"), vec!["b".to_string()]);
    assert_eq!(
        anchors_in("# T {# spaced }\r\nx {#y} {#z}\n{#}\n{#w}}\nlast {#q}"),
        vec!["spaced".to_string(), "z".to_string(), "q".to_string()]
    );
    let okf = Okf::load(&vec![("c.md".to_string(), "see {#a} here\n## B {#b}\n".to_string())]);
    assert!(okf.resolves("#b"));
    assert!(!okf.resolves("#a"));
}

#[test]
fn numbers_collide_by_value() {
    let src = |a: &str, b: &str| {
        format!(
            "---\nregime: TEST\nnorms:\n  - id: a\n    commitment: {{ x: {a} }}\n  - id: b\n    defeats: a\n    binds: {{ predicate: p, color: mechanical }}\n    commitment: {{ x: {b} }}\n---\n"
        )
    };
    let conflicts = |a: &str, b: &str| {
        let findings = check("n.okf.md", &src(a, b)).unwrap();
        conflict_findings(&findings).len()
    };
    assert_eq!(conflicts("0.0", "-0.0"), 0, "0.0 and -0.0 are one value");
    assert_eq!(conflicts("1.50", "1.5"), 0);
    assert_eq!(conflicts("1", "1.0"), 1, "an integer is not a float");
    assert_eq!(conflicts("2", "3"), 1);
}

#[test]
fn the_label_reaches_only_the_file_field() {
    for rel in [
        "tests/fixtures/leaky.okf.md",
        "tests/fixtures/conflicting.okf.md",
        "tests/fixtures/unterminated.okf.md",
        "tests/fixtures/wrong-regime.okf.md",
        "tests/fixtures/ungrounded.okf.md",
    ] {
        let a = check(rel, &read(rel)).unwrap();
        let b = check("elsewhere.md", &read(rel)).unwrap();
        assert!(!a.is_empty());
        assert_eq!(a.len(), b.len());
        for (x, y) in a.iter().zip(b.iter()) {
            assert_eq!(x.file, rel);
            assert_eq!(y.file, "elsewhere.md");
            assert_eq!((&x.path, x.rule, &x.detail), (&y.path, y.rule, &y.detail));
        }
    }
}

#[test]
fn more_anchors_never_add_a_dangling_finding() {
    let rel = "tests/fixtures/ungrounded.okf.md";
    let none = check_anchors(rel, &read(rel), &Okf::default()).unwrap();
    let one = check_anchors(rel, &read(rel), &Okf::load(&manifest("tests/fixtures/okf"))).unwrap();
    // Criteria with a ref and a valid source type: norms[0], norms[3], norms[4].
    assert_eq!(none.len(), 3, "got:\n{}", render_all(&none));
    assert_eq!(one.len(), 1);
    assert!(none.contains(&one[0]));
    assert!(none.iter().all(|f| f.rule == Rule::DanglingAnchor));
}

#[test]
fn deleting_a_compared_citation_can_settle_a_conflict() {
    // The citation law holds at the node; a citation inside a commitment that
    // two defeat edges compare is the one place deleting it makes the whole
    // output shorter: the two collisions vanish, one GROUND-1 appears.
    let cited = "---
regime: TEST
norms:
  - id: a
    commitment:
      point:
        judgment-aggregation:
          factors: [x]
          grounds: { ref: \"#w\", source: standard-criterion }
  - id: b
    defeats: a
    binds: { predicate: p, color: mechanical }
    commitment:
      point:
        judgment-aggregation:
          factors: [x]
  - id: c
    defeats: a
    binds: { predicate: q, color: mechanical }
    commitment:
      point:
        judgment-aggregation:
          factors: [x]
---
";
    let uncited = cited
        .lines()
        .filter(|l| !l.trim_start().starts_with("grounds:"))
        .collect::<Vec<_>>()
        .join("\n");
    let with = check("c.okf.md", cited).unwrap();
    let without = check("u.okf.md", &uncited).unwrap();
    assert_eq!(with.len(), 4, "got:\n{}", render_all(&with));
    assert_eq!(conflict_findings(&with).len(), 2);
    assert_eq!(without.len(), 3, "got:\n{}", render_all(&without));
    assert!(conflict_findings(&without).is_empty());
    assert!(without
        .iter()
        .any(|f| f.rule == Rule::MissingCitation && f.path == "norms[0].commitment.point.judgment-aggregation"));
}

/// The revenue seed with its commitment `method` left uncolored and its
/// branches claiming no state.
const REVENUE_UNCOLORED: &str = r###"---
concept: revenue-recognition-timing
title: Revenue recognition — timing (when control transfers)
regime: IFRS-15
sources:
  - IFRS 15.31–38  # satisfaction of performance obligations
  - IFRS 15.39–45  # measuring progress
  - IFRS 15.56–58  # constraining variable consideration
  - IAS 8          # errors vs changes in estimate
norms:
  - id: rev-rec-timing
    subject: performance-obligation
    deontic: obligation
    antecedent:                        # mechanical any-of over judgment atoms
      over-time:
        any-of:
          - { predicate: simultaneous-receipt-consumption, color: judgment,
              grounds: { ref: "#ifrs15-35a", source: standard-criterion } }
          - { predicate: customer-controlled-asset, color: judgment,
              grounds: { ref: "#ifrs15-35b", source: standard-criterion } }
          - { predicate: no-alt-use-and-enforceable-payment, color: judgment,
              grounds: { ref: "#ifrs15-35c", source: legal-fact } }
    commitment:
      timing: over-time
      measure: { color: judgment, grounds: { ref: "#ifrs15-39", source: standard-criterion } }
      note: arithmetic (measure → per-period amounts) is downstream Lean
    otherwise:                         # residual branch
      commitment:
        timing: point-in-time
        point:
          judgment-aggregation:        # weighed indicators, NO combination rule
            factors: [right-to-payment, legal-title, possession, risks-rewards, acceptance]
            grounds: { ref: "#ifrs15-38", source: standard-criterion }

  - id: var-consideration-constraint
    concept-ref: variable-consideration
    defeats: rev-rec-timing            # priority is itself a colored-judgment hole
    binds: { predicate: highly-probable-no-reversal, color: judgment,
             grounds: { ref: "#ifrs15-56", source: standard-criterion } }
    modifies: { commitment.amount: cap-to-no-significant-reversal }

  - id: rev-rec-restatement            # contrary-to-duty
    deontic: obligation
    antecedent:
      all-of:
        - { predicate: violated, norm: rev-rec-timing, color: judgment,
            grounds: { ref: "#ias8-error-vs-estimate", source: standard-criterion } }
        - { predicate: material, color: judgment,
            grounds: { ref: "materiality", source: standard-criterion } }
    commitment: { adjustment: prior-period, method: retrospective }

coverage-note: >
  "Performance obligation not yet satisfied → recognize nothing" is a third state
  not represented above; the checker flags it as a coverage gap (spike 1, F5).
---

# Revenue recognition — timing

The cited judgment prose lives here, beside the norm block, as an OKF concept.
This stub is a placeholder for that prose; in a real OKF bundle it would carry the
full reasoning and citations that the `grounds:` refs above point into
(`#ifrs15-35a`, `#ifrs15-38`, …). This seed passes the always-on checks clean —
leak detection (check 1) and structural grounding (check 2, GROUND-1/2): every
criterion is cited and typed. Only anchor _resolution_ (GROUND-3, under `--okf`)
is expected to flag, because that OKF bundle does not exist yet, so the refs
dangle until it lands.

This file demonstrates the deon convention: **the formal norm is frontmatter; the
authoritative judgment is the prose beneath it.** If they ever disagree, the prose
wins and the norm is the bug.
"###;

/// The lease seed with `payments` undeclared and its election naming no
/// subject.
const LEASE_UNDECLARED: &str = r###"---
concept: lease-classification
title: Lease classification — finance vs operating (lessee)
regime: ASC-840
sources:
  - ASC 840        # bright-line classification (superseded)
  - IAS 17         # substantially-all risks and rewards (superseded)
  - IFRS 16        # lessee capitalizes all leases
norms:
  - id: lease-classification
    subject: lease
    deontic: obligation
    antecedent:
      is-finance-lease:                # mechanical any-of over mixed atoms
        any-of:
          - { predicate: ownership-transfers, color: mechanical,
              test: lease.transfers-ownership }
          - { predicate: purchase-option-certain, color: judgment,
              grounds: { ref: "#option", source: standard-criterion } }
          - term-major-part:
              mechanical:
                test: "lease.term / economic-life >= threshold"
                threshold: { value: 0.75, regime: ASC-840, color: mechanical }
                inputs: { economic-life: { color: judgment, source: world-fact } }
          - pv-substantially-all:
              mechanical:
                test: "pv(payments, rate) / fair-value >= threshold"
                threshold: { value: 0.90, regime: ASC-840, color: mechanical }
                inputs:
                  fair-value: { color: judgment, source: world-fact }
                  rate:       { color: judgment, source: world-fact }
          - { predicate: specialized-no-alt-use, color: judgment,
              grounds: { ref: "#specialized", source: standard-criterion } }
    commitment: { classification: finance }
    otherwise:
      commitment: { classification: operating }
    note: measurement (ROU asset + lease liability) is downstream Lean

  - id: short-term-low-value-election  # an election defeats the default
    regime: IFRS-16
    deontic: permission
    defeats: lease-classification
    antecedent:
      all-of:
        - { predicate: short-term, color: mechanical,
            test: "lease.term <= threshold",
            threshold: { value: "12mo", regime: IFRS-16, color: mechanical } }
        - { predicate: low-value, color: judgment,
            grounds: { ref: "#low-value", source: entity-election } }
    commitment: { capitalize: false }

regime-note: >
  Under IFRS-16 the lessee classification norm above does not exist — all lessee
  leases capitalize. A norm's existence is regime-relative (spike 2, N1).
---

# Lease classification (lessee)

The cited judgment prose lives here, beside the norm block. This stub stands in
for the OKF concept that the `grounds:` refs point into (`#option`,
`#specialized`, `#low-value`). Because that OKF bundle does not exist yet, those
anchors are dangling, so the grounding-completeness check (DESIGN §4, check 2) is
_expected_ to flag every hole here until the bundle lands — the leak-detection
check (check 1) is the one this seed is authored to pass clean.

Note the two regime-scoped thresholds (`0.75 @ASC-840`, `0.90 @ASC-840`,
`12mo @IFRS-16`): each is a **colored artifact**, not an inert number — the
mechanization of a judgment that a different regime leaves open ("major part",
"substantially all").
"###;

/// The leak rules as documented: a commitment `method` must say its color
/// (IAS 8's retrospective restatement included), a bare name must be a
/// declared input, and a dotted name must be rooted in the norm's subject.
/// The seed texts above break each once; the seeds the suite runs state them.
#[test]
fn the_leak_rules_hold_seeds_to_their_documentation() {
    let rev = check("rev.okf.md", REVENUE_UNCOLORED).unwrap();
    assert_eq!(rev.len(), 1, "got:\n{}", render_all(&rev));
    assert_eq!(rev[0].rule, Rule::UncoloredCommitmentField);
    assert_eq!(rev[0].path, "norms[2].commitment.method");

    let lease = check("lease.okf.md", LEASE_UNDECLARED).unwrap();
    assert_eq!(lease.len(), 2, "got:\n{}", render_all(&lease));
    assert!(lease.iter().all(|f| f.rule == Rule::UndeclaredInput));
    assert!(lease[0].detail.contains("`payments`"));
    assert!(lease[1].detail.contains("`lease.term`"));
}

#[test]
fn a_signed_literal_is_a_name_the_test_must_declare() {
    let src = "---\nregime: TEST\nnorms:\n  - id: n\n    subject: thing\n    antecedent:\n      all-of:\n        - { predicate: p, color: mechanical, test: \"thing.a > -1 and thing.b - thing.c > 0\" }\n    commitment: { flag: true }\n---\n";
    let findings = check("s.okf.md", src).unwrap();
    assert_eq!(findings.len(), 1, "got:\n{}", render_all(&findings));
    assert_eq!(findings[0].rule, Rule::UndeclaredInput);
    assert!(findings[0].detail.contains("`-1`"), "{}", findings[0].detail);
}
