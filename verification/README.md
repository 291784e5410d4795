# deon_check

Static checks over deon's OKF-frontmatter norm schema, verified with Verus.

A norm file is markdown whose YAML frontmatter holds `norms:`. The checker reads
that frontmatter into a value tree and reports located findings; nothing in a
norm is ever evaluated. Six checks run: leak detection (LEAK-1..4), grounding
(GROUND-1..3), coverage (COVER-1..4, against a concept bundle), conditional
conflict (CONFLICT-1..4), termination at the seam (SEAM-1..3) and regime
hygiene (REGIME-1..2).

Layout:

- `src/` — the library. Each check states what it reports as a spec function
  over the value tree, and its executable code is proved to report exactly
  that. YAML itself is parsed by `serde_yaml`, behind one trusted wrapper
  (`yaml::parse_yaml`) whose result is named, not restated.
- `src/laws.rs`, and the `lemma_*` proof functions beside each check — what
  the checks promise together: a bundle stays well formed as files are read,
  coverage is silent exactly on a partition, priority is decided by the color
  of `binds`, a clean run means every judgment hole is cited, the always-on
  and bundle-backed runs never report the same finding, the file label
  reaches only the findings' `file`, more anchors never add a GROUND-3
  finding, no line of a concept's frontmatter is a fence, and deleting an
  aggregation's citation keeps its LEAK-3 and adds GROUND-1 at its path.
- A state space is kept as a sorted `Vec<String>`: vstd's `BTreeSet` and
  `BTreeMap` specifications hold only for key types it proves ordered, and
  `String` is not among them.
- `tests/` — the acceptance suite over the seed norms and fixtures (embedded),
  and further cases.
- `app/` — the `deon-check` command line: arguments, reading files and
  directories, printing, exit codes.
