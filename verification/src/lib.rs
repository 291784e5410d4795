//! deon's static checks over the OKF-frontmatter norm schema.
//!
//! The checker is representational: it reads a norm file's YAML frontmatter
//! into a value tree, walks that tree, and reports located findings. Nothing in
//! a norm is ever evaluated.
//!
//! - [`yaml`] — the value tree a frontmatter block is read into;
//! - [`text`] — the character-level pieces: fences, trimming, decimals, paths;
//! - [`rule`] — every rule the checker reports, and the finding it reports;
//! - [`expr`] — the names a `test` expression computes with;
//! - [`norm`] — what several checks read of a norm in the same way;
//! - [`leak`], [`ground`], [`cover`], [`conflict`], [`seam`], [`regime`] —
//!   one module per check;
//! - [`okf`] — what the checker needs from a concept bundle;
//! - [`checks`] — the entry points that run the checks over a source text;
//! - [`concept`] — an OKF concept document: frontmatter and body;
//! - [`laws`] — what the checks promise together.

pub mod yaml;
pub mod text;
pub mod rule;
pub mod expr;
pub mod norm;
pub mod leak;
pub mod okf;
pub mod ground;
pub mod seam;
pub mod regime;
pub mod cover;
pub mod conflict;
pub mod checks;
pub mod concept;
pub mod laws;

pub use yaml::Yaml;
pub use rule::{Finding, Rule};
pub use okf::Okf;
pub use checks::{check, check_anchors, check_bundle, check_with_okf};
pub use concept::{Body, Concept, ConceptError, Frontmatter};
