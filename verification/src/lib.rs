//! seqsafe: a policy-based sanitizer for untrusted terminal output.
//!
//! The pipeline is: [`parser`] tokenizes a byte stream into escape sequences
//! and text runs, [`classify`] assigns each token a semantic class and a
//! severity, [`policy`] decides which classes survive, and [`sanitize`] wires
//! the three together into a streaming filter that emits clean bytes plus a
//! list of findings. [`report`] renders findings for humans and machines, and
//! [`cli`] turns command lines into plans.
//!
//! The `*_model` modules hold the mathematical models that the contracts speak
//! of, and the `*_laws` modules prove what holds of the library as a whole.

pub mod bytes;
pub mod classify;
pub mod classify_laws;
pub mod classify_model;
pub mod cli;
pub mod cli_laws;
pub mod cli_model;
pub mod command_laws;
pub mod finding_laws;
pub mod introducer_laws;
pub mod keeping_laws;
pub mod layout_laws;
pub mod link_laws;
pub mod parser;
pub mod parser_laws;
pub mod parser_model;
pub mod passing_laws;
pub mod policy;
pub mod policy_laws;
pub mod policy_model;
pub mod rendering_laws;
pub mod report;
pub mod report_laws;
pub mod report_model;
pub mod rescan_laws;
pub mod sanitize;
pub mod sanitize_laws;
pub mod sanitize_model;
pub mod spelling_laws;
pub mod text;
pub mod token_laws;
pub mod utf8;
pub mod utf8_laws;
pub mod utf8_model;
pub mod verdict_laws;
pub mod whitespace_laws;

use vstd::prelude::*;

verus! {

/// Package version, single source of truth for `--version` and reports.
pub const VERSION: &'static str = "0.1.0";

} // verus!
