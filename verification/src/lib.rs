//! Phonological and morphological rules, affix templates, strata, and cascades.
//!
//! Rule data lives in flat per-grammar tables indexed by small integer identifiers; the modules
//! here hold the verified pieces of the engine that work on plain values: the rule cascades, the
//! step budget and analysis policies of a stratum run, the statistics collector, the trace tree,
//! and the diagnostic recorders.
use vstd::prelude::*;

pub mod alt_delta;
pub mod bridge;
pub mod cascade;
pub mod clock;
pub mod clock_sample;
pub mod fxmap;
pub mod memo_value;
pub mod metathesis;
pub mod morph;
pub mod rewrite;
pub mod stats;
pub mod stats_calibrate;
pub mod stratum;
pub mod trace;

verus! {

/// Flat index of a rule in the grammar's rule tables.
#[derive(Copy, Clone, PartialEq, Eq, Hash, Debug, PartialOrd, Ord, Structural)]
pub struct RuleId(pub u32);

/// Dense identifier of a stratum.
#[derive(Copy, Clone, PartialEq, Eq, Hash, Debug, PartialOrd, Ord, Structural)]
pub struct StratumId(pub u8);

/// Dense identifier of a morphological rule.
#[derive(Copy, Clone, PartialEq, Eq, Hash, Debug, PartialOrd, Ord, Structural)]
pub struct MRuleId(pub u32);

/// Dense identifier of a phonological rule.
#[derive(Copy, Clone, PartialEq, Eq, Hash, Debug, PartialOrd, Ord, Structural)]
pub struct PRuleId(pub u32);

/// Dense identifier of an affix template.
#[derive(Copy, Clone, PartialEq, Eq, Hash, Debug, PartialOrd, Ord, Structural)]
pub struct TemplateId(pub u32);

/// Dense identifier of a lexical entry.
#[derive(Copy, Clone, PartialEq, Eq, Hash, Debug, PartialOrd, Ord, Structural)]
pub struct LexEntryId(pub u32);

} // verus!
