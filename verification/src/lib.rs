//! zhhz — a self-contained Simplified/Traditional Chinese converter.
//!
//! The library holds the conversion engine (forward-maximum-matching
//! segmentation over dictionary tries, followed by an ordered chain of
//! longest-prefix conversion stages), the config and region tables, the
//! script-variant detector and the command-line argument parser, each with a
//! contract proved by Verus.

pub mod cli;
pub mod config;
pub mod custom;
pub mod derive;
pub mod detect;
pub mod dict;
pub mod dict_marisa;
pub mod engine;
pub mod inputs;
pub mod lines;
pub mod ngram;
pub mod text;

use vstd::prelude::*;

verus! {

/// The default conversion config used when `--config` is omitted.
pub const DEFAULT_CONFIG: &'static str = "s2t";

} // verus!
