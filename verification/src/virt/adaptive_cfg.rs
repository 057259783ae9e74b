//! Configuration of the adaptive split.

use vstd::prelude::*;

verus! {

/// Which regions are split off, and when it pays.
#[derive(Clone, Copy, PartialEq, Eq, Debug, Structural)]
pub struct AdaptiveSplitConfig {
    /// Nothing is split off unless this is set.
    pub enabled: bool,
    /// Share statement sequences across blocks.
    pub cross_block: bool,
    pub min_sequence_len: usize,
    pub min_reuse_count: usize,
    /// Fold repetitions within a block.
    pub loop_reroll: bool,
    pub min_reroll_iterations: usize,
    pub min_reroll_body_len: usize,
    /// How many statements a region has to save.
    pub sub_interp_entry_cost: usize,
    pub max_appended_regions: usize,
    /// Take loops from termination hints before searching for repetitions.
    pub prefer_reentry_hints: bool,
}

impl Default for AdaptiveSplitConfig {
    fn default() -> (r: Self)
        ensures
            r == (AdaptiveSplitConfig {
                enabled: false,
                cross_block: true,
                min_sequence_len: 4,
                min_reuse_count: 2,
                loop_reroll: true,
                min_reroll_iterations: 3,
                min_reroll_body_len: 2,
                sub_interp_entry_cost: 4,
                max_appended_regions: 64,
                prefer_reentry_hints: true,
            }),
    {
        AdaptiveSplitConfig {
            enabled: false,
            cross_block: true,
            min_sequence_len: 4,
            min_reuse_count: 2,
            loop_reroll: true,
            min_reroll_iterations: 3,
            min_reroll_body_len: 2,
            sub_interp_entry_cost: 4,
            max_appended_regions: 64,
            prefer_reentry_hints: true,
        }
    }
}

impl AdaptiveSplitConfig {
    /// Whether anything may be split off.
    pub fn enabled(cfg: &Self) -> (r: bool)
        ensures
            r == cfg.enabled,
    {
        cfg.enabled
    }
}

} // verus!
