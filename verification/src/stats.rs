//! The sizes of a pattern index.

use vstd::prelude::*;
use crate::graph::CrosswordGraph;
use crate::text_map::{clipped, links};

verus! {

/// How much a pattern index holds.
#[derive(Clone, Copy, Debug, PartialEq, Eq)]
pub struct GraphStats {
    /// The placeable words.
    pub total_words: usize,
    /// The real patterns.
    pub real_intermediaries: usize,
    /// The patterns that have a word.
    pub graph_connections: usize,
    /// The pairs of a pattern and a word connected to it.
    pub total_connections: usize,
    /// The liners.
    pub total_liners: usize,
    /// The pairs of a liner and a pattern that it embeds.
    pub total_liner_intermediaries: usize,
}

impl CrosswordGraph {
    /// Counts what the index holds. The two counts of pairs stop at
    /// `usize::MAX`.
    pub fn get_stats(&self) -> (stats: GraphStats)
        requires
            self.wf(),
        ensures
            stats.total_words == self@.words.len(),
            stats.real_intermediaries == self@.patterns.len(),
            stats.graph_connections == self@.pattern_words.dom().len(),
            stats.total_connections == clipped(links(self@.pattern_words).len()),
            stats.total_liners == self@.liners.len(),
            stats.total_liner_intermediaries == clipped(links(self@.liner_patterns).len()),
    {
        proof {
            self.words.lemma_len();
            self.real_intermediaries.lemma_len();
            self.liners.lemma_len();
        }
        GraphStats {
            total_words: self.words.len(),
            real_intermediaries: self.real_intermediaries.len(),
            graph_connections: self.intermediary_to_words.len(),
            total_connections: self.intermediary_to_words.link_count(),
            total_liners: self.liners.len(),
            total_liner_intermediaries: self.liner_to_intermediaries.link_count(),
        }
    }
}

} // verus!
