//! Values that local resource managers report to the global scheduler.

use vstd::prelude::*;

verus! {

/// A snapshot that a node's local resource manager pushes upward: how many
/// warm VMs it keeps per function image, and its memory.
#[derive(Debug)]
pub struct ResourceInfo {
    pub stats: Vec<(String, usize)>,
    pub total_mem: usize,
    pub free_mem: usize,
}

impl ResourceInfo {
    /// The reported counts, with each image name as a character sequence.
    pub open spec fn stats_view(&self) -> Seq<(Seq<char>, usize)> {
        self.stats@.map_values(|e: (String, usize)| (e.0@, e.1))
    }
}

} // verus!
