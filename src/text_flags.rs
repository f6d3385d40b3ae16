//! Scheduling flags of a text node.
use vstd::prelude::*;

verus! {

/// Marks a text node for work: a new measure function, a recomputed layout,
/// or both.
#[derive(Clone, Copy, Debug, PartialEq, Eq, Structural)]
pub struct TextFlags {
    /// A new measure function for the node is to be made.
    pub needs_new_measure_func: bool,
    /// The text of the node is to be laid out again.
    pub needs_recompute: bool,
}

impl Default for TextFlags {
    /// A new node needs both.
    fn default() -> (r: TextFlags)
        ensures
            r.needs_new_measure_func,
            r.needs_recompute,
    {
        TextFlags { needs_new_measure_func: true, needs_recompute: true }
    }
}

} // verus!
