//! Settings that the layout depends on.

use vstd::prelude::*;

verus! {

/// How indentation is measured.
#[derive(Debug, Clone, Copy, PartialEq, Eq, Structural)]
pub struct IndentConfig {
    /// Columns from one tab stop to the next.
    pub tab_width: usize,
}

impl IndentConfig {
    /// Tab stops lie apart.
    pub open spec fn wf(self) -> bool {
        self.tab_width > 0
    }
}

impl Default for IndentConfig {
    fn default() -> (r: IndentConfig)
        ensures
            r.tab_width == 8,
    {
        IndentConfig { tab_width: 8 }
    }
}

} // verus!
