pub mod filetree;
pub mod processing;
pub mod ui;

use vstd::prelude::*;

verus! {

/// The set of listing options the tree builder, sorter and renderer obey.
pub struct Args {
    /// Include entries whose name starts with `.`.
    pub all: bool,
    /// Descend into subdirectories; enables per-directory headers.
    pub recursive: bool,
    /// Detailed multi-column listing.
    pub long: bool,
    /// Prefix each long-mode line with a block-derived size.
    pub size: bool,
    /// Unit-scaled (K/M/G/T) size strings.
    pub human_readable: bool,
    /// One entry per output line even in compact mode.
    pub one_file_per_line: bool,
}

} // verus!
