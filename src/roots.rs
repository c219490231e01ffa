//! What a run does with each input root before scanning it.

use vstd::prelude::*;

verus! {

/// The state of an input root before its scan.
#[derive(PartialEq, Eq, Structural, Clone, Copy, Debug)]
pub enum RootCheck {
    /// The path does not exist: an error for this root.
    Missing,
    /// The path is not a directory: an error for this root.
    NotDirectory,
    /// The output file exists already: the root is skipped, without error.
    OutputExists,
    /// The root is scanned.
    Ready,
}

impl RootCheck {
    /// Whether this root makes the run fail.
    pub fn is_failure(&self) -> (r: bool)
        ensures
            r == (*self == RootCheck::Missing || *self == RootCheck::NotDirectory),
    {
        match self {
            RootCheck::Missing => true,
            RootCheck::NotDirectory => true,
            _ => false,
        }
    }
}

/// Decides what to do with a root: a missing path and a path that is not a
/// directory are errors; where the output file exists already the root is
/// skipped, so that no earlier output is overwritten or read back in.
pub fn check_root(exists: bool, is_dir: bool, output_exists: bool) -> (r: RootCheck)
    ensures
        !exists ==> r == RootCheck::Missing,
        exists && !is_dir ==> r == RootCheck::NotDirectory,
        exists && is_dir && output_exists ==> r == RootCheck::OutputExists,
        exists && is_dir && !output_exists ==> r == RootCheck::Ready,
{
    if !exists {
        RootCheck::Missing
    } else if !is_dir {
        RootCheck::NotDirectory
    } else if output_exists {
        RootCheck::OutputExists
    } else {
        RootCheck::Ready
    }
}

} // verus!
