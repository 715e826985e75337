//! The checks that guard a register of material parameters: the canonical
//! form its records are stored in, the rules the tree holds, and the report a
//! run of them writes.

use vstd::prelude::*;

pub mod text;
pub mod unicode;
pub mod json;
pub mod scan;
pub mod form;
pub mod tree;
pub mod paths;
pub mod canonical;
pub mod report;
pub mod parts;
pub mod endings;
pub mod guards;
pub mod headless;
pub mod invariants;
pub mod surface;
pub mod findings;
pub mod workspace;
pub mod provenance;
pub mod neighbours;
pub mod sorting;
pub mod fixed_point;

verus! {

/// What a run of the checks is worth to a caller.
///
/// A script can act only on what it can tell apart, so the set is small and
/// each value means one thing.
#[derive(Debug, Clone, Copy, PartialEq, Eq, Structural)]
pub enum Exit {
    /// Every part that had something to run ran, and none of them refused.
    Clean,
    /// A part refused. The tree is wrong and the run says which part and why.
    Refused,
    /// The run could not judge. It could not find the workspace, could not
    /// start a part, or could not write its own report.
    CouldNotJudge,
}

/// The process exit code a verdict stands for.
pub open spec fn exit_code(verdict: Exit) -> u8 {
    match verdict {
        Exit::Clean => 0,
        Exit::Refused => 1,
        Exit::CouldNotJudge => 2,
    }
}

impl Exit {
    /// The process exit code for this verdict.
    pub fn code(self) -> (code: u8)
        ensures
            code == exit_code(self),
    {
        match self {
            Exit::Clean => 0,
            Exit::Refused => 1,
            Exit::CouldNotJudge => 2,
        }
    }
}

} // verus!
