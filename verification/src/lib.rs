//! Ordered compilation of interdependent build units.
//!
//! A build unit is a directory holding a marker subdirectory with two
//! descriptor files: one naming the unit's target (a library or an
//! executable), one listing the libraries it links against.  This crate
//! discovers units in a modelled directory tree, parses their descriptors,
//! assembles the dependency graph, schedules the units so that every
//! dependency is built before its dependents, and resolves misspelled
//! target names by edit distance.

pub mod descriptor;
pub mod graph;
pub mod paths;
pub mod plan;
pub mod resolve;
pub mod schedule;
pub mod text;

use vstd::prelude::*;

verus! {

/// What a build unit produces, as declared in its target descriptor.
#[derive(Clone, Copy, PartialEq, Eq, Structural, Debug)]
pub enum TargetKind {
    Library,
    Executable,
}

impl TargetKind {
    /// A short label for diagnostics.
    pub fn label(&self) -> (r: &'static str)
        ensures
            (*self == TargetKind::Library) ==> r@ == "LIB"@,
            (*self == TargetKind::Executable) ==> r@ == "EXE"@,
    {
        match self {
            TargetKind::Library => "LIB",
            TargetKind::Executable => "EXE",
        }
    }
}

} // verus!
