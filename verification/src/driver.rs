//! One file's conversion from graph to text, and the account of a whole run.
//!
//! A file that fails does not stop the run: its failure is counted and the run
//! goes on. Only what keeps the run from starting at all is fatal.

use crate::assets::{same_members, strictly_ascending, texts};
use crate::document::{convert, degenerate_upto, SceneDocument};
use crate::hierarchy::{forest_of, rejected, well_structured, StructureError};
use crate::record::forest_size;
use crate::scene::{traversal_of, SceneGraph};
use crate::serialize::{document_text, forest_finite, serialize, SerializationError};
use vstd::prelude::*;

verus! {

/// Why one file could not be converted.
#[derive(Clone, Copy, Debug, PartialEq, Eq, Structural)]
pub enum FileError {
    /// The source file is missing, unreadable, or not a valid scene.
    Load,
    /// The nodes of the scene do not form a forest.
    Structure(StructureError),
    /// The document cannot be written as text.
    Serialization(SerializationError),
    /// The destination could not be created or written.
    Io,
}

/// What converting one scene yields.
#[derive(Debug)]
pub struct Converted {
    pub document: SceneDocument,
    /// The text of the document.
    pub text: Vec<u8>,
    /// The indices of the nodes with a scale of zero along some axis.
    pub degenerate: Vec<usize>,
}

/// How a run ended.
#[derive(Clone, Copy, Debug, PartialEq, Eq, Structural)]
pub enum RunStatus {
    /// Every file that was found was converted.
    AllConverted,
    /// At least one file failed; the others were converted.
    SomeFailed,
    /// The run could not start.
    Fatal,
}

/// The count of the files converted and failed so far. A count that has
/// reached the largest machine integer stays there.
#[derive(Clone, Copy, Debug, PartialEq, Eq, Structural)]
pub struct RunSummary {
    pub converted: u64,
    pub failed: u64,
}

/// One more, up to the largest machine integer.
pub open spec fn one_more(count: u64) -> u64 {
    if count < u64::MAX {
        (count + 1) as u64
    } else {
        count
    }
}

impl RunSummary {
    /// The status of a run with these counts.
    pub open spec fn outcome(self) -> RunStatus {
        if self.failed == 0 {
            RunStatus::AllConverted
        } else {
            RunStatus::SomeFailed
        }
    }

    /// The summary of a run in which no file has been handled yet.
    pub fn new() -> (r: RunSummary)
        ensures
            r.converted == 0,
            r.failed == 0,
            r.outcome() == RunStatus::AllConverted,
    {
        RunSummary { converted: 0, failed: 0 }
    }

    /// Counts one file: as converted, or as failed.
    pub fn record(&mut self, converted: bool)
        ensures
            final(self).converted == (if converted {
                one_more(old(self).converted)
            } else {
                old(self).converted
            }),
            final(self).failed == (if converted {
                old(self).failed
            } else {
                one_more(old(self).failed)
            }),
            !converted ==> final(self).outcome() == RunStatus::SomeFailed,
            converted ==> final(self).outcome() == old(self).outcome(),
    {
        if converted {
            if self.converted < u64::MAX {
                self.converted = self.converted + 1;
            }
        } else {
            if self.failed < u64::MAX {
                self.failed = self.failed + 1;
            }
        }
    }

    /// How the run ended: with every file converted, or with some failed.
    pub fn status(&self) -> (r: RunStatus)
        ensures
            r == self.outcome(),
    {
        if self.failed == 0 {
            RunStatus::AllConverted
        } else {
            RunStatus::SomeFailed
        }
    }
}

/// The exit code of the process for each status.
pub open spec fn code_of(status: RunStatus) -> u8 {
    match status {
        RunStatus::AllConverted => 0,
        RunStatus::SomeFailed => 1,
        RunStatus::Fatal => 2,
    }
}

/// The exit code of the process: 0 where every file was converted, 1 where
/// some failed, 2 where the run could not start.
pub fn exit_code(status: RunStatus) -> (code: u8)
    ensures
        code == code_of(status),
{
    match status {
        RunStatus::AllConverted => 0,
        RunStatus::SomeFailed => 1,
        RunStatus::Fatal => 2,
    }
}

/// Converts one scene graph into a document and its text.
///
/// Fails with the structure error of the graph where its nodes are not well
/// structured; else with the serialization error where some transform holds a
/// number that is not finite; and succeeds on every other graph.
pub fn convert_scene(graph: &SceneGraph) -> (r: Result<Converted, FileError>)
    ensures
        r is Ok <==> well_structured(traversal_of(*graph)) && forest_finite(
            forest_of(traversal_of(*graph)),
        ),
        match r {
            Ok(done) => {
                &&& done.document@.nodes == forest_of(traversal_of(*graph))
                &&& forest_size(done.document@.nodes) == graph.nodes@.len()
                &&& strictly_ascending(done.document@.assets)
                &&& same_members(done.document@.assets, texts(graph.resources@))
                &&& done.text@ == document_text(done.document@)
                &&& done.degenerate@ == degenerate_upto(
                    traversal_of(*graph),
                    graph.nodes@.len(),
                )
            },
            Err(FileError::Structure(e)) => rejected(traversal_of(*graph), e),
            Err(FileError::Serialization(e)) => {
                &&& well_structured(traversal_of(*graph))
                &&& !forest_finite(forest_of(traversal_of(*graph)))
                &&& e == SerializationError::NonFiniteNumber
            },
            Err(FileError::Load) => false,
            Err(FileError::Io) => false,
        },
{
    match convert(graph) {
        Ok(made) => {
            match serialize(&made.document) {
                Ok(text) => Ok(
                    Converted { document: made.document, text, degenerate: made.degenerate },
                ),
                Err(e) => Err(FileError::Serialization(e)),
            }
        },
        Err(e) => Err(FileError::Structure(e)),
    }
}

} // verus!
