//! What the operations of this crate report when they refuse an input.

use crate::value::{Json, Kind, Value};
use vstd::prelude::*;

verus! {

/// Which argument of an operation an error speaks of.
#[derive(Clone, Copy, Debug, PartialEq, Eq, Structural)]
pub enum Argument {
    /// The document that is changed.
    Target,
    /// The document that is merged in.
    Source,
    /// The fields to put into a matched element.
    Updates,
}

/// Why a path text is no path.
#[derive(Clone, Copy, Debug, PartialEq, Eq, Structural)]
pub enum PathSyntaxError {
    /// The text begins with a dot.
    LeadingDot,
    /// The text ends with a dot.
    TrailingDot,
    /// Two dots follow each other.
    ConsecutiveDots,
    /// A `[` is not followed by a `]`.
    UnclosedBracket,
    /// Nothing stands between `[` and `]`.
    EmptyIndex,
    /// What stands between `[` and `]` is no index that fits the machine.
    /// `start` and `end` bound it, counted in characters of the path.
    InvalidIndex { start: usize, end: usize },
    /// A `]` stands where no `[` is open.
    UnexpectedClosingBracket,
    /// The text holds no segment.
    EmptyPath,
}

/// Why a place could not be written to.
#[derive(Clone, Copy, Debug, PartialEq, Eq, Structural)]
pub enum PathError {
    /// A path without segments names no place to write to.
    EmptyPath,
}

/// Why an operation refused its input.
#[derive(Clone, Copy, Debug, PartialEq, Eq, Structural)]
pub enum Error {
    /// A document nests deeper than `max_depth` levels.
    DepthExceeded { max_depth: usize },
    /// An argument that has to be an object is of another kind.
    NotAnObject { argument: Argument, found: Kind },
    /// The document has no field of the name under which an array is expected.
    MissingArray,
    /// The field under which an array is expected holds another kind.
    NotAnArray { found: Kind },
    /// The list of batch updates is no array.
    UpdatesNotAnArray { found: Kind },
    /// On the way along a path of keys, the node reached after `hops` keys is
    /// no object.
    PathNavigation { hops: usize, found: Kind },
    /// The node that a path of keys ends at is no object.
    MergeIntoNonObject { found: Kind },
    /// A path text is no path.
    InvalidPath(PathSyntaxError),
}

/// The view of what an operation on a document gave.
pub open spec fn outcome(r: Result<Value, Error>) -> Result<Json, Error> {
    match r {
        Ok(v) => Ok(v@),
        Err(e) => Err(e),
    }
}

} // verus!
