//! The errors of loading, building and assembling.

use vstd::prelude::*;

verus! {

/// What went wrong, with the path at fault.
#[derive(Debug, Clone, PartialEq, Eq)]
pub enum RouteError {
    /// A directory or file name with malformed bracket, group, slot or
    /// intercept syntax.
    InvalidSegmentSyntax { path: Vec<u8> },
    /// Sibling dynamic or catch-all segments with different names, or two
    /// servable files for one route. `other` is what the path at fault
    /// collides with: the shown path of the segment that is there already,
    /// or the path of the file that is bound already; it is empty where
    /// the path collides with itself.
    ConflictingRoute { path: Vec<u8>, other: Vec<u8> },
    /// No root layout in app mode, or a leaf with neither page nor handler.
    MissingRequiredFile { path: Vec<u8> },
    /// A catch-all segment that is not the last of its branch.
    UnsupportedNesting { path: Vec<u8> },
}

/// The kind of an error, without its path.
#[derive(Debug, Clone, Copy, PartialEq, Eq, Structural)]
pub enum ErrorKind {
    InvalidSegmentSyntax,
    ConflictingRoute,
    MissingRequiredFile,
    UnsupportedNesting,
}

/// The mathematical content of an error.
pub ghost struct ErrorView {
    pub kind: ErrorKind,
    pub path: Seq<u8>,
    pub other: Seq<u8>,
}

impl View for RouteError {
    type V = ErrorView;

    open spec fn view(&self) -> ErrorView {
        match self {
            RouteError::InvalidSegmentSyntax { path } => ErrorView {
                kind: ErrorKind::InvalidSegmentSyntax,
                path: path@,
                other: Seq::empty(),
            },
            RouteError::ConflictingRoute { path, other } => ErrorView {
                kind: ErrorKind::ConflictingRoute,
                path: path@,
                other: other@,
            },
            RouteError::MissingRequiredFile { path } => ErrorView {
                kind: ErrorKind::MissingRequiredFile,
                path: path@,
                other: Seq::empty(),
            },
            RouteError::UnsupportedNesting { path } => ErrorView {
                kind: ErrorKind::UnsupportedNesting,
                path: path@,
                other: Seq::empty(),
            },
        }
    }
}

/// The views of a sequence of errors.
pub open spec fn error_views(v: Seq<RouteError>) -> Seq<ErrorView> {
    v.map_values(|e: RouteError| e@)
}

impl RouteError {
    /// The kind of this error.
    pub fn kind(&self) -> (r: ErrorKind)
        ensures
            r == self@.kind,
    {
        match self {
            RouteError::InvalidSegmentSyntax { .. } => ErrorKind::InvalidSegmentSyntax,
            RouteError::ConflictingRoute { .. } => ErrorKind::ConflictingRoute,
            RouteError::MissingRequiredFile { .. } => ErrorKind::MissingRequiredFile,
            RouteError::UnsupportedNesting { .. } => ErrorKind::UnsupportedNesting,
        }
    }

    /// The path at fault.
    pub fn path(&self) -> (r: &Vec<u8>)
        ensures
            r@ == self@.path,
    {
        match self {
            RouteError::InvalidSegmentSyntax { path } => path,
            RouteError::ConflictingRoute { path, .. } => path,
            RouteError::MissingRequiredFile { path } => path,
            RouteError::UnsupportedNesting { path } => path,
        }
    }
}

} // verus!
