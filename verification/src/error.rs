//! The library's error, and the reasons the tree builder fails.

use vstd::prelude::*;
use crate::text::{guid_text, format_guid_text};

verus! {

/// Why a node list could not be turned into a tree; the library reports it
/// as a [`FigError`] holding its text.
#[derive(Clone, Copy, PartialEq, Eq, Structural, Debug)]
pub enum TreeError {
    /// A node has no `guid` object.
    NodeMissingGuid,
    /// A node's `guid.sessionID` is missing or not an unsigned integer.
    InvalidSessionId,
    /// A node's `guid.localID` is missing or not an unsigned integer.
    InvalidLocalId,
    /// A `parentIndex` has no `guid` object.
    ParentMissingGuid,
    /// A `parentIndex.guid.sessionID` is missing or not an unsigned integer.
    ParentInvalidSessionId,
    /// A `parentIndex.guid.localID` is missing or not an unsigned integer.
    ParentInvalidLocalId,
    /// No node has the guid `session:local` that the tree needs.
    NodeNotFound { session: u64, local: u64 },
    /// The parent links below the root are deeper than the node list is
    /// long, which only a cycle allows.
    CyclicHierarchy,
}

/// The text that describes an error.
pub open spec fn error_text(e: TreeError) -> Seq<char> {
    match e {
        TreeError::NodeMissingGuid => "Node missing guid field"@,
        TreeError::InvalidSessionId => "Invalid sessionID in guid"@,
        TreeError::InvalidLocalId => "Invalid localID in guid"@,
        TreeError::ParentMissingGuid => "parentIndex missing guid field"@,
        TreeError::ParentInvalidSessionId => "Invalid sessionID in parentIndex"@,
        TreeError::ParentInvalidLocalId => "Invalid localID in parentIndex"@,
        TreeError::NodeNotFound { session, local } => "Node "@ + guid_text(session, local) + " not found"@,
        TreeError::CyclicHierarchy => "Cyclic parent links in the node tree"@,
    }
}

impl TreeError {
    /// The text that describes the error, such as `Node 0:0 not found`.
    pub fn message(&self) -> (r: String)
        ensures
            r@ == error_text(*self),
    {
        match self {
            TreeError::NodeMissingGuid => "Node missing guid field".to_owned(),
            TreeError::InvalidSessionId => "Invalid sessionID in guid".to_owned(),
            TreeError::InvalidLocalId => "Invalid localID in guid".to_owned(),
            TreeError::ParentMissingGuid => "parentIndex missing guid field".to_owned(),
            TreeError::ParentInvalidSessionId => "Invalid sessionID in parentIndex".to_owned(),
            TreeError::ParentInvalidLocalId => "Invalid localID in parentIndex".to_owned(),
            TreeError::NodeNotFound { session, local } => {
                let mut m = "Node ".to_owned();
                let g = format_guid_text(*session, *local);
                m.append(g.as_str());
                m.append(" not found");
                m
            },
            TreeError::CyclicHierarchy => "Cyclic parent links in the node tree".to_owned(),
        }
    }
}

/// The library's error: `ZipError` with the text of what went wrong.
#[derive(Clone, PartialEq, Eq, Debug)]
pub enum FigError {
    ZipError(String),
}

/// The text an error carries.
pub open spec fn fig_error_text(e: FigError) -> Seq<char> {
    match e {
        FigError::ZipError(s) => s@,
    }
}

impl FigError {
    /// The error for a failure of the tree builder: its text.
    pub fn from_tree_error(e: TreeError) -> (r: FigError)
        ensures
            fig_error_text(r) == error_text(e),
    {
        FigError::ZipError(e.message())
    }

    /// The text the error carries.
    pub fn message(&self) -> (r: String)
        ensures
            r@ == fig_error_text(*self),
    {
        match self {
            FigError::ZipError(s) => s.clone(),
        }
    }
}

} // verus!
