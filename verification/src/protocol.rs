//! The manifest records diffr writes for each changed file.
use crate::tree::Pairing;
use crate::types::{FileStatus, Visibility};
use vstd::prelude::*;

verus! {

/// One side of a changed file as git names it.
#[derive(Debug, Clone, PartialEq, Eq)]
pub struct FileRef {
    pub path: String,
    pub oid: String,
    pub mode: String,
}

/// A changed file's manifest entry: its sides, its status, its category and
/// language when known, and how it starts out.
#[derive(Debug, Clone, PartialEq, Eq)]
pub struct FileChange {
    pub file: Pairing<FileRef>,
    pub status: FileStatus,
    pub category: Option<String>,
    pub language: Option<String>,
    pub visibility: Visibility,
}

/// A failure reported for one file.
#[derive(Debug, Clone, PartialEq, Eq)]
pub struct Problem {
    pub message: String,
}

} // verus!
