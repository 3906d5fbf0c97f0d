//! Random-access indexing of multi-member gzip containers: a scanner that
//! finds where each compressed member begins, and the rules that turn a
//! decoded record and its member into one line of a capture index.

use vstd::prelude::*;

pub mod gz;
pub mod text;
pub mod warc;

verus! {

/// The two line formats an index can be written in.
#[derive(Debug, Clone, Copy, PartialEq, Eq, Structural)]
pub enum IndexFormat {
    CDX,
    CDXJ,
}

} // verus!
