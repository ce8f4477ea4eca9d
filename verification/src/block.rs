//! The block abstraction the segmenter walks: one top-level document unit,
//! either a heading (its level, and the outcome of rendering its inline
//! content to plain text) or opaque content.

use crate::version::Version;
use crate::version::VersionParseError;
use crate::version::spec_classify;
use vstd::prelude::*;

verus! {

/// The outcome of rendering a heading's inline content to plain text. The
/// rendering itself is the document-parser collaborator's work; the
/// segmenter only reads its outcome.
#[derive(Debug, Clone)]
pub enum HeadingText {
    /// The heading holds exactly one inline run, and it rendered to this text.
    Text(String),
    /// The heading does not contain exactly one inline content run.
    NotSingleSpan,
    /// The rendered heading bytes are not valid text.
    InvalidUtf8,
}

/// What kind of block this is, as far as the segmenter can tell.
#[derive(Debug, Clone)]
pub enum BlockKind {
    /// A heading, with its level and its rendered text.
    Heading(u8, HeadingText),
    /// Any other top-level unit; passed through unmodified as content.
    Content,
}

/// One top-level unit of a parsed document. `id` is the caller's handle to
/// the underlying document node; the segmenter carries it through untouched.
#[derive(Debug, Clone)]
pub struct Block {
    pub id: usize,
    pub kind: BlockKind,
}

/// What a block classifies as: only a level-2 heading can be a boundary,
/// and its text must match the version-heading grammar.
pub open spec fn spec_block_version(b: Block) -> Result<Version, VersionParseError> {
    match b.kind {
        BlockKind::Content => Err(VersionParseError::Header),
        BlockKind::Heading(level, text) => if level != 2 {
            Err(VersionParseError::Header)
        } else {
            match text {
                HeadingText::Text(s) => spec_classify(s@),
                HeadingText::NotSingleSpan => Err(VersionParseError::SingleSpan),
                HeadingText::InvalidUtf8 => Err(VersionParseError::Utf8),
            }
        },
    }
}

/// A boundary: a block whose classification succeeds.
pub open spec fn is_boundary(b: Block) -> bool {
    spec_block_version(b) is Ok
}

/// The version a boundary block names.
pub open spec fn boundary_version(b: Block) -> Version {
    spec_block_version(b)->Ok_0
}

impl Version {
    /// Classify one block, reporting why a failing block is no boundary.
    pub fn try_from_block(b: &Block) -> (r: Result<Version, VersionParseError>)
        ensures
            r == spec_block_version(*b),
    {
        match &b.kind {
            BlockKind::Content => Err(VersionParseError::Header),
            BlockKind::Heading(level, text) => {
                if *level != 2 {
                    Err(VersionParseError::Header)
                } else {
                    match text {
                        HeadingText::Text(s) => Version::classify(s.as_str()),
                        HeadingText::NotSingleSpan => Err(VersionParseError::SingleSpan),
                        HeadingText::InvalidUtf8 => Err(VersionParseError::Utf8),
                    }
                }
            },
        }
    }
}

/// A block that is not a level-2 heading is never a boundary: whatever its
/// text would say, its classification fails with the `Header` kind.
pub proof fn lemma_non_heading_never_boundary(b: Block)
    requires
        match b.kind {
            BlockKind::Content => true,
            BlockKind::Heading(level, _) => level != 2,
        },
    ensures
        spec_block_version(b) == Err::<Version, VersionParseError>(VersionParseError::Header),
        !is_boundary(b),
{
}

} // verus!
