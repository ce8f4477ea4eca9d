//! Extraction of structured release history from a "Keep a Changelog"
//! document: a grammar for version headings (an "unreleased" marker, or a
//! semantic version with an optional date) and a single-pass segmenter that
//! groups an already-tokenized block sequence into `(Version, content)`
//! entries, using heading recognition as the only boundary signal.

pub mod block;
pub mod changelog;
pub mod date;
pub mod version;

pub use block::Block;
pub use block::BlockKind;
pub use block::HeadingText;
pub use changelog::Changelog;
pub use date::Date;
pub use date::DateParseError;
pub use version::Version;
pub use version::VersionParseError;
