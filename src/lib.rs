//! Succinct full-text indexes over DNA: backward search on a Burrows-Wheeler
//! transform and bidirectional extension over a text and its reverse complement,
//! with enumeration of supermaximal exact matches.

pub mod alphabet;
pub mod fmindex;
pub mod fmdindex;

pub use fmdindex::{BiInterval, BuildError, FMDIndex};
pub use fmindex::FMIndex;
