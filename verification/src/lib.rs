//! Manga Reel: comic archive listing, library bookkeeping and panel detection.
use vstd::prelude::*;

pub mod detect;
pub mod contour;
pub mod panel;
pub mod seqs;
pub mod text;
pub mod paths;
pub mod digest;
pub mod natord;
pub mod archive;
pub mod library;
pub mod dirs;
pub mod page;
pub mod settings;
pub mod shader;
pub mod browse;
pub mod segment;

verus! {
} // verus!
