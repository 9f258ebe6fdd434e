//! Directory snapshots for a media browser: path normalisation, the media
//! extension filter, classification of directory entries (optionally split
//! into contiguous chunks for parallel workers) and a metadata-only change
//! fingerprint.

pub mod seqs;
pub mod order;
pub mod filter;
pub mod paths;
pub mod fingerprint;
pub mod listing;
pub mod favourites;
