//! Verified core of MixID ("Shazam for DJ mixes"): the integer and text
//! logic of audio fingerprinting, offset-voting matching, tracklist
//! assembly and export, and filename parsing.

pub mod text;
pub mod names;
pub mod order;
pub mod fingerprint;
pub mod matcher;
pub mod analysis;
pub mod export;
