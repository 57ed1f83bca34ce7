//! Verified core of a pair-rotation tool: given a roster of participant
//! names and a history of how often every two participants have already
//! been paired, it searches for a new partition of the roster into pairs
//! (plus one solo participant when the roster size is odd) that minimizes
//! the total number of repeat encounters.
//!
//! Reading the roster, persisting pairings and rendering output are left
//! to the surrounding application; the library works on plain values.

pub mod generator;
pub mod history;
pub mod keys;
pub mod output;
