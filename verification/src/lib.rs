//! A grid-rewriting engine: it repeatedly finds places in a 2D character
//! grid that match small rectangular templates and rewrites them,
//! producing emergent textures from a declarative list of local rules.
//!
//! Templates are canonicalized under the dihedral group of the square so
//! that square, wildcard-free patterns match in constant time against a
//! per-cell index of canonical neighborhood forms; the index and the match
//! cache are maintained incrementally in the window around each edit.
//! Rules apply one weighted match, every match, or each match
//! independently at a probability, and nest into depth-first sequences
//! with step budgets and change-detection termination. All randomness
//! comes from a seeded, position-addressable stream, so runs are
//! reproducible bit for bit.
pub mod algo;
pub mod pattern;
pub mod rng;
pub mod rule_sequence;
pub mod transform;

use vstd::prelude::*;

verus! {

/// Delimiter between the rows of a pattern template.
pub const PATTERN_DELIMITER: char = '/';

/// Template cell that matches any grid symbol and is never written.
pub const ANYTHING: char = '*';

/// Stands for a grid cell outside the grid bounds; it matches nothing.
pub const NOTHING: char = '\u{274c}';

/// Fixed-point scale for probabilities and weights: this value stands for
/// a probability of one.
pub const PROB_SCALE: u32 = 1000000;

} // verus!
