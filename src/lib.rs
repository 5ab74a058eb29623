//! Music theory as data: notes and intervals as semitone counts, scales and
//! their step patterns, chords and their names, inversions, and the chords
//! found inside scales.

pub mod interval;
pub mod roman;
pub mod scale;
pub mod chord;
pub mod order;
pub mod rooted;
pub mod harmony;
pub mod scales;
