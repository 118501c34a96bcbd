//! A verified library of the building blocks of the kissat SAT solver:
//! literal encoding, option handling and formatting, limits and delays,
//! the embedded CDCL solver `kitten`, and helpers of congruence closure.
pub mod literal;
pub mod text;
pub mod seqs;
pub mod random;
pub mod kitten;
pub mod kitten_shuffle;
pub mod kitten_answers;
pub mod flags;
pub mod extend;
pub mod heap;
pub mod queue;
pub mod policy;
pub mod kimits;
pub mod frames;
pub mod phases;
pub mod internal;
pub mod parse;
pub mod format;
pub mod error;
pub mod file;
pub mod options;
pub mod congruence;
pub mod clauses;
pub mod value_laws;
pub mod fastel;
