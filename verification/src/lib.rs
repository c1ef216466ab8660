//! Verified solvers for a collection of small combinatorial puzzles over
//! line-oriented text inputs. The centrepiece is the greedy nearest-pair
//! spatial clustering engine in [`cluster`]; the remaining modules are
//! independent one-shot solvers sharing only the byte-level [`parsing`]
//! helpers.

pub mod beams;
pub mod cluster;
pub mod columns;
pub mod cycles;
pub mod dial;
pub mod largest;
pub mod parsing;
pub mod ranges;
pub mod rolls;
