//! Verified solvers for a collection of small text-puzzle utilities, built
//! around one core subsystem: a multi-stage range-mapping resolution engine
//! that pushes large identifier ranges through ordered piecewise-affine
//! stages by interval splitting, never by per-identifier enumeration.

pub mod almanac;
pub mod calibration;
pub mod camel;
pub mod cubes;
pub mod extrapolation;
pub mod network;
pub mod races;
pub mod ranges;
pub mod resolver;
pub mod schematic;
pub mod scratchcards;
pub mod text;
