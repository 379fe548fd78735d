//! Verified solvers for a set of small number and grid problems.
//!
//! The largest of them maps values through a [`Pipeline`] of
//! [`IntervalTable`]s, each of which shifts the values inside its source
//! ranges and leaves every other value untouched, and finds the least value
//! that leaves the pipeline when every value of a set of candidate ranges is
//! sent in. The others each live in a module of their own: calibration
//! values, cube games, engine schematics, scratchcards, races, camel cards,
//! cycle lengths, number histories, pipe loops, galaxies and spring rows.

pub mod calibration;
pub mod camel_cards;
pub mod camel_order;
pub mod chunks;
pub mod cubes;
pub mod galaxies;
pub mod histories;
pub mod input;
pub mod mapping;
pub mod minimizer;
pub mod network;
pub mod pipeline;
pub mod pipes;
pub mod races;
pub mod range;
pub mod schematic;
pub mod scratchcards;
pub mod seeds;
pub mod solve;
pub mod springs;
pub mod table;
pub mod text;

pub use input::{read_input, InputError, ParseError};
pub use mapping::IntervalMapping;
pub use pipeline::Pipeline;
pub use range::Range;
pub use seeds::{expand_ranges, InvalidInputError, SeedRange};
pub use solve::{part1, part2};
pub use table::{IntervalTable, OverlappingRangeError};
