//! A toolkit for puzzle-style search problems: a tie-aware best-first
//! search engine over implicit graphs, together with the small data
//! structures and number-theory helpers that its callers tend to need.

pub mod algorithms;
pub mod bit_array;
pub mod bit_grid;
pub mod dijkstra;
pub mod error;
pub mod file_scanner;
pub mod iter_pairs;
pub mod md5;
pub mod output;
pub mod parser;
pub mod permutations;
pub mod point;
pub mod priority_vec;
pub mod run_output;
pub mod runner;
pub mod small_vec;
pub mod tile_set;

pub use algorithms::{egcd, gcd, lcm, modexp, modinverse};
pub use bit_array::BitArray;
pub use bit_grid::{BitGrid, BitGridConst};
pub use dijkstra::{Dijkstra, EdgeList, Neighbors};
pub use error::Error;
pub use file_scanner::{InputFile, InputFileInfo, SearchType};
pub use iter_pairs::{IterPair, IterPairs};
pub use md5::{MD5String, MD5};
pub use output::{Mode, Output, YearDayPart};
pub use parser::{Lines, LinesIter, LinesOpt};
pub use permutations::{GroupedPermutations, Permutations};
pub use point::{Point2D, Point3D};
pub use priority_vec::PriorityVec;
pub use run_output::RunOutput;
pub use runner::Run;
pub use small_vec::{SmallVec, SmallVecBuffer, SmallVecIter};
pub use tile_set::{Tile, TileSet};
