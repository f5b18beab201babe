//! Multi-scalar multiplication on the Pasta curves.
pub mod certificates;
pub mod chord;
pub mod conic;
pub mod correctness;
pub mod cost;
pub mod cubes;
pub mod curve;
pub mod digits;
pub mod fermat;
pub mod field;
pub mod group;
pub mod limbs;
pub mod msm;
pub mod ops;
pub mod pasta;
pub mod pippenger;
pub mod primality;
pub mod report;
pub mod runs;
pub mod settings;
pub mod stages;
pub mod text;
