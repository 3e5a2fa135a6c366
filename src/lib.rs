//! A filesystem tree rebuilt from a shell transcript, held in two stores (an
//! index arena and an owned tree) that are proved to agree, with the size
//! queries over it; and the smaller puzzle solvers that share its parsing.

pub mod model;
pub mod transcript;
pub mod tree;
pub mod queries;
pub mod arena;
pub mod agree;
pub mod calories;
pub mod marker;
pub mod rps;
pub mod sections;
pub mod rucksack;
pub mod forest;
pub mod stacks;
pub mod numbers;
