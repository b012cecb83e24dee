//! An Ant Colony System solver for the Euclidean travelling salesman problem,
//! hybridised with windowed 2-opt and block Or-opt local search.
//!
//! All arithmetic is exact integer arithmetic: coordinates are fixed-point
//! integers, distances are floor square roots, pheromone levels are
//! fixed-point fractions and random draws are integers.
pub mod candidates;
pub mod local_search;
pub mod pheromone;
pub mod random;
pub mod selection;
pub mod tour;
pub mod tsp_solvers;
pub mod tsp_data;
