//! A travelling thief problem toolkit: instance parsing, tours over the
//! cities of an instance, and the integer bookkeeping of a knapsack that
//! travels along a tour.

pub mod instance;
pub mod knapsack;
pub mod random;
pub mod text;
pub mod tsp;
