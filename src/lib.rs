//! A recommender built on weighted random walks over a graph of objects
//! and tags, after Pinterest's Pixie.

pub mod recommender;
