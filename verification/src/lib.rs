//! An in-memory DAG of federated events and its projection into a
//! renderer-agnostic node/edge data set.
pub mod dag;
pub mod data_set;
pub mod event;
pub mod graph;
pub mod lemmas;
pub mod model;
pub mod reach;
pub mod seqs;
