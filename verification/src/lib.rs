//! Transition systems over a finite alphabet, ultimately periodic words, and the
//! passive learner that grows a right congruence from a sample of labelled
//! infinite words.

pub mod alphabet;
pub mod class;
pub mod congruence;
pub mod deterministic;
pub mod dfa;
pub mod forc;
pub mod index_ts;
pub mod likes;
pub mod path;
pub mod prefix_language;
pub mod product;
pub mod prefix_tree;
pub mod reach;
pub mod render;
pub mod restricted;
pub mod run;
pub mod sample;
pub mod sprout;
pub mod ts;
pub mod word;
pub mod words;
