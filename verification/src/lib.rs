//! Algebra of the Rubik's cube group: cubelet orientations, cube states,
//! generator vocabularies, words over them, and a persistent index of the
//! least depth at which each state has been reached.
//!
//! - [`cubelet`]: the 24 orientations of a cubelet and their group;
//! - [`cube`]: the state of a whole cube and the face turns on it;
//! - [`action`]: the vocabularies of moves, turns and quarter turns;
//! - [`codec`]: packing of fixed-width symbols into bytes;
//! - [`word`]: sequences of actions with the cube that they reach;
//! - [`path`]: reduced paths with every cube on the way;
//! - [`book`]: the persistent index of depths;
//! - [`store`] and [`strategy`]: depths in memory, and searches that fill
//!   them;
//! - [`graph`]: the cubes of a search as a graph, and its text;
//! - [`view`] and [`cubix`]: text for the eye, and the viewer's tabs.

pub mod action;
pub mod book;
pub mod codec;
pub mod cube;
pub mod cubelet;
pub mod cubix;
pub mod error;
pub mod graph;
pub mod path;
pub mod prelude;
pub mod store;
pub mod strategy;
pub mod view;
pub mod word;
