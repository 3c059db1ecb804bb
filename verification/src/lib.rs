//! Skip lists that are reached by position: an indexed list, an ordered
//! list, a sorted set and a sorted map.
//!
//! Every list keeps its nodes in an arena and links them at several levels.
//! A link carries the number of values it advances by, so that a value is
//! reached by its index in a number of steps that is expected to grow with
//! the logarithm of the length.
//!
//! - [`skiplist`] holds the indexed list and its walks, [`links`] what it
//!   means for the nodes to be linked consistently, [`splice`] how the links
//!   change when nodes enter or leave, and [`laws`] what holds of a list over
//!   any course of changes.
//! - [`ordered_skiplist`] keeps values sorted by [`order`], with [`sorted`]
//!   saying where a value belongs.
//! - [`skipset`] and [`skipmap`] build a set and a map on the ordered list;
//!   [`merge`] says what the set operations yield.
//! - [`level_generator`] draws the number of levels of each new node, and
//!   [`explain`] writes the diagram of a stretch of a list.

pub mod explain;
pub mod laws;
pub mod level_generator;
pub mod links;
pub mod merge;
pub mod order;
pub mod ordered_skiplist;
pub mod skiplist;
pub mod skipmap;
pub mod skipset;
pub mod sorted;
pub mod splice;
