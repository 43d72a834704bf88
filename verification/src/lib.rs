//! A Li Chao tree: the lower envelope of a growing set of lines
//! `y = m * x + c` over a fixed range of integer coordinates.
//!
//! [`LiChaoTree`] takes lines one at a time and returns, for any coordinate
//! of its range, the least value that an inserted line takes there. Lines
//! are evaluated with saturating 64-bit arithmetic.
//!
//! - `line`: lines and their evaluation.
//! - `crossing`: when two lines cross at most once, and the lower envelope.
//! - `layout`: the indices of the implicit binary tree.
//! - `model`: the nodes of a tree as a function of the inserted lines.
//! - `laws`: what holds of a tree's answers.
//! - `tree`: the tree itself.

pub mod crossing;
pub mod laws;
pub mod layout;
pub mod line;
pub mod model;
pub mod tree;

pub use line::Line;
pub use tree::LiChaoTree;
