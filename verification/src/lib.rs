//! Rectangular mazes: a grid of cells with four wall flags each, two
//! generators that carve a spanning tree of passages into it, and a text
//! rendering of the result.

pub mod binary_tree;
pub mod binary_tree_maze;
pub mod cell;
pub mod chance;
pub mod decimal;
pub mod generator;
pub mod grid;
pub mod layout;
pub mod paths;
pub mod render;
pub mod sidewinder;
pub mod sidewinder_maze;

pub use binary_tree::BinaryTree;
pub use cell::Cell;
pub use generator::GeneratorAlgorithm;
pub use grid::Grid;
pub use layout::Layout;
pub use sidewinder::SideWinder;
