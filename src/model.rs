pub mod tree;
pub mod vertex;
