pub mod bound;
pub mod path;
pub mod search;
pub mod theory;
pub mod tree;
pub mod validate;
pub mod words;
