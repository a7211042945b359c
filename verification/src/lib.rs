//! Loading of the MNIST handwritten-digit dataset from IDX files, and random
//! translation of its images.

pub mod acquire;
pub mod augment;
pub mod dataset;
pub mod idx;
pub mod random;
