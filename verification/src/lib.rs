//! vik: a small content-addressed version control system.
//!
//! The library holds everything that decides or computes: the object
//! format, hashing, the staging index, tree construction and traversal,
//! commit text, refs and branch rules. Reading and writing files is left to
//! the program around it.
pub mod error;
pub mod text;
pub mod hash;
pub mod object;
pub mod order;
pub mod index;
pub mod pathmap;
pub mod tree;
pub mod restore;
pub mod commit;
pub mod refs;
pub mod status;
pub mod cli;
