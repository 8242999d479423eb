//! Shared low-level helpers: the generic bit reader and the bit-stream model
//! that every other component's contracts are written against.

pub mod bititer;

pub use bititer::BitIter;
