//! Alignment of amounts.
pub mod extraction;
