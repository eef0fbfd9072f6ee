//! What is on the screen, as text, and what keys do.

pub mod cells;
pub mod keys;
pub mod layout;
pub mod title;
pub mod tree;
