//! Classic algorithm library: a bounded stack with an infix/postfix
//! notation converter built on it, substitution ciphers, a binary tree,
//! a linear-scan association table, and in-place sorting routines.
pub mod chars;
pub mod sorting;
pub mod cipher;
pub mod notation;
pub mod stack;
pub mod table;
pub mod tree;
