//! User programs.
pub mod echo;
pub mod ls;
