//! Stacks built from linked nodes.

pub mod immutable_stack;
pub mod ok_stack;
