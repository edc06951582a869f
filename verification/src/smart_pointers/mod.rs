//! Structures that own their parts through boxes.

pub mod box_demo;
