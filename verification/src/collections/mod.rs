//! Small exercises on vectors, maps and strings.

pub mod employees;
pub mod pig_latin;
pub mod vectors;
