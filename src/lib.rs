//! Canonical partitions of an ordered alphabet and a regular-expression
//! context built over them.
pub mod alphabet;
pub mod range;
pub mod partition_map;
pub mod partition_set;
pub mod regex;
