//! Verified core of a keyboard-driven manga reader: page discovery inside
//! archives (image recognition and natural ordering), fit-to-window geometry,
//! pixel buffers and the decisions that drive page navigation.

pub mod archive;
pub mod decode;
pub mod fixture;
pub mod metrics;
pub mod natural;
pub mod reader;
pub mod text;
