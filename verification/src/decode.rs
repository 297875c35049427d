//! Reading pictures out of a file: what is asked of the reader, what the file
//! says of its colour, and the order things happen in.

pub mod clocks;
pub mod color;
pub mod options;
pub mod pacing;
pub mod reading;
pub mod tags;
