//! The project document of a video editor: its model, the commands that edit
//! it, the history of those edits, and the media logic around it.
//!
//! Every function states what it returns or changes in its contract, and the
//! contracts are proved.

pub mod audio;
pub mod commands;
pub mod decode;
pub mod digits;
pub mod editor;
pub mod find;
pub mod limits;
pub mod measure;
pub mod model;
pub mod number;
pub mod order;
pub mod peaks;
pub mod perf;
pub mod prefetch;
pub mod ranges;
pub mod reading;
pub mod relay;
pub mod rounding;
mod shared;
pub mod single;
pub mod table;
pub mod text;
pub mod timing;
