//! Planning and running the audio mix.
//!
//! A set of audible clips becomes one filtergraph, as text; the mix counts the
//! samples it takes and gives; and the sound is joined to the picture by due
//! time. There is exactly one definition of what speed, fades and gain mean for
//! sound.

pub mod gain;
pub mod graph;
pub mod heard;
pub mod mixing;
pub mod muxing;
pub mod sampled;
pub mod speed;
