//! Every edit operation, as data, and what each one does.

pub mod asked;
pub mod closing;
pub mod keyable;
pub mod newly;
pub mod mint;
pub mod command;
pub mod media;
pub mod step;
pub mod timelines;
pub mod tracks;
pub mod properties;
pub mod clips;
pub mod cuts;
pub mod joins;
pub mod removal;
pub mod audio;
pub mod apply;
pub mod laws;
pub mod naming;
pub mod numbering;
pub mod anchoring;
pub mod gaps;
pub mod honesty;
pub mod round_trips;
pub mod rejoining;
pub mod keyed;
pub mod sliding;
pub mod covering;
