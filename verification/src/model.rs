//! The document model: what a project is.

pub mod keys;
pub mod ease;
pub mod ride;
pub mod filter;
pub mod picture;
pub mod exact;
pub mod bezier;
pub mod nearly;
pub mod parted;
pub mod playing;
pub mod echo;
pub mod carried;
pub mod replay;
pub mod mended;
pub mod regained;
pub mod style;
pub mod media;
pub mod clip;
pub mod tidiness;
pub mod project;
pub mod timeline;
