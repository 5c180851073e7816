//! Decides how to download one blob from many nodes at once: which node is asked for which
//! chunks, what becomes of the chunks of a download that fails, and when a slow download is
//! given up for a better node.
pub mod bitfield;
pub mod chunks;
pub mod downloader;
pub mod plain;
pub mod quality;
pub mod run;
pub mod stats;
pub mod steps;
pub mod survey;
pub mod target;
