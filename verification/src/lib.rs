//! Listening-history statistics: per-track play counts built from a
//! streaming-service export, ranking, text normalisation for matching
//! audio files to tracks, and the plans handed to the downloader, the
//! CSV exporter and the video-platform client.

pub mod csv_export;
pub mod download;
pub mod keyed;
pub mod song;
pub mod tagging;
pub mod stats;
pub mod text;
pub mod youtube;
