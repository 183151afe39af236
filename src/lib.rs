//! Aligns the pages of presentation documents with screen recordings.
//!
//! The library holds the decision logic of the alignment pipeline: choosing the
//! candidate page that a sampled video frame shows, consolidating the per-frame
//! results into a timeline, the content-addressed caches that keep repeated runs
//! idempotent, and the bookkeeping of progress over concurrent work.
pub mod barcode;
pub mod extraction;
pub mod files;
pub mod frame_matcher;
pub mod mapping_cache;
pub mod pdf_info;
pub mod progress;
pub mod rasterizer;
pub mod sampler;
pub mod scheduler;
pub mod temp_paths;
pub mod text;
pub mod timeline;
pub mod transaction;
