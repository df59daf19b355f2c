//! Rule-driven organisation of files: matching, renaming, classification and undo.
pub mod classify;
mod clock;
pub mod duplicates;
pub mod ebook;
pub mod extract;
pub mod execution;
mod ids;
pub mod knowledge;
pub mod matcher;
pub mod media_plan;
pub mod media_scan;
pub mod metadata;
pub mod models;
mod order;
pub mod paths;
pub mod preview;
pub mod scan;
pub mod storage;
pub mod tags;
pub mod tag_cleanup;
pub mod transformer;
pub mod undo;
pub mod text;
