//! Streaming ingestion of chat-export archives.
//!
//! An export is one large JSON object. The dispatcher in [`parse::json`] walks
//! it once, front to back, and hands the values under registered root-level
//! keys to their handlers. The probe in [`parse::util`] finds the timestamp
//! embedded near the end of an export, looking only at a bounded tail window.
pub mod parse;
