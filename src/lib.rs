//! Read access to a zip-packaged painting document: its metadata object graph,
//! its preview image and the ordered video segments of its timelapse.

pub mod error;
pub mod segments;
pub mod archive;
pub mod document;
