//! UPnP services with fixed answers.

pub mod content_directory_v4;
