//! A UPnP media server library: the pieces of a DLNA/UPnP MediaServer that
//! decide what to answer — HTTP request reading, request routing, SSDP
//! announcements, the media library table, ContentDirectory `Browse`
//! responses in DIDL-Lite, and the small template engine they are rendered
//! with.  Sockets, files and threads are left to the program that uses it.

pub mod content_directory_v4;
pub mod http;
pub mod library;
pub mod media_server_v4;
pub mod path;
pub mod result_item;
pub mod service;
pub mod soap;
pub mod ssdp;
pub mod template;
pub mod text;
