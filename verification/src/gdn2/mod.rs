//! GDN-2: the delta rule with erase and write gates of their own.
pub mod cache;
pub mod config;
pub mod gdn2;
