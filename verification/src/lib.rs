//! The logic of a small non-linear video editor and of its installer.

pub mod app;
pub mod assets;
pub mod audio;
pub mod commands;
pub mod decoder;
pub mod edit;
pub mod exact;
pub mod export;
pub mod float;
pub mod fonts;
pub mod framecache;
pub mod history;
pub mod installer;
pub mod layout;
pub mod media;
pub mod paint;
pub mod palette;
pub mod pixel;
pub mod prefs;
pub mod project;
pub mod render;
pub mod session;
pub mod snap;
pub mod strings;
pub mod text;
pub mod timeline;
pub mod view;
