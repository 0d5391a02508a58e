//! Verified core of the Marker screen-annotation tool.

pub mod annotation_file;
pub mod commands;
pub mod i18n;
pub mod monitor;
pub mod overlay;
pub mod overlay_windows;
pub mod shell;
pub mod stable_sort;
pub mod text;
pub mod timeline;
