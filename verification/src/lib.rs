//! A terminal wallpaper browser's logic: paths, directory listings, the
//! browser state, the image preview renderer and the SDDM theme update.

pub mod text;
pub mod path;
pub mod order;
pub mod config;
pub mod entries;
pub mod render;
pub mod ui;
pub mod sddm;
