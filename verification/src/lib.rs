//! The asset graph of an Elder Scrolls plugin: which meshes, textures and
//! master plugins a plugin needs, and which of them go into its package.
mod dash;
pub mod paths;
pub mod assets;
pub mod reach;
pub mod laws;
pub mod package;
pub mod loading;
pub mod collect;
pub mod export;
pub mod args;
pub mod tree;
pub mod gui;
pub mod display;
