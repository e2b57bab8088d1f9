//! The core of an application launcher: descriptor parsing, discovery, icon
//! resolution, ranked search and launch planning.

pub mod actions;
pub mod data;
pub mod entry;
pub mod icons;
pub mod launch;
pub mod outside;
pub mod search;
pub mod state;
pub mod text;
