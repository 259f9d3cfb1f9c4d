//! Verified core of a multi-monitor wallpaper shuffler: per-monitor image
//! playlists, the global rotation scheduler, the configuration model and the
//! pure decisions behind monitor enumeration, autostart and the settings UI.

pub mod model;
pub mod text;
pub mod sorting;
pub mod random;
pub mod playlist;
pub mod scheduler;
pub mod config;
pub mod monitors;
pub mod wide;
pub mod shell;
pub mod settings;
