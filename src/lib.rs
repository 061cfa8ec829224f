//! Rebuilds ordered playlists from a pool of tracks known by title and a set
//! of playlist descriptors that refer to tracks by title and position.

pub mod track;
pub mod pool;
pub mod playlist;
pub mod descriptor;
pub mod reconcile;
pub mod run;
pub mod laws;
pub mod materialize;
pub mod config;
