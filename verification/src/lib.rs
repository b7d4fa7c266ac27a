//! Profile management for side-by-side installations of a desktop
//! application: synchronising configuration between profiles, comparing
//! profiles, and listing installed plugins.
//!
//! The library decides and plans; it touches no file. A sync is planned
//! from listings of the two configuration directories as a sequence of
//! actions, each with the file operations that carry it out ([`sync`],
//! [`fs`], [`backup`], [`exclude`], [`executor`]). What a plan does to the
//! directories is stated and proved over a model of them ([`model`],
//! [`effects`]). Two profiles are compared by their plugins and by their
//! settings trees ([`plugins`], [`json`], [`diff`], [`report`]). The rest
//! serves the command line: the configuration ([`config`]), new profiles
//! ([`init`]), launching ([`launch`]), updates ([`update`]) and shell
//! completion ([`completions`]).

pub mod assoc;
pub mod backup;
pub mod completions;
pub mod config;
pub mod diff;
pub mod effects;
pub mod exclude;
pub mod executor;
pub mod fs;
pub mod init;
pub mod json;
pub mod launch;
pub mod model;
pub mod plugins;
pub mod report;
pub mod sync;
pub mod text;
pub mod update;
