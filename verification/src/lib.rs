//! Verified core of the `sabpak` package manager.
pub mod text;
pub mod ver;
pub mod config;
pub mod resolve;
pub mod recipe;
pub mod import;
pub mod update;
pub mod helper;
pub mod builder;
pub mod install;
