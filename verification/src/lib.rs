//! A dotfiles manager library: reconciles a declarative set of managed paths
//! against two filesystem trees (the dotfiles repository and the user's home
//! directory) and computes the symlink state of every managed entry as well as
//! the change plans that bring new paths under management.
//!
//! All path and filesystem reasoning happens on explicit in-memory values
//! (`paths::NormPath`, `fs_model::FsTree`); the thin binary around this
//! library performs the actual I/O and hands the observed trees in.

pub mod cli;
pub mod commands;
pub mod config;
pub mod errors;
pub mod files;
pub mod fs_model;
pub mod paths;
