//! Typhon: the logic of a Nix-based continuous integration service.
pub mod builds;
pub mod cli;
pub mod init;
pub mod logs;
pub mod nix;
pub mod order;
pub mod pages;
pub mod projects;
pub mod queue;
pub mod service;
pub mod sources;
pub mod strmap;
pub mod types;
