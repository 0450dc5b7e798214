//! grove: per-worktree development instances — the verified core.
//!
//! Each module holds one concern of the tool's logic: how a worktree is named, how
//! ports are handed out and remembered, how templates render, what `doctor` concludes
//! from what it observed. The parts that touch processes, files and the network live
//! in the `app/` crate, which hands this library plain values and acts on its answers.

pub mod text;
pub mod table;
pub mod config;
pub mod resolve;
pub mod exposure;
pub mod ports;
pub mod supervise;
pub mod registry;
pub mod resource;
pub mod render;
pub mod marker;
pub mod instance;
pub mod doctor;
pub mod machine;
pub mod llm;
pub mod footprint;
pub mod skill;
pub mod commands;
