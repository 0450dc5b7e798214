//! What `grove --help` says of each command. The application's argument parser
//! shows these; the words are the interface an agent reads first.

use vstd::prelude::*;

verus! {

pub const ABOUT: &'static str = "Per-worktree dev instances: each git worktree gets its own ports, env, and database";
pub const UP_ABOUT: &'static str = "Render config, start missing shared containers with nofile=64000, start services";
pub const DOWN_ABOUT: &'static str = "Stop this instance's services";
pub const STATUS_ABOUT: &'static str = "Ports, pids, and whether each service's endpoint actually answers";
pub const LS_ABOUT: &'static str = "Every instance on this machine";
pub const RUN_ABOUT: &'static str = "Run a command with this instance's environment overlaid";
pub const LOGS_ABOUT: &'static str = "Tail a service's log";
pub const RESTART_ABOUT: &'static str = "Stop a service and start it again; all of them if none is named";
pub const PRUNE_ABOUT: &'static str = "Stop and forget instances whose worktree no longer exists";
pub const SEED_ABOUT: &'static str = "Populate data; rerun after seed changes or resource recreation";
pub const DOCTOR_ABOUT: &'static str = "Check that this worktree can start: env, resources, ports, config";
pub const SKILL_ABOUT: &'static str = "Manage the agent-facing skill";

} // verus!
