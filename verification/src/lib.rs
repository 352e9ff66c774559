use vstd::prelude::*;

pub mod text;
pub mod progress;
pub mod models;
pub mod probe;
pub mod tunnel;
pub mod ssh_config;
pub mod ssh_edit;
pub mod reaper;
pub mod keys;
pub mod platform;
pub mod keygen;
pub mod commands;

verus! {
}
