//! Branch-collision arbitration for agents that share a Git repository on a LAN.
use vstd::prelude::*;

pub mod cli;
pub mod commands;
pub mod config;
pub mod engine;
pub mod errors;
pub mod git;
pub mod history;
pub mod installer;
pub mod mesh;
pub mod output;
pub mod render;
pub mod rest;
pub mod text;

verus! {

} // verus!
