//! Stacked pull requests, one commit per pull request.
//!
//! The library holds everything that decides: how a commit message is read,
//! which layers of a stack are pushed, what a pull request is told, and what
//! the user is shown. Talking to git and to the forge is left to the caller.

pub mod findings;
pub mod lineage;
pub mod memory;
pub mod placing;
pub mod afterwards;
pub mod amend;
pub mod auth;
pub mod cli;
pub mod close;
pub mod commands;
pub mod config;
pub mod data;
pub mod discovery;
pub mod engine;
pub mod execution;
pub mod forge;
pub mod git_remote;
pub mod github;
pub mod guardrails;
pub mod history;
pub mod land;
pub mod laws;
pub mod list;
pub mod markers;
pub mod moments;
pub mod oid;
pub mod paint;
pub mod parking;
pub mod patch;
pub mod pr_body;
pub mod reference;
pub mod refs;
pub mod rest;
pub mod review_diff;
pub mod runs;
pub mod session;
pub mod ssh_agent;
pub mod stack;
pub mod stack_comment;
pub mod standing;
pub mod status;
pub mod sync;
pub mod syncing;
pub mod telling;
pub mod tape;
pub mod text;
pub mod throughout;
pub mod trailers;
pub mod upgrade;
pub mod utils;
