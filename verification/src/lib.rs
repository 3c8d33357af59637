//! Core of a local mod-catalog manager: an id-indexed registry of mod
//! metadata, a dependency resolver that walks the dependency graph of a
//! requested mod for one target version, and the command grammar of the
//! surrounding shell.
//!
//! The resolver is a step machine: each step either finishes, asks the
//! caller to fetch a missing piece of metadata, or hands back a concrete
//! file to download.  A driver over an in-memory catalog is provided here;
//! the surrounding application drives the same machine against the remote
//! catalog service and performs the actual transfers.

pub mod catalog;
pub mod commands;
pub mod records;
pub mod registry;
pub mod resolver;
