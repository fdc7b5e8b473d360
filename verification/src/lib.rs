//! Core logic of Lanmark.
use vstd::prelude::*;

pub mod colors;
pub mod commands;
pub mod db;
pub mod digest;
pub mod discovery;
pub mod exchange;
pub mod fs_ops;
pub mod lan_scan;
pub mod pairing;
pub mod phases;
pub mod round;
pub mod settings;
pub mod settings_cmd;
pub mod strmap;
pub mod sync;
pub mod sync_client;
pub mod sync_server;
pub mod text;
pub mod tree;
pub mod vault;

verus! {

} // verus!
