//! Core logic of `hyctl`, a command-line launcher for the Hytale game client:
//! the wharf patch format, account and version bookkeeping, the OAuth login
//! helpers and the command lines used to start the game and its server.

pub mod protobuf;
pub mod text;
pub mod wharf;
pub mod config;
pub mod auth;
pub mod download;
pub mod session;
pub mod launch;
pub mod versions;
pub mod cli;
