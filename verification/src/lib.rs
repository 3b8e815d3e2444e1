//! Sealed `.env` files: the verified core of the `symmetry` tool.

pub mod auth;
pub mod cli;
pub mod b64;
pub mod commands;
pub mod envfile;
pub mod crypto;
pub mod keystore;
pub mod manifest;
pub mod paths;
pub mod scan;
pub mod setup;
pub mod text;
pub mod vars;
