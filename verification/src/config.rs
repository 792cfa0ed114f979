//! Configuration carried into the storage layer.
//!
//! Loading these values from the process environment is the caller's
//! job; the library only consumes them.

use vstd::prelude::*;

verus! {

#[derive(Debug)]
pub struct ServerConfig {
    pub port: u16,
    pub address: String,
}

#[derive(Debug)]
pub struct FilesystemConfig {
    pub storage_path: String,
    pub template_path: Option<String>,
    pub total_size: Option<u64>,
    pub user_space_size: Option<u64>,
}

#[derive(Debug)]
pub struct AuthConfig {
    pub code: Option<String>,
    pub session_lifetime: Option<u64>,
}

#[derive(Debug)]
pub struct DBConfig {
    pub path: String,
    pub conn_pool_size: u32,
}

#[derive(Debug)]
pub struct Config {
    pub name: String,
    pub server: ServerConfig,
    pub filesystem: FilesystemConfig,
    pub database: DBConfig,
    pub auth: AuthConfig,
}

} // verus!
