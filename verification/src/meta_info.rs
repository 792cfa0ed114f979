//! The deployment description handed to clients.

use vstd::prelude::*;
use vstd::string::StringExecFns;
use crate::config::Config;

verus! {

#[derive(Debug)]
pub struct MetaInfo {
    pub platform: String,
    pub port: u16,
    pub referrer: String,
    pub revision: u32,
    pub protected: bool,
}

impl MetaInfo {
    pub fn new(cfg: &Config) -> (r: Self)
        ensures
            r.platform@ == cfg.name@,
            r.port == cfg.server.port,
            r.referrer@ == "/connect"@,
            r.revision == 2,
            r.protected == (cfg.auth.code is Some),
    {
        Self {
            platform: cfg.name.clone(),
            port: cfg.server.port,
            referrer: String::from_str("/connect"),
            revision: 2,
            protected: match &cfg.auth.code {
                Some(_) => true,
                None => false,
            },
        }
    }
}

} // verus!
