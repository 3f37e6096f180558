//! How the HTTP client is set up.

use vstd::prelude::*;
use vstd::string::StringExecFns;

verus! {

/// The settings of an HTTP client.
#[derive(Debug)]
pub struct HttpConfig {
    /// The user agent to send, if not the default.
    pub user_agent: Option<String>,
    /// The proxy through which every request goes, if any.
    pub proxy: Option<String>,
    /// Whether responses may be compressed.
    pub compression: bool,
    /// Whether requests may go over plain HTTP.
    pub allow_insecure: bool,
}

impl Default for HttpConfig {
    /// The default settings: no user agent of its own, no proxy, compression
    /// on, plain HTTP refused.
    fn default() -> (config: Self)
        ensures
            config.user_agent is None,
            config.proxy is None,
            config.compression,
            !config.allow_insecure,
    {
        Self { user_agent: None, proxy: None, compression: true, allow_insecure: false }
    }
}

impl HttpConfig {
    /// The user agent that is sent: the configured one, or the name of the
    /// program and its version as `name/major.minor`.
    pub fn effective_user_agent(&self, name: &str, major: &str, minor: &str) -> (agent: String)
        ensures
            agent@ == match self.user_agent {
                Some(configured) => configured@,
                None => name@ + "/"@ + major@ + "."@ + minor@,
            },
    {
        match &self.user_agent {
            Some(configured) => configured.clone(),
            None => {
                let mut agent = String::from_str(name);
                agent.append("/");
                agent.append(major);
                agent.append(".");
                agent.append(minor);
                agent
            },
        }
    }

    /// Whether only HTTPS is used.
    pub fn https_only(&self) -> (only: bool)
        ensures
            only == !self.allow_insecure,
    {
        !self.allow_insecure
    }
}

} // verus!
