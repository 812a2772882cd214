use vstd::prelude::*;

verus! {

/// Prefix under which the service API's paths are served.
pub const BASE_PATH: &'static str = "/api/service";

/// Listening side of the proxy: the address it binds.
pub struct Listen {
    pub host: String,
}

impl Listen {
    /// A listener for `host` (`ip:port`).
    pub fn new(host: String) -> (r: Listen)
        ensures
            r.host == host,
    {
        Listen { host }
    }
}

/// Address the proxy listens on when none is given.
pub const DEFAULT_HOST: &'static str = "0.0.0.0:8100";

/// Address of the web API and UI when none is given.
pub const DEFAULT_API_HOST: &'static str = "0.0.0.0:3000";

/// Command line settings of the proxy server.
#[derive(Clone, Debug)]
pub struct CliConfig {
    /// Authentication header.
    pub authen: Option<String>,
    /// Proxy listen address.
    pub host: Option<String>,
    /// Web API and UI listen address.
    pub api_host: Option<String>,
}

impl CliConfig {
    /// The proxy listen address, or its default.
    pub fn host_or_default(&self) -> (r: String)
        ensures
            self.host matches Some(h) ==> r@ == h@,
            self.host is None ==> r@ == DEFAULT_HOST@,
    {
        match &self.host {
            Some(h) => h.clone(),
            None => DEFAULT_HOST.to_owned(),
        }
    }

    /// The web API listen address, or its default.
    pub fn api_host_or_default(&self) -> (r: String)
        ensures
            self.api_host matches Some(h) ==> r@ == h@,
            self.api_host is None ==> r@ == DEFAULT_API_HOST@,
    {
        match &self.api_host {
            Some(h) => h.clone(),
            None => DEFAULT_API_HOST.to_owned(),
        }
    }
}

/// OpenAPI description of the service API.
pub struct ApiDoc;

impl ApiDoc {
    /// `path` as served, under the service prefix.
    pub fn with_base(path: &str) -> (r: String)
        ensures
            r@ == BASE_PATH@ + path@,
    {
        BASE_PATH.to_owned().concat(path)
    }

    /// Every path put under the service prefix, in order.
    pub fn prefix_paths(paths: &Vec<String>) -> (r: Vec<String>)
        ensures
            r@.len() == paths@.len(),
            forall|i: int| 0 <= i < paths@.len() ==> #[trigger] r@[i]@ == BASE_PATH@ + paths@[i]@,
    {
        let mut r: Vec<String> = Vec::new();
        let mut i: usize = 0;
        while i < paths.len()
            invariant
                i <= paths@.len(),
                r@.len() == i,
                forall|k: int| 0 <= k < i ==> #[trigger] r@[k]@ == BASE_PATH@ + paths@[k]@,
            decreases paths@.len() - i,
        {
            r.push(ApiDoc::with_base(paths[i].as_str()));
            i = i + 1;
        }
        r
    }
}

} // verus!
