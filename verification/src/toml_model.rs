//! The declarative configuration as plain values, the input of the
//! routing-table compiler. The caller parses the configuration file and
//! hands over this model.
use vstd::prelude::*;
use crate::strmap::StrMap;

verus! {

pub struct Global {
    pub backlog: Option<i32>,
    pub max_connections: Option<usize>,
    pub max_requests: Option<usize>,
    pub keepalive: Option<bool>,
    pub keepalive_timeout: Option<u64>,
    pub keepalive_interval: Option<u64>,
    pub http_header_timeout: Option<u64>,
    pub tls_handshake_timeout: Option<u64>,
}

pub struct Server {
    pub port: Option<u16>,
    pub https_port: Option<u16>,
    pub proxy_timeout: Option<u64>,
    pub headers: Option<Headers>,
}

pub struct Service {
    pub domain: String,
    pub server: Option<String>,
    pub locations: Option<Vec<Locations>>,
    pub file_servers: Option<Vec<FileServers>>,
    pub redirections: Option<Vec<Redirections>>,
    pub tls: Option<Tls>,
    pub headers: Option<Headers>,
}

pub struct Headers {
    pub locations: Option<HeaderType>,
    pub file_servers: Option<HeaderAction>,
}

pub struct HeaderType {
    pub request: Option<HeaderAction>,
    pub response: Option<HeaderAction>,
}

pub struct HeaderAction {
    pub set: Option<StrMap<String>>,
    pub del: Option<Vec<String>>,
}

pub struct Tls {
    pub certificate: String,
    pub key: String,
    pub redirection: Option<bool>,
}

pub struct Locations {
    pub source: String,
    pub target: String,
    pub headers: Option<HeaderType>,
}

pub struct FileServers {
    pub source: String,
    pub target: String,
    /// Whether `target` names an existing regular file; the caller settles
    /// this from the filesystem before compiling.
    pub target_is_file: bool,
    pub authorized_dirs: Option<Vec<String>>,
    pub custom_404: Option<String>,
    pub headers: Option<HeaderAction>,
}

pub struct Redirections {
    pub source: String,
    pub target: String,
    pub code: Option<u16>,
}

pub struct Loadbalancer {
    pub algo: String,
    pub backends: Vec<String>,
    pub weights: Option<Vec<u32>>,
}

pub struct ConfigToml {
    pub import: Option<Vec<String>>,
    pub global: Option<Global>,
    pub servers: Option<StrMap<Server>>,
    pub services: Option<StrMap<Service>>,
    pub loadbalancers: Option<StrMap<Loadbalancer>>,
}

pub struct SubConfigToml {
    pub services: Option<StrMap<Service>>,
    pub loadbalancer: Option<StrMap<Loadbalancer>>,
}

impl HeaderAction {
    pub open spec fn wf(&self) -> bool {
        match self.set {
            Option::Some(m) => m.wf(),
            Option::None => true,
        }
    }
}

impl HeaderType {
    pub open spec fn wf(&self) -> bool {
        &&& match self.request {
            Option::Some(a) => a.wf(),
            Option::None => true,
        }
        &&& match self.response {
            Option::Some(a) => a.wf(),
            Option::None => true,
        }
    }
}

impl Headers {
    pub open spec fn wf(&self) -> bool {
        &&& match self.locations {
            Option::Some(t) => t.wf(),
            Option::None => true,
        }
        &&& match self.file_servers {
            Option::Some(a) => a.wf(),
            Option::None => true,
        }
    }
}

impl Service {
    pub open spec fn wf(&self) -> bool {
        &&& match self.headers {
            Option::Some(h) => h.wf(),
            Option::None => true,
        }
        &&& match self.locations {
            Option::Some(ls) => forall|i: int|
                0 <= i < ls.len() ==> match #[trigger] ls[i].headers {
                    Option::Some(t) => t.wf(),
                    Option::None => true,
                },
            Option::None => true,
        }
        &&& match self.file_servers {
            Option::Some(fs) => forall|i: int|
                0 <= i < fs.len() ==> match #[trigger] fs[i].headers {
                    Option::Some(a) => a.wf(),
                    Option::None => true,
                },
            Option::None => true,
        }
    }
}

impl Server {
    pub open spec fn wf(&self) -> bool {
        match self.headers {
            Option::Some(h) => h.wf(),
            Option::None => true,
        }
    }
}

impl ConfigToml {
    pub open spec fn wf(&self) -> bool {
        &&& match self.servers {
            Option::Some(m) => m.wf() && forall|i: int|
                0 <= i < m.entries_seq().len() ==> (#[trigger] m.entries_seq()[i].1).wf(),
            Option::None => true,
        }
        &&& match self.services {
            Option::Some(m) => m.wf() && forall|i: int|
                0 <= i < m.entries_seq().len() ==> (#[trigger] m.entries_seq()[i].1).wf(),
            Option::None => true,
        }
        &&& match self.loadbalancers {
            Option::Some(m) => m.wf(),
            Option::None => true,
        }
    }
}

impl SubConfigToml {
    pub open spec fn wf(&self) -> bool {
        &&& match self.services {
            Option::Some(m) => m.wf() && forall|i: int|
                0 <= i < m.entries_seq().len() ==> (#[trigger] m.entries_seq()[i].1).wf(),
            Option::None => true,
        }
        &&& match self.loadbalancer {
            Option::Some(m) => m.wf(),
            Option::None => true,
        }
    }
}

} // verus!
