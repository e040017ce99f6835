//! The frozen routing table and its compiler: servers, strict and prefix
//! targets, auto-TLS domains and global tunables, built once from the
//! declarative configuration.
use vstd::prelude::*;
use crate::headers::{
    ConfigHeaders, apply_header_actions, copy_config_headers, get_config_headers_from, merge_headers_actions,
};
use crate::strmap::{SortedStrMap, StrMap};
use crate::text::{
    is_prefix_of, remove_last_slash, replace_all, spec_dec, spec_replace_all, extract_vars_from_string, spec_extract_vars, str_starts_with, u64_to_dec, get_path_and_file, spec_path_and_file,
};
use crate::toml_model;

verus! {

pub const MAIN_SERVER_NAME: &'static str = "main";

pub const DEFAULT_PORT: u16 = 80;

pub const DEFAULT_PORT_HTTPS: u16 = 443;

pub const DEFAULT_PROXY_TIMEOUT: u64 = 60;

pub const DEFAULT_TLS_REDIRECTION: bool = true;

pub const DEFAULT_REDIRECTION_CODE: u16 = 301;

pub const DEFAULT_BACKLOG: i32 = 4096;

pub const DEFAULT_MAX_CONNECTIONS: usize = 1024;

pub const DEFAULT_MAX_REQUESTS: usize = 100;

pub const DEFAULT_KEEPALIVE: bool = true;

pub const DEFAULT_KEEPALIVE_TIMEOUT: u64 = 60;

pub const DEFAULT_KEEPALIVE_INTERVAL: u64 = 20;

pub const DEFAULT_HTTP_HEADER_TIMEOUT: u64 = 30;

pub const DEFAULT_TLS_HANDSHAKE_TIMEOUT: u64 = 10;

pub const DEFAULT_FORBIDDEN_DIR: bool = true;

#[derive(PartialEq, Debug)]
pub struct ServiceConfig {
    pub servers: StrMap<Server>,
    pub global: Global,
    pub empty: bool,
}

#[derive(PartialEq, Debug)]
pub struct Global {
    pub backlog: i32,
    pub max_conn: usize,
    pub max_req: usize,
    pub keepalive: bool,
    pub keepalive_timeout: u64,
    pub keepalive_interval: u64,
    pub http_header_timeout: u64,
    pub tls_handshake_timeout: u64,
}

#[derive(PartialEq, Debug)]
pub struct Server {
    pub params: ServerParams,
    pub port: u16,
    pub https_port: u16,
    pub tls: Option<Vec<TlsCertificate>>,
}

#[derive(PartialEq, Debug)]
pub struct ServerParams {
    /// Prefix-matched routes, walked from the greatest key downward.
    pub targets: SortedStrMap<TargetType>,
    /// Exactly-matched routes, consulted first.
    pub strict_targets: SortedStrMap<TargetType>,
    /// Hosts whose plain-HTTP requests are redirected to HTTPS.
    pub auto_tls: Option<Vec<String>>,
    pub proxy_timeout: u64,
}

#[derive(PartialEq, Debug, Clone)]
pub struct TlsCertificate {
    pub cert: String,
    pub key: String,
}

#[derive(PartialEq, Debug)]
pub struct Locations {
    pub id: u32,
    pub params: TargetParams<Vec<String>>,
    pub algo: Option<String>,
    pub weights: Option<Vec<u32>>,
}

#[derive(PartialEq, Debug)]
pub struct FileServer {
    pub params: TargetParams<String>,
    pub fallback_file: Option<String>,
    pub is_fallback_404: bool,
    pub forbidden_dir: bool,
}

#[derive(PartialEq, Debug)]
pub struct Redirection {
    pub params: TargetParams<String>,
    pub code: u16,
}

#[derive(PartialEq, Debug)]
pub struct TargetParams<T> {
    pub location: T,
    pub headers: ConfigHeaders,
}

#[derive(PartialEq, Debug)]
pub enum TargetType {
    Location(Locations),
    FileServer(FileServer),
    Redirection(Redirection),
}

/// Command-line options; the caller fills them from the process arguments.
#[derive(PartialEq, Debug)]
pub struct Options {
    pub config: String,
    pub logs: String,
}

/// The monotonic route-id allocator.
#[derive(PartialEq, Debug)]
pub struct IdGen {
    pub counter: u32,
}

impl IdGen {
    pub fn new() -> (r: IdGen)
        ensures
            r.counter == 0,
    {
        IdGen { counter: 0 }
    }

    pub fn generate_u32_id(&mut self) -> (r: u32)
        requires
            old(self).counter < u32::MAX,
        ensures
            r == old(self).counter,
            final(self).counter == old(self).counter + 1,
    {
        let id = self.counter;
        self.counter = self.counter + 1;
        id
    }
}

impl TargetType {
    /// The route id, for a proxy target.
    pub open spec fn loc_id_of(&self) -> Option<u32> {
        match self {
            TargetType::Location(l) => Option::Some(l.id),
            _ => Option::None,
        }
    }

    pub open spec fn wf(&self) -> bool {
        match self {
            TargetType::Location(l) => l.params.headers.wf() && l.params.location@.len() >= 1
                && (match l.weights {
                Option::Some(w) => w@.len() == l.params.location@.len() && (exists|j: int|
                    0 <= j < w@.len() && w@[j] > 0),
                Option::None => true,
            }),
            TargetType::FileServer(f) => f.params.headers.wf(),
            TargetType::Redirection(r) => r.params.headers.wf() && (r.code == 301 || r.code == 302
                || r.code == 307 || r.code == 308),
        }
    }
}

/// The strict and prefix tables never share a key; the compiler keeps
/// them disjoint.
pub open spec fn disjoint_targets(p: ServerParams) -> bool {
    forall|k: Seq<char>|
        !(#[trigger] p.strict_targets@.contains_key(k) && p.targets@.contains_key(k))
}

impl ServerParams {
    pub open spec fn wf(&self) -> bool {
        &&& self.targets.wf()
        &&& self.strict_targets.wf()
        &&& forall|k: Seq<char>| self.targets@.contains_key(k) ==> (#[trigger] self.targets@[k]).wf()
        &&& forall|k: Seq<char>| self.strict_targets@.contains_key(k) ==> (
        #[trigger] self.strict_targets@[k]).wf()
    }
}

impl Server {
    pub open spec fn wf(&self) -> bool {
        self.params.wf()
    }
}

impl ServerParams {
    /// Inserts a strict route unless the key already names a prefix route:
    /// the tables stay disjoint, the earlier declaration winning.
    pub fn insert_strict(&mut self, k: String, v: TargetType)
        requires
            old(self).wf(),
            v.wf(),
        ensures
            final(self).wf(),
            final(self).auto_tls == old(self).auto_tls,
            final(self).proxy_timeout == old(self).proxy_timeout,
            final(self).targets@ == old(self).targets@,
            final(self).targets.entries_seq() == old(self).targets.entries_seq(),
            old(self).targets@.contains_key(k@) ==> *final(self) == *old(self),
            !old(self).targets@.contains_key(k@) ==> final(self).strict_targets@ == old(
                self,
            ).strict_targets@.insert(k@, v),
            disjoint_targets(*old(self)) ==> disjoint_targets(*final(self)),
    {
        if !self.targets.contains_key(k.as_str()) {
            self.strict_targets.insert(k, v);
        }
    }

    /// Inserts a prefix route unless the key already names a strict route.
    pub fn insert_prefix(&mut self, k: String, v: TargetType)
        requires
            old(self).wf(),
            v.wf(),
        ensures
            final(self).wf(),
            final(self).auto_tls == old(self).auto_tls,
            final(self).proxy_timeout == old(self).proxy_timeout,
            final(self).strict_targets@ == old(self).strict_targets@,
            final(self).strict_targets.entries_seq() == old(self).strict_targets.entries_seq(),
            old(self).strict_targets@.contains_key(k@) ==> *final(self) == *old(self),
            !old(self).strict_targets@.contains_key(k@) ==> final(self).targets@ == old(
                self,
            ).targets@.insert(k@, v),
            disjoint_targets(*old(self)) ==> disjoint_targets(*final(self)),
    {
        if !self.strict_targets.contains_key(k.as_str()) {
            self.targets.insert(k, v);
        }
    }
}



impl ServiceConfig {
    pub open spec fn wf(&self) -> bool {
        &&& self.servers.wf()
        &&& forall|k: Seq<char>| self.servers@.contains_key(k) ==> (
        #[trigger] self.servers@[k]).wf()
    }
}

/// A route at `k` in one of the maps carries the proxy id `id`.
pub open spec fn params_route_has_id(p: ServerParams, strict: bool, k: Seq<char>, id: u32) -> bool {
    let m = if strict {
        p.strict_targets@
    } else {
        p.targets@
    };
    m.contains_key(k) && m[k].loc_id_of() == Option::Some(id)
}

/// No two routes of the table share a proxy id.
pub open spec fn params_ids_unique(p: ServerParams) -> bool {
    forall|s1: bool, k1: Seq<char>, s2: bool, k2: Seq<char>, id: u32|
        #[trigger] params_route_has_id(p, s1, k1, id) && #[trigger] params_route_has_id(
            p,
            s2,
            k2,
            id,
        ) ==> s1 == s2 && k1 == k2
}

/// A route at `k` in one of a server's two maps carries the proxy id `id`.
pub open spec fn server_route_has_id(s: Server, strict: bool, k: Seq<char>, id: u32) -> bool {
    params_route_has_id(s.params, strict, k, id)
}

/// A server with unique route ids has a table with unique route ids.
pub proof fn lemma_params_ids_unique(s: Server)
    requires
        server_ids_unique(s),
    ensures
        params_ids_unique(s.params),
{
    assert forall|s1: bool, k1: Seq<char>, s2: bool, k2: Seq<char>, id: u32|
        #[trigger] params_route_has_id(s.params, s1, k1, id) && #[trigger] params_route_has_id(
        s.params,
        s2,
        k2,
        id,
    ) implies s1 == s2 && k1 == k2 by {
        assert(server_route_has_id(s, s1, k1, id));
        assert(server_route_has_id(s, s2, k2, id));
    }
}

/// Every proxy id in the server's maps is below `c`.
pub open spec fn server_ids_lt(s: Server, c: nat) -> bool {
    forall|strict: bool, k: Seq<char>, id: u32|
        #[trigger] server_route_has_id(s, strict, k, id) ==> id < c
}

/// No two routes of the server share a proxy id.
pub open spec fn server_ids_unique(s: Server) -> bool {
    forall|s1: bool, k1: Seq<char>, s2: bool, k2: Seq<char>, id: u32|
        #[trigger] server_route_has_id(s, s1, k1, id) && #[trigger] server_route_has_id(
            s,
            s2,
            k2,
            id,
        ) ==> s1 == s2 && k1 == k2
}

/// Some route of the server carries the id.
pub open spec fn server_has_id(s: Server, id: u32) -> bool {
    exists|strict: bool, k: Seq<char>| server_route_has_id(s, strict, k, id)
}

/// A route of the named server carries the proxy id `id`.
pub open spec fn config_route_has_id(
    servers: Map<Seq<char>, Server>,
    sk: Seq<char>,
    strict: bool,
    k: Seq<char>,
    id: u32,
) -> bool {
    servers.contains_key(sk) && server_route_has_id(servers[sk], strict, k, id)
}

/// Every proxy id across the whole table is below `c`.
pub open spec fn config_ids_lt(servers: Map<Seq<char>, Server>, c: nat) -> bool {
    forall|sk: Seq<char>, strict: bool, k: Seq<char>, id: u32|
        #[trigger] config_route_has_id(servers, sk, strict, k, id) ==> id < c
}

/// Every `Location.id` is unique across the whole routing table: two routes
/// that carry the same id are the same route.
pub open spec fn config_ids_unique(servers: Map<Seq<char>, Server>) -> bool {
    forall|sk1: Seq<char>, s1: bool, k1: Seq<char>, sk2: Seq<char>, s2: bool, k2: Seq<char>, id: u32|
        #[trigger] config_route_has_id(servers, sk1, s1, k1, id) && #[trigger] config_route_has_id(
            servers,
            sk2,
            s2,
            k2,
            id,
        ) ==> sk1 == sk2 && s1 == s2 && k1 == k2
}

/// The normalized form and match mode of a route source: a trailing `/*`
/// marks a prefix match and is stripped; otherwise a trailing `/` is
/// stripped and the match is strict.
pub open spec fn spec_source_mode(source: Seq<char>) -> (Seq<char>, bool) {
    if source.len() >= 2 && source.subrange(source.len() - 2, source.len() as int) == "/*"@ {
        (source.subrange(0, source.len() - 2), false)
    } else if source.len() > 0 && source.last() == '/' {
        (source.drop_last(), true)
    } else {
        (source, true)
    }
}

/// The normalized directory, match mode and forbidden flag of an
/// authorized-directory entry.
pub open spec fn spec_dir_mode(path: Seq<char>) -> (Seq<char>, bool, bool) {
    if path.len() > 0 && path[0] == '!' {
        let (d, m) = spec_source_mode(path.skip(1));
        (d, m, true)
    } else {
        let (d, m) = spec_source_mode(path);
        (d, m, false)
    }
}

/// Splits a route source into its normalized form and its match mode: a
/// trailing `/*` marks a prefix match and is stripped; otherwise a trailing
/// `/` is stripped and the match is strict.
pub fn source_and_strict_mode(source: &str) -> (r: (&str, bool))
    ensures
        r.0@ == spec_source_mode(source@).0,
        r.1 == spec_source_mode(source@).1,
{
    let n = source.unicode_len();
    if n >= 2 && source.get_char(n - 2) == '/' && source.get_char(n - 1) == '*' {
        let s = source.substring_char(0, n - 2);
        proof {
            reveal_strlit("/*");
            assert(source@.subrange(n - 2, n as int) =~= "/*"@);
        }
        (s, false)
    } else {
        proof {
            reveal_strlit("/*");
            if n >= 2 && source@.subrange(n - 2, n as int) == "/*"@ {
                assert(source@.subrange(n - 2, n as int)[0] == source@[n - 2]);
                assert(source@.subrange(n - 2, n as int)[1] == source@[n - 1]);
                assert(source@[n - 2] == '/' && source@[n - 1] == '*');
            }
        }
        (remove_last_slash(source), true)
    }
}

/// Splits an authorized-directory entry: a leading `!` marks the directory
/// as forbidden; the rest goes through the source normalization.
pub fn dir_strict_mode_and_access(path: &str) -> (r: (&str, bool, bool))
    ensures
        r.0@ == spec_dir_mode(path@).0,
        r.1 == spec_dir_mode(path@).1,
        r.2 == spec_dir_mode(path@).2,
{
    let n = path.unicode_len();
    if n > 0 && path.get_char(0) == '!' {
        let p = path.substring_char(1, n);
        proof {
            assert(path@.subrange(1, n as int) =~= path@.skip(1));
        }
        let (source, mode) = source_and_strict_mode(p);
        (source, mode, true)
    } else {
        let (source, mode) = source_and_strict_mode(path);
        (source, mode, false)
    }
}

/// Aligns a weight table to the backend count, right-padding with `1`.
pub fn manage_weights(srv_nbr: usize, weights: &Option<Vec<u32>>) -> (r: Option<Vec<u32>>)
    ensures
        match weights {
            Option::Some(w) => r matches Option::Some(nw) && nw@.len() == srv_nbr && (forall|
                i: int,
            |
                0 <= i < srv_nbr ==> nw@[i] == (if i < w@.len() {
                    w@[i]
                } else {
                    1u32
                })),
            Option::None => r is None,
        },
{
    match weights {
        Option::Some(weights) => {
            let mut new_weights: Vec<u32> = Vec::new();
            let mut i: usize = 0;
            while i < srv_nbr
                invariant
                    i <= srv_nbr,
                    new_weights@.len() == i,
                    forall|j: int|
                        0 <= j < i ==> new_weights@[j] == (if j < weights@.len() {
                            weights@[j]
                        } else {
                            1u32
                        }),
                decreases srv_nbr - i,
            {
                if i < weights.len() {
                    new_weights.push(weights[i]);
                } else {
                    new_weights.push(1);
                }
                i += 1;
            }
            Some(new_weights)
        },
        Option::None => None,
    }
}


/// The `${name}` pattern for a pool variable.
pub open spec fn var_pattern(key: Seq<char>) -> Seq<char> {
    "${"@ + key + "}"@
}

/// Resolves a location target against the load-balancer pools: a `${name}`
/// variable naming a known pool expands into one backend URL per pool
/// entry, together with the pool's algorithm and its weights aligned to
/// the backend count.
pub fn get_backends_config(
    target: &str,
    loadbalancers: &Option<StrMap<toml_model::Loadbalancer>>,
) -> (r: (Vec<String>, Option<String>, Option<Vec<u32>>))
    requires
        match loadbalancers {
            Option::Some(m) => m.wf(),
            Option::None => spec_extract_vars(target@, 0).len() == 0,
        },
    ensures
        ({
            let keys = spec_extract_vars(target@, 0);
            if keys.len() == 0 {
                r.0@.len() == 1 && r.0@[0]@ == target@ && r.1 is None && r.2 is None
            } else {
                let lbs = loadbalancers.unwrap()@;
                if !lbs.contains_key(keys[0]) {
                    r.0@.len() == 0 && r.1 is None && r.2 is None
                } else {
                    let lb = lbs[keys[0]];
                    let n = lb.backends@.len();
                    &&& r.0@.len() == n
                    &&& forall|i: int|
                        0 <= i < n ==> r.0@[i]@ == spec_replace_all(
                            target@,
                            var_pattern(keys[0]),
                            lb.backends@[i]@,
                        )
                    &&& (n > 0 ==> (r.1 matches Option::Some(a) && a@ == lb.algo@))
                    &&& (n == 0 ==> r.1 is None && r.2 is None)
                    &&& (n > 0 ==> match lb.weights {
                        Option::Some(w) => r.2 matches Option::Some(nw) && nw@.len() == n && (
                        forall|i: int|
                            0 <= i < n ==> nw@[i] == (if i < w@.len() {
                                w@[i]
                            } else {
                                1u32
                            })),
                        Option::None => r.2 is None,
                    })
                }
            }
        }),
{
    let keys = extract_vars_from_string(target);
    let mut server_list: Vec<String> = Vec::new();
    let mut algo: Option<String> = None;
    let mut weight: Option<Vec<u32>> = None;
    let ghost skeys = spec_extract_vars(target@, 0);
    if keys.len() > 0 {
        proof {
            assert(keys@.map_values(|k: String| k@).len() == keys@.len());
            assert(keys@[0]@ == skeys[0]);
        }
        let key = &keys[0];
        match loadbalancers {
            Option::Some(lbs) => {
                match lbs.get(key.as_str()) {
                    Option::Some(lb) => {
                        let n = lb.backends.len();
                        let mut var = String::from_str("${");
                        var.append(key.as_str());
                        var.append("}");
                        assert(var@ == var_pattern(skeys[0]));
                        proof {
                            reveal_strlit("${");
                        }
                        let mut i: usize = 0;
                        while i < n
                            invariant
                                i <= n,
                                n == lb.backends@.len(),
                                var@ == var_pattern(skeys[0]),
                                var@.len() >= 1,
                                server_list@.len() == i,
                                forall|j: int|
                                    0 <= j < i ==> server_list@[j]@ == spec_replace_all(
                                        target@,
                                        var_pattern(skeys[0]),
                                        lb.backends@[j]@,
                                    ),
                            decreases n - i,
                        {
                            let server = replace_all(target, var.as_str(), lb.backends[i].as_str());
                            server_list.push(server);
                            i += 1;
                        }
                        if n > 0 {
                            algo = Some(String::from_str(lb.algo.as_str()));
                            weight = manage_weights(n, &lb.weights);
                        }
                    },
                    Option::None => {},
                }
            },
            Option::None => {
                proof {
                    assert(keys@.map_values(|k: String| k@).len() == keys@.len());
                }
            },
        }
    } else {
        proof {
            assert(keys@.map_values(|k: String| k@).len() == keys@.len());
        }
        server_list.push(String::from_str(target));
    }
    (server_list, algo, weight)
}

/// The key under which the `www` auto-redirect is installed: the domain
/// with `www.` put on, or taken off when it is already there.
pub open spec fn www_source_key(domain: Seq<char>) -> Seq<char> {
    if !is_prefix_of("www."@, domain) {
        "www."@ + domain
    } else {
        domain.skip(4)
    }
}

/// The URL the `www` auto-redirect points at: the configured domain, with
/// an explicit port exactly when it is not the scheme's default.
pub open spec fn www_target_url(domain: Seq<char>, port: u16, tls: bool) -> Seq<char> {
    let scheme = if tls {
        "https://"@
    } else {
        "http://"@
    };
    let default_port: u16 = if tls {
        443
    } else {
        80
    };
    scheme + domain + (if port != default_port {
        ":"@ + spec_dec(port as nat)
    } else {
        Seq::<char>::empty()
    })
}

/// Installs the `www` canonicalization redirect for a service domain: a
/// permanent redirect from the twin domain to the configured one, unless a
/// strict route already claims the twin key.
pub fn www_auto_redirection(
    params: &mut ServerParams,
    service_domain: &str,
    port: u16,
    tls: bool,
)
    requires
        old(params).wf(),
    ensures
        final(params).wf(),
        final(params).strict_targets@ == old(params).strict_targets@,
        final(params).strict_targets.entries_seq() == old(params).strict_targets.entries_seq(),
        final(params).auto_tls == old(params).auto_tls,
        final(params).proxy_timeout == old(params).proxy_timeout,
        disjoint_targets(*old(params)) ==> disjoint_targets(*final(params)),
        old(params).strict_targets@.contains_key(www_source_key(service_domain@)) ==> *final(
            params) == *old(params),
        !old(params).strict_targets@.contains_key(www_source_key(service_domain@)) ==> ({
            &&& final(params).targets@ == old(params).targets@.insert(
                www_source_key(service_domain@),
                final(params).targets@[www_source_key(service_domain@)],
            )
            &&& final(params).targets@[www_source_key(service_domain@)]
                matches TargetType::Redirection(red) && red.code == 301 && red.params.location@
                == www_target_url(service_domain@, port, tls) && red.params.headers.request
                is None && red.params.headers.response is None
        }),
{
    let n = service_domain.unicode_len();
    let key: String;
    if !str_starts_with(service_domain, "www.") {
        let mut d = String::from_str("www.");
        d.append(service_domain);
        key = d;
    } else {
        proof {
            reveal_strlit("www.");
        }
        let k = String::from_str(service_domain.substring_char(4, n));
        proof {
            assert(service_domain@.subrange(4, n as int) =~= service_domain@.skip(4));
        }
        key = k;
    }
    let mut target: String = if tls {
        String::from_str("https://")
    } else {
        String::from_str("http://")
    };
    target.append(service_domain);
    let default_port: u16 = if tls {
        DEFAULT_PORT_HTTPS
    } else {
        DEFAULT_PORT
    };
    if port != default_port {
        target.append(":");
        let p = u64_to_dec(port as u64);
        target.append(p.as_str());
    }
    proof {
        assert(target@ == www_target_url(service_domain@, port, tls));
    }
    params.insert_prefix(
        key,
        TargetType::Redirection(
            Redirection {
                params: TargetParams { location: target, headers: ConfigHeaders::default() },
                code: DEFAULT_REDIRECTION_CODE,
            },
        ),
    );
}




/// Inserting a proxy route with the next fresh id keeps the server's ids
/// bounded and unique.
proof fn lemma_insert_loc_ids(
    s_old: Server,
    s_new: Server,
    strict: bool,
    key: Seq<char>,
    l: Locations,
    c: nat,
)
    requires
        server_ids_lt(s_old, c),
        server_ids_unique(s_old),
        l.id == c,
        if strict {
            s_new.params.strict_targets@ == s_old.params.strict_targets@.insert(
                key,
                TargetType::Location(l),
            ) && s_new.params.targets@ == s_old.params.targets@
        } else {
            s_new.params.targets@ == s_old.params.targets@.insert(key, TargetType::Location(l))
                && s_new.params.strict_targets@ == s_old.params.strict_targets@
        },
    ensures
        server_ids_lt(s_new, c + 1),
        server_ids_unique(s_new),
        forall|id: u32| server_has_id(s_new, id) ==> server_has_id(s_old, id) || id == c,
{
    assert forall|st: bool, k: Seq<char>, id: u32|
        #[trigger] server_route_has_id(s_new, st, k, id) implies (if st == strict && k == key {
        id == c
    } else {
        server_route_has_id(s_old, st, k, id)
    }) by {}
    assert forall|st: bool, k: Seq<char>, id: u32|
        #[trigger] server_route_has_id(s_new, st, k, id) implies id < c + 1 by {
        if !(st == strict && k == key) {
            assert(server_route_has_id(s_old, st, k, id));
        }
    }
    assert forall|s1: bool, k1: Seq<char>, s2: bool, k2: Seq<char>, id: u32|
        #[trigger] server_route_has_id(s_new, s1, k1, id) && #[trigger] server_route_has_id(
        s_new,
        s2,
        k2,
        id,
    ) implies s1 == s2 && k1 == k2 by {
        if s1 == strict && k1 == key {
            if !(s2 == strict && k2 == key) {
                assert(server_route_has_id(s_old, s2, k2, id));
                assert(id < c);
            }
        } else {
            assert(server_route_has_id(s_old, s1, k1, id));
            if s2 == strict && k2 == key {
                assert(id < c);
            } else {
                assert(server_route_has_id(s_old, s2, k2, id));
            }
        }
    }
    assert forall|id: u32| server_has_id(s_new, id) implies server_has_id(s_old, id) || id
        == c by {
        let (st, k) = choose|st: bool, k: Seq<char>| server_route_has_id(s_new, st, k, id);
        if !(st == strict && k == key) {
            assert(server_route_has_id(s_old, st, k, id));
        }
    }
}

/// Inserting a route that is not a proxy target leaves the id set alone.
proof fn lemma_insert_nonloc_ids(
    s_old: Server,
    s_new: Server,
    strict: bool,
    key: Seq<char>,
    v: TargetType,
    c: nat,
)
    requires
        server_ids_lt(s_old, c),
        server_ids_unique(s_old),
        v.loc_id_of() is None,
        if strict {
            s_new.params.strict_targets@ == s_old.params.strict_targets@.insert(key, v)
                && s_new.params.targets@ == s_old.params.targets@
        } else {
            s_new.params.targets@ == s_old.params.targets@.insert(key, v)
                && s_new.params.strict_targets@ == s_old.params.strict_targets@
        },
    ensures
        server_ids_lt(s_new, c),
        server_ids_unique(s_new),
        forall|id: u32| server_has_id(s_new, id) ==> server_has_id(s_old, id),
{
    assert forall|st: bool, k: Seq<char>, id: u32|
        #[trigger] server_route_has_id(s_new, st, k, id) implies server_route_has_id(
        s_old,
        st,
        k,
        id,
    ) by {}
    assert forall|id: u32| server_has_id(s_new, id) implies server_has_id(s_old, id) by {
        let (st, k) = choose|st: bool, k: Seq<char>| server_route_has_id(s_new, st, k, id);
        assert(server_route_has_id(s_old, st, k, id));
    }
}

/// A change that only writes file-server entries leaves the id set alone.
proof fn lemma_fs_frame_ids(s_old: Server, s_new: Server, c: nat)
    requires
        server_ids_lt(s_old, c),
        server_ids_unique(s_old),
        forall|k: Seq<char>|
            s_new.params.targets@.contains_key(k) && !(s_old.params.targets@.contains_key(k)
                && s_new.params.targets@[k] == s_old.params.targets@[k]) ==> (
            #[trigger] s_new.params.targets@[k]) matches TargetType::FileServer(_),
        forall|k: Seq<char>|
            s_new.params.strict_targets@.contains_key(k) && !(
            s_old.params.strict_targets@.contains_key(k) && s_new.params.strict_targets@[k]
                == s_old.params.strict_targets@[k]) ==> (
            #[trigger] s_new.params.strict_targets@[k]) matches TargetType::FileServer(_),
    ensures
        server_ids_lt(s_new, c),
        server_ids_unique(s_new),
        forall|id: u32| server_has_id(s_new, id) ==> server_has_id(s_old, id),
{
    assert forall|st: bool, k: Seq<char>, id: u32|
        #[trigger] server_route_has_id(s_new, st, k, id) implies server_route_has_id(
        s_old,
        st,
        k,
        id,
    ) by {
        let m = if st {
            s_new.params.strict_targets@
        } else {
            s_new.params.targets@
        };
        assert(m.contains_key(k) && m[k].loc_id_of() == Option::Some(id));
    }
    assert forall|id: u32| server_has_id(s_new, id) implies server_has_id(s_old, id) by {
        let (st, k) = choose|st: bool, k: Seq<char>| server_route_has_id(s_new, st, k, id);
        assert(server_route_has_id(s_old, st, k, id));
    }
}

/// The compiled form of a file server's fallback: the target itself when it
/// names a file, else the custom missing-page, else nothing.
pub open spec fn spec_fs_fallback(fs: toml_model::FileServers) -> Option<Seq<char>> {
    if spec_path_and_file(fs.target@, fs.target_is_file).1 is Some {
        Option::Some(fs.target@)
    } else {
        match fs.custom_404 {
            Option::Some(c) => Option::Some(c@),
            Option::None => Option::None,
        }
    }
}

/// Compiles one declarative file server into the routing maps: one entry
/// under the service domain plus the normalized source, and one more per
/// authorized directory.
pub fn manage_file_servers(
    fs: &toml_model::FileServers,
    domain: &str,
    targets: &mut SortedStrMap<TargetType>,
    strict_targets: &mut SortedStrMap<TargetType>,
    headers: &ConfigHeaders,
    service_headers: Option<&toml_model::Headers>,
)
    requires
        old(targets).wf(),
        old(strict_targets).wf(),
        forall|k: Seq<char>| old(targets)@.contains_key(k) ==> (#[trigger] old(targets)@[k]).wf(),
        forall|k: Seq<char>| old(strict_targets)@.contains_key(k) ==> (
        #[trigger] old(strict_targets)@[k]).wf(),
        headers.wf(),
        match service_headers {
            Option::Some(h) => h.wf(),
            Option::None => true,
        },
        match fs.headers {
            Option::Some(a) => a.wf(),
            Option::None => true,
        },
        forall|k: Seq<char>|
            !(#[trigger] old(strict_targets)@.contains_key(k) && old(targets)@.contains_key(k)),
    ensures
        final(targets).wf(),
        final(strict_targets).wf(),
        forall|k: Seq<char>|
            !(#[trigger] final(strict_targets)@.contains_key(k) && final(
                targets)@.contains_key(k)),
        forall|k: Seq<char>| final(targets)@.contains_key(k) ==> (#[trigger] final(targets)@[k]).wf(),
        forall|k: Seq<char>| final(strict_targets)@.contains_key(k) ==> (
        #[trigger] final(strict_targets)@[k]).wf(),
        // every entry that is new or changed is a file server
        forall|k: Seq<char>|
            final(targets)@.contains_key(k) && !(old(targets)@.contains_key(k)
                && final(targets)@[k] == old(targets)@[k]) ==> (
            #[trigger] final(targets)@[k]) matches TargetType::FileServer(_),
        forall|k: Seq<char>|
            final(strict_targets)@.contains_key(k) && !(old(strict_targets)@.contains_key(k)
                && final(strict_targets)@[k] == old(strict_targets)@[k]) ==> (
            #[trigger] final(strict_targets)@[k]) matches TargetType::FileServer(_),
        forall|k: Seq<char>| old(targets)@.contains_key(k) ==> final(targets)@.contains_key(k),
        forall|k: Seq<char>|
            old(strict_targets)@.contains_key(k) ==> final(strict_targets)@.contains_key(k),
        // the main entry stands under domain + normalized source, in one of
        // the two tables
        ({
            let src = spec_source_mode(fs.source@);
            let key = domain@ + src.0;
            let m = if src.1 {
                final(strict_targets)@
            } else {
                final(targets)@
            };
            let other = if src.1 {
                old(targets)@
            } else {
                old(strict_targets)@
            };
            (m.contains_key(key) || other.contains_key(key)) && (!other.contains_key(key) ==> (
            m[key] matches TargetType::FileServer(_)) && (fs.authorized_dirs is None ==> (
            m[key] matches TargetType::FileServer(v) && {
                &&& v.params.location@ == spec_path_and_file(fs.target@, fs.target_is_file).0
                &&& v.forbidden_dir == DEFAULT_FORBIDDEN_DIR
                &&& v.is_fallback_404 == (spec_path_and_file(fs.target@, fs.target_is_file).1
                    is None && fs.custom_404 is Some)
                &&& match spec_fs_fallback(*fs) {
                    Option::Some(fb) => v.fallback_file matches Option::Some(f) && f@ == fb,
                    Option::None => v.fallback_file is None,
                }
            })))
        }),
        // one entry per authorized directory, in one of the two tables
        match fs.authorized_dirs {
            Option::Some(ads) => forall|i: int|
                0 <= i < ads@.len() ==> ({
                    let dir = spec_dir_mode((#[trigger] ads@[i])@);
                    let key = domain@ + spec_source_mode(fs.source@).0 + dir.0;
                    final(targets)@.contains_key(key) || final(strict_targets)@.contains_key(key)
                }),
            Option::None => true,
        },
{
    let (source, strict_mode) = source_and_strict_mode(fs.source.as_str());
    let (target_str, file_name) = get_path_and_file(fs.target.as_str(), fs.target_is_file);
    let mut is_fallback_404 = false;
    let file_path: Option<String> = if file_name.is_some() {
        Some(String::from_str(fs.target.as_str()))
    } else {
        match &fs.custom_404 {
            Option::Some(c) => {
                is_fallback_404 = true;
                Some(String::from_str(c.as_str()))
            },
            Option::None => None,
        }
    };
    let mut fs_headers = copy_config_headers(headers);
    match service_headers {
        Option::Some(service_header) => {
            match &service_header.file_servers {
                Option::Some(fsh) => {
                    merge_headers_actions(fsh, &mut fs_headers.response);
                },
                Option::None => {},
            }
        },
        Option::None => {},
    }
    match &fs.headers {
        Option::Some(ha) => {
            merge_headers_actions(ha, &mut fs_headers.response);
        },
        Option::None => {},
    }
    let mut key = String::from_str(domain);
    key.append(source);
    let ghost gmain_key = key@;
    proof {
        assert(gmain_key =~= domain@ + spec_source_mode(fs.source@).0);
    }
    let fallback_copy: Option<String> = match &file_path {
        Option::Some(f) => Some(String::from_str(f.as_str())),
        Option::None => None,
    };
    let main_target = TargetType::FileServer(
        FileServer {
            params: TargetParams {
                location: String::from_str(target_str.as_str()),
                headers: copy_config_headers(&fs_headers),
            },
            fallback_file: fallback_copy,
            is_fallback_404,
            forbidden_dir: DEFAULT_FORBIDDEN_DIR,
        },
    );
    let ghost gmain = main_target;
    if strict_mode {
        if !targets.contains_key(key.as_str()) {
            strict_targets.insert(key, main_target);
        }
    } else {
        if !strict_targets.contains_key(key.as_str()) {
            targets.insert(key, main_target);
        }
    }
    match &fs.authorized_dirs {
        Option::Some(ads) => {
            let n = ads.len();
            let mut i: usize = 0;
            while i < n
                invariant
                    i <= n,
                    n == ads@.len(),
                    targets.wf(),
                    strict_targets.wf(),
                    source@ == spec_source_mode(fs.source@).0,
                    target_str@ == spec_path_and_file(fs.target@, fs.target_is_file).0,
                    gmain_key == domain@ + spec_source_mode(fs.source@).0,
                    gmain matches TargetType::FileServer(_),
                    fs_headers.wf(),
                    forall|k: Seq<char>|
                        targets@.contains_key(k) ==> (#[trigger] targets@[k]).wf(),
                    forall|k: Seq<char>|
                        strict_targets@.contains_key(k) ==> (#[trigger] strict_targets@[k]).wf(),
                    forall|k: Seq<char>|
                        targets@.contains_key(k) && !(old(targets)@.contains_key(k) && targets@[k]
                            == old(targets)@[k]) ==> (
                        #[trigger] targets@[k]) matches TargetType::FileServer(_),
                    forall|k: Seq<char>|
                        strict_targets@.contains_key(k) && !(old(strict_targets)@.contains_key(k)
                            && strict_targets@[k] == old(strict_targets)@[k]) ==> (
                        #[trigger] strict_targets@[k]) matches TargetType::FileServer(_),
                    forall|k: Seq<char>| old(targets)@.contains_key(k) ==> targets@.contains_key(k),
                    forall|k: Seq<char>|
                        old(strict_targets)@.contains_key(k) ==> strict_targets@.contains_key(k),
                    forall|k: Seq<char>|
                        !(#[trigger] strict_targets@.contains_key(k) && targets@.contains_key(k)),
                    ({
                        let m = if spec_source_mode(fs.source@).1 {
                            strict_targets@
                        } else {
                            targets@
                        };
                        let other = if spec_source_mode(fs.source@).1 {
                            old(targets)@
                        } else {
                            old(strict_targets)@
                        };
                        (m.contains_key(gmain_key) || other.contains_key(gmain_key)) && (
                        !other.contains_key(gmain_key)
                            ==> m[gmain_key] matches TargetType::FileServer(_))
                    }),
                    forall|j: int|
                        0 <= j < i ==> ({
                            let dir = spec_dir_mode((#[trigger] ads@[j])@);
                            let key2 = domain@ + spec_source_mode(fs.source@).0 + dir.0;
                            targets@.contains_key(key2) || strict_targets@.contains_key(key2)
                        }),
                decreases n - i,
            {
                let (dir, dir_strict, access) = dir_strict_mode_and_access(ads[i].as_str());
                let mut dir_key = String::from_str(domain);
                dir_key.append(source);
                dir_key.append(dir);
                let mut dir_loc = String::from_str(target_str.as_str());
                dir_loc.append(dir);
                let fallback_copy2: Option<String> = match &file_path {
                    Option::Some(f) => Some(String::from_str(f.as_str())),
                    Option::None => None,
                };
                let ghost gdkey = dir_key@;
                proof {
                    assert(gdkey =~= domain@ + spec_source_mode(fs.source@).0 + spec_dir_mode(
                        ads@[i as int]@,
                    ).0);
                }
                let dir_target = TargetType::FileServer(
                    FileServer {
                        params: TargetParams {
                            location: dir_loc,
                            headers: copy_config_headers(&fs_headers),
                        },
                        fallback_file: fallback_copy2,
                        is_fallback_404,
                        forbidden_dir: access,
                    },
                );
                if dir_strict {
                    if !targets.contains_key(dir_key.as_str()) {
                        strict_targets.insert(dir_key, dir_target);
                    }
                } else {
                    if !strict_targets.contains_key(dir_key.as_str()) {
                        targets.insert(dir_key, dir_target);
                    }
                }
                i += 1;
                proof {
                    assert forall|j: int|
                        0 <= j < i implies ({
                        let dir2 = spec_dir_mode((#[trigger] ads@[j])@);
                        let key2 = domain@ + spec_source_mode(fs.source@).0 + dir2.0;
                        targets@.contains_key(key2) || strict_targets@.contains_key(key2)
                    }) by {
                        if j == i - 1 {
                            assert(gdkey == domain@ + spec_source_mode(fs.source@).0
                                + spec_dir_mode(ads@[j]@).0);
                        }
                    }
                }
            }
        },
        Option::None => {},
    }
}


/// How many proxy routes a service declares.
pub open spec fn num_locations(service: toml_model::Service) -> nat {
    match service.locations {
        Option::Some(ls) => ls@.len() as nat,
        Option::None => 0,
    }
}

/// A pool can serve a location: it has a backend, and its weights, if any
/// reach across all backends, carry at least one positive entry.
pub open spec fn lb_pool_ok(lb: toml_model::Loadbalancer) -> bool {
    &&& lb.backends@.len() >= 1
    &&& match lb.weights {
        Option::Some(w) => w@.len() >= lb.backends@.len() ==> (exists|i: int|
            0 <= i < lb.backends@.len() && w@[i] > 0),
        Option::None => true,
    }
}

/// Every location target that names a pool variable names a declared,
/// serviceable pool.
pub open spec fn service_lb_ok(
    service: toml_model::Service,
    loadbalancers: Option<StrMap<toml_model::Loadbalancer>>,
) -> bool {
    match service.locations {
        Option::Some(ls) => forall|i: int|
            0 <= i < ls@.len() ==> ({
                let keys = spec_extract_vars((#[trigger] ls@[i]).target@, 0);
                keys.len() > 0 ==> (loadbalancers matches Option::Some(m) && m@.contains_key(
                    keys[0],
                ) && lb_pool_ok(m@[keys[0]]))
            }),
        Option::None => true,
    }
}


/// The compiled form of one declarative location: a plain target compiles
/// into a single backend; a `${pool}` target expands into one backend per
/// pool entry with the pool's algorithm and its weights aligned.
pub open spec fn compiled_location(
    domain: Seq<char>,
    loc: toml_model::Locations,
    loadbalancers: Option<StrMap<toml_model::Loadbalancer>>,
    l: Locations,
) -> bool {
    let keys = spec_extract_vars(loc.target@, 0);
    if keys.len() == 0 {
        &&& l.params.location@.len() == 1
        &&& l.params.location@[0]@ == loc.target@
        &&& l.algo is None
        &&& l.weights is None
    } else {
        let lb = loadbalancers.unwrap()@[keys[0]];
        let n = lb.backends@.len();
        &&& l.params.location@.len() == n
        &&& forall|b: int|
            0 <= b < n ==> (#[trigger] l.params.location@[b])@ == spec_replace_all(
                loc.target@,
                var_pattern(keys[0]),
                lb.backends@[b]@,
            )
        &&& (l.algo matches Option::Some(a) && a@ == lb.algo@)
        &&& match lb.weights {
            Option::Some(w) => l.weights matches Option::Some(nw) && nw@.len() == n && (forall|
                b: int,
            |
                0 <= b < n ==> nw@[b] == (if b < w@.len() {
                    w@[b]
                } else {
                    1u32
                })),
            Option::None => l.weights is None,
        }
    }
}

/// The route at `k` is the compiled form of one of the service's declared
/// locations.
pub open spec fn route_loc_from_service(
    service: toml_model::Service,
    loadbalancers: Option<StrMap<toml_model::Loadbalancer>>,
    k: Seq<char>,
    l: Locations,
) -> bool {
    exists|j: int|
        0 <= j < num_locations(service) && ({
            let loc = #[trigger] service.locations.unwrap()@[j];
            compiled_location(service.domain@, loc, loadbalancers, l) && k == service.domain@
                + spec_source_mode(loc.source@).0
        })
}


/// The redirect status a declared code compiles to: kept when it is one of
/// the four redirect codes, else 301.
pub open spec fn spec_red_code(code: Option<u16>) -> u16 {
    match code {
        Option::Some(c) => if c == 301 || c == 302 || c == 307 || c == 308 {
            c
        } else {
            301u16
        },
        Option::None => 301u16,
    }
}

/// The compiled form of one declared redirection: the declared target
/// verbatim and the normalized code.
pub open spec fn compiled_redirection(r: toml_model::Redirections, red: Redirection) -> bool {
    red.code == spec_red_code(r.code) && red.params.location@ == r.target@
}

/// The redirect at `k` is the compiled form of one of the service's
/// declared redirections.
pub open spec fn route_red_from_service(
    service: toml_model::Service,
    k: Seq<char>,
    red: Redirection,
) -> bool {
    match service.redirections {
        Option::Some(rs) => exists|j: int|
            0 <= j < rs@.len() && compiled_redirection(#[trigger] rs@[j], red) && k
                == service.domain@ + spec_source_mode(rs@[j].source@).0,
        Option::None => false,
    }
}

/// The redirect at `k` is the `www` canonicalization of the service's
/// domain: a permanent redirect at the twin key pointing at the domain.
pub open spec fn is_www_redirect_of(
    svc: toml_model::Service,
    k: Seq<char>,
    red: Redirection,
) -> bool {
    k == www_source_key(svc.domain@) && red.code == 301 && red.params.headers.request is None
        && red.params.headers.response is None && exists|p: u16, t: bool|
        red.params.location@ == www_target_url(svc.domain@, p, t)
}

/// The compiled ports and upstream deadline of a server: the declared
/// values with their defaults, and the synthesized `main` with all three
/// defaults; no other server exists.
pub open spec fn server_decl_ok(
    config: toml_model::ConfigToml,
    sk: Seq<char>,
    s: Server,
) -> bool {
    match config.servers {
        Option::Some(sm) => if sm@.contains_key(sk) {
            &&& s.port == (match sm@[sk].port {
                Option::Some(p) => p,
                Option::None => DEFAULT_PORT,
            })
            &&& s.https_port == (match sm@[sk].https_port {
                Option::Some(p) => p,
                Option::None => DEFAULT_PORT_HTTPS,
            })
            &&& s.params.proxy_timeout == (match sm@[sk].proxy_timeout {
                Option::Some(t) => t,
                Option::None => DEFAULT_PROXY_TIMEOUT,
            })
        } else {
            sk == "main"@ && s.port == DEFAULT_PORT && s.https_port == DEFAULT_PORT_HTTPS
                && s.params.proxy_timeout == DEFAULT_PROXY_TIMEOUT
        },
        Option::None => sk == "main"@ && s.port == DEFAULT_PORT && s.https_port
            == DEFAULT_PORT_HTTPS && s.params.proxy_timeout == DEFAULT_PROXY_TIMEOUT,
    }
}

/// The auto-TLS entries the first `upto` services leave on the server
/// `sk`, in service order: one entry per attached TLS service whose
/// redirection is not switched off.
pub open spec fn auto_entries(
    svcs: Seq<(String, toml_model::Service)>,
    upto: int,
    sk: Seq<char>,
    https_port: u16,
) -> Seq<Seq<char>>
    decreases upto when upto >= 0
{
    if upto <= 0 {
        Seq::empty()
    } else {
        let rest = auto_entries(svcs, upto - 1, sk, https_port);
        let svc = svcs[upto - 1].1;
        if spec_resolved_server(svc) == sk && (svc.tls matches Option::Some(t) && t.redirection
            != Option::Some(false)) {
            rest.push(spec_tls_entry(svc.domain@, https_port))
        } else {
            rest
        }
    }
}

/// The contents of an auto-TLS list.
pub open spec fn auto_tls_seq(o: Option<Vec<String>>) -> Seq<Seq<char>> {
    match o {
        Option::Some(v) => v@.map_values(|s: String| s@),
        Option::None => Seq::empty(),
    }
}

/// The certificate pairs the first `upto` services leave on the server
/// `sk`, appended in service order and deduplicated by equality.
pub open spec fn tls_entries(
    svcs: Seq<(String, toml_model::Service)>,
    upto: int,
    sk: Seq<char>,
) -> Seq<(Seq<char>, Seq<char>)>
    decreases upto when upto >= 0
{
    if upto <= 0 {
        Seq::empty()
    } else {
        let rest = tls_entries(svcs, upto - 1, sk);
        let svc = svcs[upto - 1].1;
        match svc.tls {
            Option::Some(t) => if spec_resolved_server(svc) == sk {
                if rest.contains((t.certificate@, t.key@)) {
                    rest
                } else {
                    rest.push((t.certificate@, t.key@))
                }
            } else {
                rest
            },
            Option::None => rest,
        }
    }
}

/// The contents of a certificate list.
pub open spec fn tls_seq(o: Option<Vec<TlsCertificate>>) -> Seq<(Seq<char>, Seq<char>)> {
    match o {
        Option::Some(v) => v@.map_values(|c: TlsCertificate| (c.cert@, c.key@)),
        Option::None => Seq::empty(),
    }
}

/// The route key stands in one of the two tables.
pub open spec fn route_key_present(p: ServerParams, k: Seq<char>) -> bool {
    p.targets@.contains_key(k) || p.strict_targets@.contains_key(k)
}

/// A proxy or redirect route either stood in the map before or was
/// compiled from this service.
pub open spec fn loc_value_ok(
    old_m: Map<Seq<char>, TargetType>,
    m: Map<Seq<char>, TargetType>,
    k: Seq<char>,
    service: toml_model::Service,
    loadbalancers: Option<StrMap<toml_model::Loadbalancer>>,
) -> bool {
    match m[k] {
        TargetType::Location(l) => (old_m.contains_key(k) && old_m[k] == m[k])
            || route_loc_from_service(service, loadbalancers, k, l),
        TargetType::Redirection(red) => (old_m.contains_key(k) && old_m[k] == m[k])
            || route_red_from_service(service, k, red),
        TargetType::FileServer(_) => true,
    }
}


/// A route value comes from one of the first `upto` services: a proxy
/// route is the compiled form of one of their declared locations.
pub open spec fn value_from_services(
    t: TargetType,
    svcs: Seq<(String, toml_model::Service)>,
    upto: int,
    loadbalancers: Option<StrMap<toml_model::Loadbalancer>>,
    k: Seq<char>,
) -> bool {
    match t {
        TargetType::Location(l) => exists|j: int|
            0 <= j < upto && route_loc_from_service(
                (#[trigger] svcs[j]).1,
                loadbalancers,
                k,
                l,
            ),
        TargetType::Redirection(red) => exists|j: int|
            0 <= j < upto && (route_red_from_service((#[trigger] svcs[j]).1, k, red)
                || is_www_redirect_of(svcs[j].1, k, red)),
        TargetType::FileServer(_) => true,
    }
}

/// Every proxy route of the map comes from one of the first `upto`
/// services.
pub open spec fn locs_from(
    m: Map<Seq<char>, TargetType>,
    svcs: Seq<(String, toml_model::Service)>,
    upto: int,
    loadbalancers: Option<StrMap<toml_model::Loadbalancer>>,
) -> bool {
    forall|k: Seq<char>|
        m.contains_key(k) ==> value_from_services(#[trigger] m[k], svcs, upto, loadbalancers, k)
}

/// Every proxy route of the whole table comes from one of the first
/// `upto` services.
pub open spec fn config_locs_from(
    servers: Map<Seq<char>, Server>,
    svcs: Seq<(String, toml_model::Service)>,
    upto: int,
    loadbalancers: Option<StrMap<toml_model::Loadbalancer>>,
) -> bool {
    forall|sk: Seq<char>|
        servers.contains_key(sk) ==> (locs_from(
            (#[trigger] servers[sk]).params.targets@,
            svcs,
            upto,
            loadbalancers,
        ) && locs_from(servers[sk].params.strict_targets@, svcs, upto, loadbalancers))
}

/// Compiles one service into its server: proxy locations, file servers and
/// redirections, each under the service domain plus its normalized source.
pub fn manage_server_targets(
    server: &mut Server,
    service: &toml_model::Service,
    loadbalancers: &Option<StrMap<toml_model::Loadbalancer>>,
    server_headers: Option<&toml_model::Headers>,
    ids: &mut IdGen,
)
    requires
        old(server).wf(),
        service.wf(),
        match server_headers {
            Option::Some(h) => h.wf(),
            Option::None => true,
        },
        match *loadbalancers {
            Option::Some(m) => m.wf(),
            Option::None => true,
        },
        service_lb_ok(*service, *loadbalancers),
        disjoint_targets(old(server).params),
        server_ids_lt(*old(server), old(ids).counter as nat),
        server_ids_unique(*old(server)),
        old(ids).counter + num_locations(*service) <= u32::MAX,
    ensures
        final(server).wf(),
        disjoint_targets(final(server).params),
        old(ids).counter <= final(ids).counter <= old(ids).counter + num_locations(*service),
        server_ids_lt(*final(server), final(ids).counter as nat),
        server_ids_unique(*final(server)),
        forall|id: u32|
            server_has_id(*final(server), id) ==> server_has_id(*old(server), id) || (old(
                ids,
            ).counter <= id < final(ids).counter),
        final(server).port == old(server).port,
        final(server).https_port == old(server).https_port,
        final(server).tls == old(server).tls,
        final(server).params.auto_tls == old(server).params.auto_tls,
        final(server).params.proxy_timeout == old(server).params.proxy_timeout,
        forall|k: Seq<char>|
            #[trigger] final(server).params.targets@.contains_key(k) ==> loc_value_ok(
                old(server).params.targets@,
                final(server).params.targets@,
                k,
                *service,
                *loadbalancers,
            ),
        forall|k: Seq<char>|
            #[trigger] final(server).params.strict_targets@.contains_key(k) ==> loc_value_ok(
                old(server).params.strict_targets@,
                final(server).params.strict_targets@,
                k,
                *service,
                *loadbalancers,
            ),
        match service.locations {
            Option::Some(ls) => forall|i: int|
                0 <= i < ls@.len() ==> route_key_present(
                    final(server).params,
                    service.domain@ + spec_source_mode((#[trigger] ls@[i]).source@).0,
                ),
            Option::None => true,
        },
        match service.file_servers {
            Option::Some(fss) => forall|i: int|
                0 <= i < fss@.len() ==> route_key_present(
                    final(server).params,
                    service.domain@ + spec_source_mode((#[trigger] fss@[i]).source@).0,
                ),
            Option::None => true,
        },
        match service.redirections {
            Option::Some(rs) => forall|i: int|
                0 <= i < rs@.len() ==> route_key_present(
                    final(server).params,
                    service.domain@ + spec_source_mode((#[trigger] rs@[i]).source@).0,
                ),
            Option::None => true,
        },
{
    let (l_headers, fs_headers) = get_config_headers_from(server_headers);
    match &service.locations {
        Option::Some(locations) => {
            let n = locations.len();
            let mut i: usize = 0;
            while i < n
                invariant
                    i <= n,
                    n == locations@.len(),
                    locations@ == service.locations.unwrap()@,
                    service.locations is Some,
                    service.wf(),
                    l_headers.wf(),
                    match *loadbalancers {
                        Option::Some(m) => m.wf(),
                        Option::None => true,
                    },
                    service_lb_ok(*service, *loadbalancers),
                    server.wf(),
                    old(ids).counter <= ids.counter <= old(ids).counter + i,
                    old(ids).counter + n <= u32::MAX,
                    server_ids_lt(*server, ids.counter as nat),
                    server_ids_unique(*server),
                    forall|id: u32|
                        server_has_id(*server, id) ==> server_has_id(*old(server), id) || (old(
                            ids,
                        ).counter <= id < ids.counter),
                    server.port == old(server).port,
                    server.https_port == old(server).https_port,
                    server.tls == old(server).tls,
                    server.params.auto_tls == old(server).params.auto_tls,
                    server.params.proxy_timeout == old(server).params.proxy_timeout,
                    disjoint_targets(server.params),
                    forall|j: int|
                        0 <= j < i ==> route_key_present(
                            server.params,
                            service.domain@ + spec_source_mode(
                                (#[trigger] locations@[j]).source@,
                            ).0,
                        ),
                    forall|k: Seq<char>|
                        #[trigger] server.params.targets@.contains_key(k) ==> loc_value_ok(
                            old(server).params.targets@,
                            server.params.targets@,
                            k,
                            *service,
                            *loadbalancers,
                        ),
                    forall|k: Seq<char>|
                        #[trigger] server.params.strict_targets@.contains_key(k) ==> loc_value_ok(
                            old(server).params.strict_targets@,
                            server.params.strict_targets@,
                            k,
                            *service,
                            *loadbalancers,
                        ),
                decreases n - i,
            {
                let location = &locations[i];
                let mut headers = copy_config_headers(&l_headers);
                proof {
                    assert(match location.headers {
                        Option::Some(t) => t.wf(),
                        Option::None => true,
                    });
                }
                let ht: Option<&toml_model::HeaderType> = match &service.headers {
                    Option::Some(h) => match &h.locations {
                        Option::Some(t) => Some(t),
                        Option::None => None,
                    },
                    Option::None => None,
                };
                apply_header_actions(ht, &mut headers);
                let lht: Option<&toml_model::HeaderType> = match &location.headers {
                    Option::Some(t) => Some(t),
                    Option::None => None,
                };
                apply_header_actions(lht, &mut headers);
                let (source, strict_mode) = source_and_strict_mode(location.source.as_str());
                let (backends, algo, weight) = get_backends_config(
                    location.target.as_str(),
                    loadbalancers,
                );
                let mut key = String::from_str(service.domain.as_str());
                key.append(source);
                let ghost gkey = key@;
                let id = ids.generate_u32_id();
                proof {
                    let keys = spec_extract_vars(location.target@, 0);
                    assert(locations@[i as int] == *location);
                    if keys.len() > 0 {
                        let m = loadbalancers.unwrap();
                        assert(m@.contains_key(keys[0]) && lb_pool_ok(m@[keys[0]]));
                        let lb = m@[keys[0]];
                        let n = lb.backends@.len();
                        assert(backends@.len() == n >= 1);
                        match lb.weights {
                            Option::Some(w) => {
                                let nw = weight.unwrap();
                                if w@.len() < n {
                                    let i0 = w@.len() as int;
                                    assert(0 <= i0 < n && nw@[i0] == 1u32);
                                } else {
                                    let i0 = choose|i0: int|
                                        0 <= i0 < lb.backends@.len() && lb.weights.unwrap()@[i0]
                                            > 0;
                                    assert(nw@[i0] == w@[i0]);
                                }
                                assert(exists|j: int| 0 <= j < nw@.len() && nw@[j] > 0);
                            },
                            Option::None => {},
                        }
                    }
                }
                let loc_value = Locations {
                    id,
                    params: TargetParams { location: backends, headers },
                    algo,
                    weights: weight,
                };
                let ghost gloc = loc_value;
                let target = TargetType::Location(loc_value);
                let ghost s_before = *server;
                if strict_mode {
                    server.params.insert_strict(key, target);
                } else {
                    server.params.insert_prefix(key, target);
                }
                proof {
                    assert(gkey =~= service.domain@ + spec_source_mode(location.source@).0);
                    let shadowed = if strict_mode {
                        s_before.params.targets@.contains_key(gkey)
                    } else {
                        s_before.params.strict_targets@.contains_key(gkey)
                    };
                    if shadowed {
                        assert(*server == s_before);
                        assert(route_key_present(server.params, gkey));
                    } else {
                        lemma_insert_loc_ids(
                            s_before,
                            *server,
                            strict_mode,
                            gkey,
                            gloc,
                            (ids.counter - 1) as nat,
                        );
                        assert(compiled_location(
                            service.domain@,
                            locations@[i as int],
                            *loadbalancers,
                            gloc,
                        ));
                        assert(route_loc_from_service(*service, *loadbalancers, gkey, gloc));
                        assert forall|k: Seq<char>|
                            #[trigger] server.params.targets@.contains_key(k) implies loc_value_ok(
                            old(server).params.targets@,
                            server.params.targets@,
                            k,
                            *service,
                            *loadbalancers,
                        ) by {
                            if !strict_mode && k == gkey {
                                assert(server.params.targets@[k] == TargetType::Location(gloc));
                            } else {
                                assert(server.params.targets@[k] == s_before.params.targets@[k]);
                                assert(s_before.params.targets@.contains_key(k));
                            }
                        }
                        assert forall|k: Seq<char>|
                            #[trigger] server.params.strict_targets@.contains_key(k) implies
                            loc_value_ok(
                            old(server).params.strict_targets@,
                            server.params.strict_targets@,
                            k,
                            *service,
                            *loadbalancers,
                        ) by {
                            if strict_mode && k == gkey {
                                assert(server.params.strict_targets@[k] == TargetType::Location(
                                    gloc,
                                ));
                            } else {
                                assert(server.params.strict_targets@[k]
                                    == s_before.params.strict_targets@[k]);
                                assert(s_before.params.strict_targets@.contains_key(k));
                            }
                        }
                    }
                }
                i += 1;
            }
        },
        Option::None => {},
    }
    match &service.file_servers {
        Option::Some(file_server) => {
            let n = file_server.len();
            let mut i: usize = 0;
            while i < n
                invariant
                    i <= n,
                    n == file_server@.len(),
                    file_server@ == service.file_servers.unwrap()@,
                    service.file_servers is Some,
                    service.wf(),
                    fs_headers.wf(),
                    server.wf(),
                    old(ids).counter <= ids.counter <= old(ids).counter + num_locations(*service),
                    server_ids_lt(*server, ids.counter as nat),
                    server_ids_unique(*server),
                    forall|id: u32|
                        server_has_id(*server, id) ==> server_has_id(*old(server), id) || (old(
                            ids,
                        ).counter <= id < ids.counter),
                    server.port == old(server).port,
                    server.https_port == old(server).https_port,
                    server.tls == old(server).tls,
                    server.params.auto_tls == old(server).params.auto_tls,
                    server.params.proxy_timeout == old(server).params.proxy_timeout,
                    disjoint_targets(server.params),
                    match service.locations {
                        Option::Some(ls) => forall|j: int|
                            0 <= j < ls@.len() ==> route_key_present(
                                server.params,
                                service.domain@ + spec_source_mode(
                                    (#[trigger] ls@[j]).source@,
                                ).0,
                            ),
                        Option::None => true,
                    },
                    forall|j: int|
                        0 <= j < i ==> route_key_present(
                            server.params,
                            service.domain@ + spec_source_mode(
                                (#[trigger] file_server@[j]).source@,
                            ).0,
                        ),
                    forall|k: Seq<char>|
                        #[trigger] server.params.targets@.contains_key(k) ==> loc_value_ok(
                            old(server).params.targets@,
                            server.params.targets@,
                            k,
                            *service,
                            *loadbalancers,
                        ),
                    forall|k: Seq<char>|
                        #[trigger] server.params.strict_targets@.contains_key(k) ==> loc_value_ok(
                            old(server).params.strict_targets@,
                            server.params.strict_targets@,
                            k,
                            *service,
                            *loadbalancers,
                        ),
                decreases n - i,
            {
                let fs = &file_server[i];
                proof {
                    assert(match fs.headers {
                        Option::Some(a) => a.wf(),
                        Option::None => true,
                    });
                }
                let sh: Option<&toml_model::Headers> = match &service.headers {
                    Option::Some(h) => Some(h),
                    Option::None => None,
                };
                let ghost s_before = *server;
                manage_file_servers(
                    fs,
                    service.domain.as_str(),
                    &mut server.params.targets,
                    &mut server.params.strict_targets,
                    &fs_headers,
                    sh,
                );
                proof {
                    lemma_fs_frame_ids(s_before, *server, ids.counter as nat);
                    assert forall|k: Seq<char>|
                        #[trigger] server.params.targets@.contains_key(k) implies loc_value_ok(
                        old(server).params.targets@,
                        server.params.targets@,
                        k,
                        *service,
                        *loadbalancers,
                    ) by {
                        match server.params.targets@[k] {
                            TargetType::FileServer(_) => {},
                            _ => {
                                assert(s_before.params.targets@.contains_key(k)
                                    && server.params.targets@[k] == s_before.params.targets@[k]);
                                assert(loc_value_ok(
                                    old(server).params.targets@,
                                    s_before.params.targets@,
                                    k,
                                    *service,
                                    *loadbalancers,
                                ));
                            },
                        }
                    }
                    assert forall|k: Seq<char>|
                        #[trigger] server.params.strict_targets@.contains_key(k) implies
                        loc_value_ok(
                        old(server).params.strict_targets@,
                        server.params.strict_targets@,
                        k,
                        *service,
                        *loadbalancers,
                    ) by {
                        match server.params.strict_targets@[k] {
                            TargetType::FileServer(_) => {},
                            _ => {
                                assert(s_before.params.strict_targets@.contains_key(k)
                                    && server.params.strict_targets@[k]
                                    == s_before.params.strict_targets@[k]);
                                assert(loc_value_ok(
                                    old(server).params.strict_targets@,
                                    s_before.params.strict_targets@,
                                    k,
                                    *service,
                                    *loadbalancers,
                                ));
                            },
                        }
                    }
                }
                i += 1;
            }
        },
        Option::None => {},
    }
    match &service.redirections {
        Option::Some(redirections) => {
            let n = redirections.len();
            let mut i: usize = 0;
            while i < n
                invariant
                    i <= n,
                    n == redirections@.len(),
                    redirections@ == service.redirections.unwrap()@,
                    service.redirections is Some,
                    service.wf(),
                    server.wf(),
                    old(ids).counter <= ids.counter <= old(ids).counter + num_locations(*service),
                    server_ids_lt(*server, ids.counter as nat),
                    server_ids_unique(*server),
                    forall|id: u32|
                        server_has_id(*server, id) ==> server_has_id(*old(server), id) || (old(
                            ids,
                        ).counter <= id < ids.counter),
                    server.port == old(server).port,
                    server.https_port == old(server).https_port,
                    server.tls == old(server).tls,
                    server.params.auto_tls == old(server).params.auto_tls,
                    server.params.proxy_timeout == old(server).params.proxy_timeout,
                    disjoint_targets(server.params),
                    match service.locations {
                        Option::Some(ls) => forall|j: int|
                            0 <= j < ls@.len() ==> route_key_present(
                                server.params,
                                service.domain@ + spec_source_mode(
                                    (#[trigger] ls@[j]).source@,
                                ).0,
                            ),
                        Option::None => true,
                    },
                    match service.file_servers {
                        Option::Some(fss) => forall|j: int|
                            0 <= j < fss@.len() ==> route_key_present(
                                server.params,
                                service.domain@ + spec_source_mode(
                                    (#[trigger] fss@[j]).source@,
                                ).0,
                            ),
                        Option::None => true,
                    },
                    forall|j: int|
                        0 <= j < i ==> route_key_present(
                            server.params,
                            service.domain@ + spec_source_mode(
                                (#[trigger] redirections@[j]).source@,
                            ).0,
                        ),
                    forall|k: Seq<char>|
                        #[trigger] server.params.targets@.contains_key(k) ==> loc_value_ok(
                            old(server).params.targets@,
                            server.params.targets@,
                            k,
                            *service,
                            *loadbalancers,
                        ),
                    forall|k: Seq<char>|
                        #[trigger] server.params.strict_targets@.contains_key(k) ==> loc_value_ok(
                            old(server).params.strict_targets@,
                            server.params.strict_targets@,
                            k,
                            *service,
                            *loadbalancers,
                        ),
                decreases n - i,
            {
                let red = &redirections[i];
                let (source, strict_mode) = source_and_strict_mode(red.source.as_str());
                let mut key = String::from_str(service.domain.as_str());
                key.append(source);
                let ghost gkey = key@;
                let code: u16 = match red.code {
                    Option::Some(c) => {
                        if c == 301 || c == 302 || c == 307 || c == 308 {
                            c
                        } else {
                            DEFAULT_REDIRECTION_CODE
                        }
                    },
                    Option::None => DEFAULT_REDIRECTION_CODE,
                };
                let target = TargetType::Redirection(
                    Redirection {
                        params: TargetParams {
                            location: String::from_str(red.target.as_str()),
                            headers: ConfigHeaders::default(),
                        },
                        code,
                    },
                );
                let ghost s_before = *server;
                let ghost gtarget = target;
                if strict_mode {
                    server.params.insert_strict(key, target);
                } else {
                    server.params.insert_prefix(key, target);
                }
                proof {
                    assert(gkey =~= service.domain@ + spec_source_mode(red.source@).0);
                    let shadowed = if strict_mode {
                        s_before.params.targets@.contains_key(gkey)
                    } else {
                        s_before.params.strict_targets@.contains_key(gkey)
                    };
                    if shadowed {
                        assert(*server == s_before);
                        assert(route_key_present(server.params, gkey));
                    } else {
                        lemma_insert_nonloc_ids(
                            s_before,
                            *server,
                            strict_mode,
                            gkey,
                            gtarget,
                            ids.counter as nat,
                        );
                        assert(gtarget matches TargetType::Redirection(gred)
                            && compiled_redirection(redirections@[i as int], gred));
                        assert(gtarget matches TargetType::Redirection(gred)
                            && route_red_from_service(*service, gkey, gred));
                        assert forall|k: Seq<char>|
                            #[trigger] server.params.targets@.contains_key(k) implies loc_value_ok(
                            old(server).params.targets@,
                            server.params.targets@,
                            k,
                            *service,
                            *loadbalancers,
                        ) by {
                            if !(!strict_mode && k == gkey) {
                                assert(server.params.targets@[k] == s_before.params.targets@[k]);
                                assert(s_before.params.targets@.contains_key(k));
                            }
                        }
                        assert forall|k: Seq<char>|
                            #[trigger] server.params.strict_targets@.contains_key(k) implies
                            loc_value_ok(
                            old(server).params.strict_targets@,
                            server.params.strict_targets@,
                            k,
                            *service,
                            *loadbalancers,
                        ) by {
                            if !(strict_mode && k == gkey) {
                                assert(server.params.strict_targets@[k]
                                    == s_before.params.strict_targets@[k]);
                                assert(s_before.params.strict_targets@.contains_key(k));
                            }
                        }
                    }
                }
                i += 1;
            }
        },
        Option::None => {},
    }
}




/// Two servers with the same routing maps carry the same ids.
proof fn lemma_ids_by_maps(a: Server, b: Server, c: nat)
    requires
        a.params.targets@ == b.params.targets@,
        a.params.strict_targets@ == b.params.strict_targets@,
        server_ids_lt(a, c),
        server_ids_unique(a),
    ensures
        server_ids_lt(b, c),
        server_ids_unique(b),
        forall|id: u32| server_has_id(b, id) ==> server_has_id(a, id),
{
    assert forall|st: bool, k: Seq<char>, id: u32|
        #[trigger] server_route_has_id(b, st, k, id) implies server_route_has_id(a, st, k, id) by {}
    assert forall|s1: bool, k1: Seq<char>, s2: bool, k2: Seq<char>, id: u32|
        #[trigger] server_route_has_id(b, s1, k1, id) && #[trigger] server_route_has_id(
        b,
        s2,
        k2,
        id,
    ) implies s1 == s2 && k1 == k2 by {
        assert(server_route_has_id(a, s1, k1, id));
        assert(server_route_has_id(a, s2, k2, id));
    }
    assert forall|id: u32| server_has_id(b, id) implies server_has_id(a, id) by {
        let (st, k) = choose|st: bool, k: Seq<char>| server_route_has_id(b, st, k, id);
        assert(server_route_has_id(a, st, k, id));
    }
}

/// The server a service attaches to: the named one, or `main`.
pub open spec fn spec_resolved_server(svc: toml_model::Service) -> Seq<char> {
    match svc.server {
        Option::Some(s) => s@,
        Option::None => "main"@,
    }
}

/// Every service names a declared server, or attaches to `main`.
pub open spec fn services_resolvable(config: toml_model::ConfigToml) -> bool {
    match config.services {
        Option::Some(svcs) => forall|i: int|
            0 <= i < svcs.entries_seq().len() ==> ({
                let name = spec_resolved_server((#[trigger] svcs.entries_seq()[i]).1);
                name == "main"@ || (config.servers matches Option::Some(sm) && sm@.contains_key(
                    name,
                ))
            }),
        Option::None => true,
    }
}

/// Every service's locations can resolve their pools.
pub open spec fn config_lb_ok(config: toml_model::ConfigToml) -> bool {
    match config.services {
        Option::Some(svcs) => forall|i: int|
            0 <= i < svcs.entries_seq().len() ==> service_lb_ok(
                (#[trigger] svcs.entries_seq()[i]).1,
                config.loadbalancers,
            ),
        Option::None => true,
    }
}

/// The proxy routes declared by a sequence of services.
pub open spec fn sum_locs(entries: Seq<(String, toml_model::Service)>) -> nat
    decreases entries.len(),
{
    if entries.len() == 0 {
        0
    } else {
        sum_locs(entries.drop_last()) + num_locations(entries.last().1)
    }
}

/// The proxy routes the whole configuration declares.
pub open spec fn spec_total_locations(config: toml_model::ConfigToml) -> nat {
    match config.services {
        Option::Some(m) => sum_locs(m.entries_seq()),
        Option::None => 0,
    }
}

proof fn lemma_sum_locs_take_step(entries: Seq<(String, toml_model::Service)>, i: int)
    requires
        0 <= i < entries.len(),
    ensures
        sum_locs(entries.take(i + 1)) == sum_locs(entries.take(i)) + num_locations(entries[i].1),
{
    assert(entries.take(i + 1).drop_last() =~= entries.take(i));
}

proof fn lemma_sum_locs_take_bound(entries: Seq<(String, toml_model::Service)>, i: int)
    requires
        0 <= i <= entries.len(),
    ensures
        sum_locs(entries.take(i)) <= sum_locs(entries),
    decreases entries.len(),
{
    if i == entries.len() {
        assert(entries.take(i) =~= entries);
    } else {
        assert(entries.take(i) =~= entries.drop_last().take(i));
        lemma_sum_locs_take_bound(entries.drop_last(), i);
    }
}

/// The server's auto-TLS list contains the entry.
pub open spec fn auto_tls_contains(s: Server, entry: Seq<char>) -> bool {
    s.params.auto_tls matches Option::Some(v) && exists|i: int|
        0 <= i < v@.len() && (#[trigger] v@[i])@ == entry
}

/// The host under which a service's plain-HTTP traffic is redirected: the
/// apex domain, with the HTTPS port attached when it is not the default.
pub open spec fn spec_tls_entry(domain: Seq<char>, https_port: u16) -> Seq<char> {
    if https_port != 443 {
        domain + ":"@ + spec_dec(https_port as nat)
    } else {
        domain
    }
}

/// The service's auto-TLS entry stands in its server's list.
pub open spec fn service_auto_tls_ok(svc: toml_model::Service, ms: Map<Seq<char>, Server>) -> bool {
    (svc.tls matches Option::Some(t) && t.redirection != Option::Some(false)) ==> ({
        let name = spec_resolved_server(svc);
        ms.contains_key(name) && auto_tls_contains(
            ms[name],
            spec_tls_entry(svc.domain@, ms[name].https_port),
        )
    })
}

/// One list of hosts extends another: same entries, possibly more after.
pub open spec fn auto_tls_extends(a: Option<Vec<String>>, b: Option<Vec<String>>) -> bool {
    match a {
        Option::Some(v) => b matches Option::Some(w) && v@.len() <= w@.len() && (forall|i: int|
            0 <= i < v@.len() ==> w@[i] == v@[i]),
        Option::None => true,
    }
}

proof fn lemma_auto_tls_contains_extends(s_old: Server, s_new: Server, entry: Seq<char>)
    requires
        auto_tls_contains(s_old, entry),
        auto_tls_extends(s_old.params.auto_tls, s_new.params.auto_tls),
    ensures
        auto_tls_contains(s_new, entry),
{
    let v = s_old.params.auto_tls.unwrap();
    let i = choose|i: int| 0 <= i < v@.len() && (#[trigger] v@[i])@ == entry;
    let w = s_new.params.auto_tls.unwrap();
    assert(w@[i] == v@[i]);
}

proof fn lemma_service_auto_tls_preserved(
    svc: toml_model::Service,
    ms_old: Map<Seq<char>, Server>,
    ms_new: Map<Seq<char>, Server>,
    name2: Seq<char>,
    s_new: Server,
)
    requires
        service_auto_tls_ok(svc, ms_old),
        ms_old.contains_key(name2),
        ms_new == ms_old.insert(name2, s_new),
        auto_tls_extends(ms_old[name2].params.auto_tls, s_new.params.auto_tls),
        s_new.https_port == ms_old[name2].https_port,
    ensures
        service_auto_tls_ok(svc, ms_new),
{
    if svc.tls matches Option::Some(t) && t.redirection != Option::Some(false) {
        let name = spec_resolved_server(svc);
        if name == name2 {
            lemma_auto_tls_contains_extends(
                ms_old[name2],
                s_new,
                spec_tls_entry(svc.domain@, ms_old[name2].https_port),
            );
        }
    }
}

proof fn lemma_server_from_config(ms: Map<Seq<char>, Server>, name: Seq<char>, c: nat)
    requires
        config_ids_lt(ms, c),
        config_ids_unique(ms),
        ms.contains_key(name),
    ensures
        server_ids_lt(ms[name], c),
        server_ids_unique(ms[name]),
{
    assert forall|st: bool, k: Seq<char>, id: u32|
        #[trigger] server_route_has_id(ms[name], st, k, id) implies id < c by {
        assert(config_route_has_id(ms, name, st, k, id));
    }
    assert forall|s1: bool, k1: Seq<char>, s2: bool, k2: Seq<char>, id: u32|
        #[trigger] server_route_has_id(ms[name], s1, k1, id) && #[trigger] server_route_has_id(
        ms[name],
        s2,
        k2,
        id,
    ) implies s1 == s2 && k1 == k2 by {
        assert(config_route_has_id(ms, name, s1, k1, id));
        assert(config_route_has_id(ms, name, s2, k2, id));
    }
}

proof fn lemma_config_update_server(
    ms_old: Map<Seq<char>, Server>,
    ms_new: Map<Seq<char>, Server>,
    name: Seq<char>,
    s_new: Server,
    c_old: nat,
    c_new: nat,
)
    requires
        config_ids_lt(ms_old, c_old),
        config_ids_unique(ms_old),
        c_old <= c_new,
        ms_old.contains_key(name),
        ms_new == ms_old.insert(name, s_new),
        server_ids_lt(s_new, c_new),
        server_ids_unique(s_new),
        forall|id: u32|
            server_has_id(s_new, id) ==> server_has_id(ms_old[name], id) || (c_old <= id < c_new),
    ensures
        config_ids_lt(ms_new, c_new),
        config_ids_unique(ms_new),
{
    assert forall|sk: Seq<char>, st: bool, k: Seq<char>, id: u32|
        #[trigger] config_route_has_id(ms_new, sk, st, k, id) implies id < c_new by {
        if sk == name {
            assert(server_route_has_id(s_new, st, k, id));
        } else {
            assert(config_route_has_id(ms_old, sk, st, k, id));
        }
    }
    assert forall|
        sk1: Seq<char>,
        s1: bool,
        k1: Seq<char>,
        sk2: Seq<char>,
        s2: bool,
        k2: Seq<char>,
        id: u32,
    |
        #[trigger] config_route_has_id(ms_new, sk1, s1, k1, id) && #[trigger] config_route_has_id(
        ms_new,
        sk2,
        s2,
        k2,
        id,
    ) implies sk1 == sk2 && s1 == s2 && k1 == k2 by {
        if sk1 == name && sk2 == name {
            assert(server_route_has_id(s_new, s1, k1, id));
            assert(server_route_has_id(s_new, s2, k2, id));
        } else if sk1 == name {
            assert(server_route_has_id(s_new, s1, k1, id));
            assert(config_route_has_id(ms_old, sk2, s2, k2, id));
            assert(server_has_id(s_new, id));
            if server_has_id(ms_old[name], id) {
                let (st3, k3) = choose|st3: bool, k3: Seq<char>|
                    server_route_has_id(ms_old[name], st3, k3, id);
                assert(config_route_has_id(ms_old, name, st3, k3, id));
                assert(false);
            } else {
                assert(id < c_old);
                assert(false);
            }
        } else if sk2 == name {
            assert(server_route_has_id(s_new, s2, k2, id));
            assert(config_route_has_id(ms_old, sk1, s1, k1, id));
            assert(server_has_id(s_new, id));
            if server_has_id(ms_old[name], id) {
                let (st3, k3) = choose|st3: bool, k3: Seq<char>|
                    server_route_has_id(ms_old[name], st3, k3, id);
                assert(config_route_has_id(ms_old, name, st3, k3, id));
                assert(false);
            } else {
                assert(id < c_old);
                assert(false);
            }
        } else {
            assert(config_route_has_id(ms_old, sk1, s1, k1, id));
            assert(config_route_has_id(ms_old, sk2, s2, k2, id));
        }
    }
}


/// Provenance only widens as more services are admitted.
proof fn lemma_locs_monotone(
    m: Map<Seq<char>, TargetType>,
    svcs: Seq<(String, toml_model::Service)>,
    a: int,
    b: int,
    loadbalancers: Option<StrMap<toml_model::Loadbalancer>>,
)
    requires
        locs_from(m, svcs, a, loadbalancers),
        a <= b,
    ensures
        locs_from(m, svcs, b, loadbalancers),
{
    assert forall|k: Seq<char>| m.contains_key(k) implies value_from_services(
        #[trigger] m[k],
        svcs,
        b,
        loadbalancers,
        k,
    ) by {
        match m[k] {
            TargetType::Location(l) => {
                assert(value_from_services(m[k], svcs, a, loadbalancers, k));
                let j = choose|j: int|
                    0 <= j < a && route_loc_from_service(
                        (#[trigger] svcs[j]).1,
                        loadbalancers,
                        k,
                        l,
                    );
                assert(0 <= j < b && route_loc_from_service(svcs[j].1, loadbalancers, k, l));
            },
            TargetType::Redirection(red) => {
                assert(value_from_services(m[k], svcs, a, loadbalancers, k));
                let j = choose|j: int|
                    0 <= j < a && (route_red_from_service((#[trigger] svcs[j]).1, k, red)
                        || is_www_redirect_of(svcs[j].1, k, red));
                assert(0 <= j < b && (route_red_from_service(svcs[j].1, k, red)
                    || is_www_redirect_of(svcs[j].1, k, red)));
            },
            TargetType::FileServer(_) => {},
        }
    }
}

/// One service step keeps table provenance: the reworked server's proxy
/// routes either stood before or were compiled from the service at `i`.
proof fn lemma_locs_step(
    s_old: Server,
    s_managed: Server,
    s_final: Server,
    svcs: Seq<(String, toml_model::Service)>,
    i: int,
    loadbalancers: Option<StrMap<toml_model::Loadbalancer>>,
    service: toml_model::Service,
    wkey: Seq<char>,
)
    requires
        0 <= i < svcs.len(),
        svcs[i].1 == service,
        locs_from(s_old.params.targets@, svcs, i, loadbalancers),
        locs_from(s_old.params.strict_targets@, svcs, i, loadbalancers),
        // what the service compilation ensured, map by map
        forall|k: Seq<char>|
            #[trigger] s_managed.params.targets@.contains_key(k) ==> loc_value_ok(
                s_old.params.targets@,
                s_managed.params.targets@,
                k,
                service,
                loadbalancers,
            ),
        forall|k: Seq<char>|
            #[trigger] s_managed.params.strict_targets@.contains_key(k) ==> loc_value_ok(
                s_old.params.strict_targets@,
                s_managed.params.strict_targets@,
                k,
                service,
                loadbalancers,
            ),
        // the www redirect wrote one non-proxy entry into the prefix map,
        // unless a strict route shadowed the key
        (s_final.params.targets@ == s_managed.params.targets@.insert(
            wkey,
            s_final.params.targets@[wkey],
        ) && (s_final.params.targets@[wkey] matches TargetType::Redirection(wred)
            && is_www_redirect_of(service, wkey, wred))) || s_final.params.targets@
            == s_managed.params.targets@,
        s_final.params.strict_targets@ == s_managed.params.strict_targets@,
    ensures
        locs_from(s_final.params.targets@, svcs, i + 1, loadbalancers),
        locs_from(s_final.params.strict_targets@, svcs, i + 1, loadbalancers),
{
    assert forall|k: Seq<char>| s_final.params.targets@.contains_key(k) implies
        value_from_services(
        #[trigger] s_final.params.targets@[k],
        svcs,
        i + 1,
        loadbalancers,
        k,
    ) by {
        match s_final.params.targets@[k] {
            TargetType::Location(l) => {
                if s_final.params.targets@ != s_managed.params.targets@ {
                    assert(k != wkey);
                }
                assert(s_managed.params.targets@.contains_key(k)
                    && s_final.params.targets@[k] == s_managed.params.targets@[k]);
                assert(loc_value_ok(
                    s_old.params.targets@,
                    s_managed.params.targets@,
                    k,
                    service,
                    loadbalancers,
                ));
                if s_old.params.targets@.contains_key(k) && s_old.params.targets@[k]
                    == s_managed.params.targets@[k] {
                    assert(value_from_services(
                        s_old.params.targets@[k],
                        svcs,
                        i,
                        loadbalancers,
                        k,
                    ));
                    let j = choose|j: int|
                        0 <= j < i && route_loc_from_service(
                            (#[trigger] svcs[j]).1,
                            loadbalancers,
                            k,
                            l,
                        );
                    assert(0 <= j < i + 1 && route_loc_from_service(
                        svcs[j].1,
                        loadbalancers,
                        k,
                        l,
                    ));
                } else {
                    assert(route_loc_from_service(service, loadbalancers, k, l));
                    assert(0 <= i < i + 1 && route_loc_from_service(
                        (svcs[i]).1,
                        loadbalancers,
                        k,
                        l,
                    ));
                }
            },
            TargetType::Redirection(red) => {
                if s_final.params.targets@ != s_managed.params.targets@ && k == wkey {
                    assert(is_www_redirect_of((svcs[i]).1, k, red));
                    assert(0 <= i < i + 1);
                } else {
                    assert(s_managed.params.targets@.contains_key(k)
                        && s_final.params.targets@[k] == s_managed.params.targets@[k]);
                    assert(loc_value_ok(
                        s_old.params.targets@,
                        s_managed.params.targets@,
                        k,
                        service,
                        loadbalancers,
                    ));
                    if s_old.params.targets@.contains_key(k) && s_old.params.targets@[k]
                        == s_managed.params.targets@[k] {
                        assert(value_from_services(
                            s_old.params.targets@[k],
                            svcs,
                            i,
                            loadbalancers,
                            k,
                        ));
                        let j = choose|j: int|
                            0 <= j < i && (route_red_from_service(
                                (#[trigger] svcs[j]).1,
                                k,
                                red,
                            ) || is_www_redirect_of(svcs[j].1, k, red));
                        assert(0 <= j < i + 1 && (route_red_from_service(svcs[j].1, k, red)
                            || is_www_redirect_of(svcs[j].1, k, red)));
                    } else {
                        assert(route_red_from_service(service, k, red));
                        assert(0 <= i < i + 1);
                    }
                }
            },
            TargetType::FileServer(_) => {},
        }
    }
    assert forall|k: Seq<char>| s_final.params.strict_targets@.contains_key(k) implies
        value_from_services(
        #[trigger] s_final.params.strict_targets@[k],
        svcs,
        i + 1,
        loadbalancers,
        k,
    ) by {
        match s_final.params.strict_targets@[k] {
            TargetType::Location(l) => {
                assert(loc_value_ok(
                    s_old.params.strict_targets@,
                    s_managed.params.strict_targets@,
                    k,
                    service,
                    loadbalancers,
                ));
                if s_old.params.strict_targets@.contains_key(k) && s_old.params.strict_targets@[k]
                    == s_managed.params.strict_targets@[k] {
                    assert(value_from_services(
                        s_old.params.strict_targets@[k],
                        svcs,
                        i,
                        loadbalancers,
                        k,
                    ));
                    let j = choose|j: int|
                        0 <= j < i && route_loc_from_service(
                            (#[trigger] svcs[j]).1,
                            loadbalancers,
                            k,
                            l,
                        );
                    assert(0 <= j < i + 1 && route_loc_from_service(
                        svcs[j].1,
                        loadbalancers,
                        k,
                        l,
                    ));
                } else {
                    assert(route_loc_from_service(service, loadbalancers, k, l));
                    assert(0 <= i < i + 1 && route_loc_from_service(
                        (svcs[i]).1,
                        loadbalancers,
                        k,
                        l,
                    ));
                }
            },
            TargetType::Redirection(red) => {
                assert(loc_value_ok(
                    s_old.params.strict_targets@,
                    s_managed.params.strict_targets@,
                    k,
                    service,
                    loadbalancers,
                ));
                if s_old.params.strict_targets@.contains_key(k) && s_old.params.strict_targets@[k]
                    == s_managed.params.strict_targets@[k] {
                    assert(value_from_services(
                        s_old.params.strict_targets@[k],
                        svcs,
                        i,
                        loadbalancers,
                        k,
                    ));
                    let j = choose|j: int|
                        0 <= j < i && (route_red_from_service((#[trigger] svcs[j]).1, k, red)
                            || is_www_redirect_of(svcs[j].1, k, red));
                    assert(0 <= j < i + 1 && (route_red_from_service(svcs[j].1, k, red)
                        || is_www_redirect_of(svcs[j].1, k, red)));
                } else {
                    assert(route_red_from_service(service, k, red));
                    assert(0 <= i < i + 1);
                }
            },
            TargetType::FileServer(_) => {},
        }
    }
}

/// Whether a certificate pair already stands in the list.
fn tls_list_contains(v: &Vec<TlsCertificate>, c: &TlsCertificate) -> (r: bool)
    ensures
        r == exists|i: int|
            0 <= i < v@.len() && (#[trigger] v@[i]).cert@ == c.cert@ && v@[i].key@ == c.key@,
{
    let n = v.len();
    let mut i: usize = 0;
    while i < n
        invariant
            i <= n,
            n == v@.len(),
            forall|j: int|
                0 <= j < i ==> !((#[trigger] v@[j]).cert@ == c.cert@ && v@[j].key@ == c.key@),
        decreases n - i,
    {
        if crate::text::str_eq(v[i].cert.as_str(), c.cert.as_str()) && crate::text::str_eq(
            v[i].key.as_str(),
            c.key.as_str(),
        ) {
            return true;
        }
        i += 1;
    }
    false
}

impl ServiceConfig {
    /// Compiles the declarative configuration into the frozen routing
    /// table. Route ids come from the monotonic allocator; every service
    /// with TLS and redirection on leaves its auto-TLS entry in its
    /// server's list.
    pub fn build_from(config: toml_model::ConfigToml, ids: &mut IdGen) -> (r: ServiceConfig)
        requires
            config.wf(),
            services_resolvable(config),
            config_lb_ok(config),
            old(ids).counter + spec_total_locations(config) <= u32::MAX,
        ensures
            r.wf(),
            r.empty == (config.services is None),
            old(ids).counter <= final(ids).counter,
            config_ids_unique(r.servers@),
            config_ids_lt(r.servers@, final(ids).counter as nat),
            forall|sk: Seq<char>|
                r.servers@.contains_key(sk) ==> disjoint_targets(
                    (#[trigger] r.servers@[sk]).params,
                ),
            forall|sk: Seq<char>|
                r.servers@.contains_key(sk) ==> server_decl_ok(
                    config,
                    sk,
                    #[trigger] r.servers@[sk],
                ),
            match config.services {
                Option::Some(svcs) => forall|sk: Seq<char>|
                    r.servers@.contains_key(sk) ==> (auto_tls_seq(
                        (#[trigger] r.servers@[sk]).params.auto_tls,
                    ) == auto_entries(
                        svcs.entries_seq(),
                        svcs.entries_seq().len() as int,
                        sk,
                        r.servers@[sk].https_port,
                    ) && tls_seq(r.servers@[sk].tls) == tls_entries(
                        svcs.entries_seq(),
                        svcs.entries_seq().len() as int,
                        sk,
                    )),
                Option::None => forall|sk: Seq<char>|
                    r.servers@.contains_key(sk) ==> (#[trigger] r.servers@[sk]).params.auto_tls
                        is None && r.servers@[sk].tls is None,
            },
            r.servers@.contains_key("main"@),
            match config.servers {
                Option::Some(sm) => forall|k: Seq<char>|
                    sm@.contains_key(k) ==> r.servers@.contains_key(k),
                Option::None => true,
            },
            match config.services {
                Option::Some(svcs) => forall|i: int|
                    0 <= i < svcs.entries_seq().len() ==> service_auto_tls_ok(
                        (#[trigger] svcs.entries_seq()[i]).1,
                        r.servers@,
                    ),
                Option::None => true,
            },
            match config.services {
                Option::Some(svcs) => config_locs_from(
                    r.servers@,
                    svcs.entries_seq(),
                    svcs.entries_seq().len() as int,
                    config.loadbalancers,
                ),
                Option::None => true,
            },
            r.global.backlog == (match config.global {
                Option::Some(g) => g.backlog.unwrap_or(DEFAULT_BACKLOG),
                Option::None => DEFAULT_BACKLOG,
            }),
            r.global.max_conn == (match config.global {
                Option::Some(g) => g.max_connections.unwrap_or(DEFAULT_MAX_CONNECTIONS),
                Option::None => DEFAULT_MAX_CONNECTIONS,
            }),
            r.global.max_req == (match config.global {
                Option::Some(g) => g.max_requests.unwrap_or(DEFAULT_MAX_REQUESTS),
                Option::None => DEFAULT_MAX_REQUESTS,
            }),
            r.global.keepalive == (match config.global {
                Option::Some(g) => g.keepalive.unwrap_or(DEFAULT_KEEPALIVE),
                Option::None => DEFAULT_KEEPALIVE,
            }),
            r.global.keepalive_timeout == (match config.global {
                Option::Some(g) => g.keepalive_timeout.unwrap_or(DEFAULT_KEEPALIVE_TIMEOUT),
                Option::None => DEFAULT_KEEPALIVE_TIMEOUT,
            }),
            r.global.keepalive_interval == (match config.global {
                Option::Some(g) => g.keepalive_interval.unwrap_or(DEFAULT_KEEPALIVE_INTERVAL),
                Option::None => DEFAULT_KEEPALIVE_INTERVAL,
            }),
            r.global.http_header_timeout == (match config.global {
                Option::Some(g) => g.http_header_timeout.unwrap_or(DEFAULT_HTTP_HEADER_TIMEOUT),
                Option::None => DEFAULT_HTTP_HEADER_TIMEOUT,
            }),
            r.global.tls_handshake_timeout == (match config.global {
                Option::Some(g) => g.tls_handshake_timeout.unwrap_or(
                    DEFAULT_TLS_HANDSHAKE_TIMEOUT,
                ),
                Option::None => DEFAULT_TLS_HANDSHAKE_TIMEOUT,
            }),
    {
        let empty = config.services.is_none();
        let mut servers: StrMap<Server> = StrMap::new();
        match &config.servers {
            Option::Some(server_map) => {
                let entries = server_map.entries();
                let n = entries.len();
                let mut i: usize = 0;
                while i < n
                    invariant
                        i <= n,
                        n == server_map.entries_seq().len(),
                        entries@ == server_map.entries_seq(),
                        config.wf(),
                        config.servers == Option::Some(*server_map),
                        servers.wf(),
                        forall|k: Seq<char>|
                            servers@.contains_key(k) ==> server_map@.contains_key(k),
                        forall|k: Seq<char>|
                            servers@.contains_key(k) ==> (#[trigger] servers@[k]).wf(),
                        forall|k: Seq<char>|
                            servers@.contains_key(k) ==> (#[trigger] servers@[k]).params.targets@
                                =~= Map::<Seq<char>, TargetType>::empty()
                                && servers@[k].params.strict_targets@ =~= Map::<
                                Seq<char>,
                                TargetType,
                            >::empty() && servers@[k].params.auto_tls is None && servers@[k].tls
                                is None,
                        forall|k: Seq<char>|
                            servers@.contains_key(k) ==> server_decl_ok(
                                config,
                                k,
                                #[trigger] servers@[k],
                            ),
                        forall|j: int|
                            0 <= j < i ==> servers@.contains_key(
                                (#[trigger] server_map.entries_seq()[j]).0@,
                            ),
                    decreases n - i,
                {
                    let entry = &entries[i];
                    proof {
                        crate::strmap::lemma_map_of_contained(
                            server_map.entries_seq(),
                            i as int,
                        );
                    }
                    let port = match entry.1.port {
                        Option::Some(p) => p,
                        Option::None => DEFAULT_PORT,
                    };
                    let https_port = match entry.1.https_port {
                        Option::Some(p) => p,
                        Option::None => DEFAULT_PORT_HTTPS,
                    };
                    let proxy_timeout = match entry.1.proxy_timeout {
                        Option::Some(t) => t,
                        Option::None => DEFAULT_PROXY_TIMEOUT,
                    };
                    let server = Server {
                        params: ServerParams {
                            targets: SortedStrMap::new(),
                            strict_targets: SortedStrMap::new(),
                            auto_tls: None,
                            proxy_timeout,
                        },
                        port,
                        https_port,
                        tls: None,
                    };
                    servers.insert(String::from_str(entry.0.as_str()), server);
                    i += 1;
                }
            },
            Option::None => {},
        }
        if !servers.contains_key(MAIN_SERVER_NAME) {
            let server = Server {
                params: ServerParams {
                    targets: SortedStrMap::new(),
                    strict_targets: SortedStrMap::new(),
                    auto_tls: None,
                    proxy_timeout: DEFAULT_PROXY_TIMEOUT,
                },
                port: DEFAULT_PORT,
                https_port: DEFAULT_PORT_HTTPS,
                tls: None,
            };
            servers.insert(String::from_str(MAIN_SERVER_NAME), server);
        }
        proof {
            assert(MAIN_SERVER_NAME@ == "main"@);
            assert forall|sk: Seq<char>|
                servers@.contains_key(sk) implies server_decl_ok(
                config,
                sk,
                #[trigger] servers@[sk],
            ) by {
                match &config.servers {
                    Option::Some(sm) => {
                        if sm@.contains_key(sk) {
                            crate::strmap::lemma_map_of_dom(sm.entries_seq(), sk);
                        } else {
                            assert(sk == "main"@);
                        }
                    },
                    Option::None => {},
                }
            }
            assert forall|sk: Seq<char>|
                servers@.contains_key(sk) implies (#[trigger] servers@[sk]).params.auto_tls
                is None && servers@[sk].tls is None by {}
            assert forall|sk: Seq<char>, st: bool, k: Seq<char>, id: u32|
                #[trigger] config_route_has_id(servers@, sk, st, k, id) implies false by {
                let m = if st {
                    servers@[sk].params.strict_targets@
                } else {
                    servers@[sk].params.targets@
                };
                assert(m =~= Map::<Seq<char>, TargetType>::empty());
            }
            match &config.servers {
                Option::Some(sm) => {
                    assert forall|k: Seq<char>| sm@.contains_key(k) implies servers@.contains_key(
                        k,
                    ) by {
                        crate::strmap::lemma_map_of_dom(sm.entries_seq(), k);
                    }
                },
                Option::None => {},
            }
            assert forall|sk: Seq<char>|
                servers@.contains_key(sk) implies disjoint_targets(
                (#[trigger] servers@[sk]).params,
            ) by {
                assert(servers@[sk].params.strict_targets@ =~= Map::<
                    Seq<char>,
                    TargetType,
                >::empty());
            }
            match &config.services {
                Option::Some(svcs) => {
                    assert forall|sk: Seq<char>|
                        servers@.contains_key(sk) implies (auto_tls_seq(
                        (#[trigger] servers@[sk]).params.auto_tls,
                    ) == auto_entries(svcs.entries_seq(), 0, sk, servers@[sk].https_port)
                        && tls_seq(servers@[sk].tls) == tls_entries(svcs.entries_seq(), 0, sk))
                        by {
                        assert(auto_tls_seq(servers@[sk].params.auto_tls) =~= Seq::<
                            Seq<char>,
                        >::empty());
                        assert(tls_seq(servers@[sk].tls) =~= Seq::<
                            (Seq<char>, Seq<char>),
                        >::empty());
                    }
                    assert forall|sk: Seq<char>| servers@.contains_key(sk) implies (locs_from(
                        (#[trigger] servers@[sk]).params.targets@,
                        svcs.entries_seq(),
                        0,
                        config.loadbalancers,
                    ) && locs_from(
                        servers@[sk].params.strict_targets@,
                        svcs.entries_seq(),
                        0,
                        config.loadbalancers,
                    )) by {
                        assert(servers@[sk].params.targets@ =~= Map::<
                            Seq<char>,
                            TargetType,
                        >::empty());
                        assert(servers@[sk].params.strict_targets@ =~= Map::<
                            Seq<char>,
                            TargetType,
                        >::empty());
                    }
                },
                Option::None => {},
            }
        }
        match &config.services {
            Option::Some(services) => {
                let sentries = services.entries();
                let n = sentries.len();
                let mut i: usize = 0;
                while i < n
                    invariant
                        i <= n,
                        n == services.entries_seq().len(),
                        sentries@ == services.entries_seq(),
                        config.services matches Option::Some(sv) && sv == *services,
                        config.wf(),
                        services_resolvable(config),
                        config_lb_ok(config),
                        old(ids).counter + spec_total_locations(config) <= u32::MAX,
                        spec_total_locations(config) == sum_locs(services.entries_seq()),
                        servers.wf(),
                        forall|k: Seq<char>|
                            servers@.contains_key(k) ==> (#[trigger] servers@[k]).wf(),
                        servers@.contains_key("main"@),
                        match config.servers {
                            Option::Some(sm) => forall|k: Seq<char>|
                                sm@.contains_key(k) ==> servers@.contains_key(k),
                            Option::None => true,
                        },
                        config_ids_lt(servers@, ids.counter as nat),
                        config_ids_unique(servers@),
                        forall|sk: Seq<char>|
                            servers@.contains_key(sk) ==> disjoint_targets(
                                (#[trigger] servers@[sk]).params,
                            ),
                        forall|sk: Seq<char>|
                            servers@.contains_key(sk) ==> server_decl_ok(
                                config,
                                sk,
                                #[trigger] servers@[sk],
                            ),
                        forall|sk: Seq<char>|
                            servers@.contains_key(sk) ==> auto_tls_seq(
                                (#[trigger] servers@[sk]).params.auto_tls,
                            ) == auto_entries(
                                services.entries_seq(),
                                i as int,
                                sk,
                                servers@[sk].https_port,
                            ),
                        forall|sk: Seq<char>|
                            servers@.contains_key(sk) ==> tls_seq((#[trigger] servers@[sk]).tls)
                                == tls_entries(services.entries_seq(), i as int, sk),
                        old(ids).counter <= ids.counter,
                        ids.counter <= old(ids).counter + sum_locs(
                            services.entries_seq().take(i as int),
                        ),
                        forall|j: int|
                            0 <= j < i ==> service_auto_tls_ok(
                                (#[trigger] services.entries_seq()[j]).1,
                                servers@,
                            ),
                        config_locs_from(
                            servers@,
                            services.entries_seq(),
                            i as int,
                            config.loadbalancers,
                        ),
                    decreases n - i,
                {
                    let service = &sentries[i].1;
                    proof {
                        assert(services.entries_seq()[i as int].1 == *service);
                        assert(service.wf());
                        assert(service_lb_ok(*service, config.loadbalancers));
                        lemma_sum_locs_take_step(services.entries_seq(), i as int);
                        lemma_sum_locs_take_bound(services.entries_seq(), i + 1);
                    }
                    let server_name: &str = match &service.server {
                        Option::Some(sname) => sname.as_str(),
                        Option::None => MAIN_SERVER_NAME,
                    };
                    proof {
                        assert(MAIN_SERVER_NAME@ == "main"@);
                        assert(server_name@ == spec_resolved_server(*service));
                        assert(servers@.contains_key(server_name@));
                    }
                    let ghost ms_old = servers@;
                    let ghost c_start = ids.counter;
                    let mut server = match servers.remove_entry(server_name) {
                        Option::Some(srv) => srv,
                        Option::None => {
                            proof {
                                assert(false);
                            }
                            Server {
                                params: ServerParams {
                                    targets: SortedStrMap::new(),
                                    strict_targets: SortedStrMap::new(),
                                    auto_tls: None,
                                    proxy_timeout: DEFAULT_PROXY_TIMEOUT,
                                },
                                port: DEFAULT_PORT,
                                https_port: DEFAULT_PORT_HTTPS,
                                tls: None,
                            }
                        },
                    };
                    proof {
                        lemma_server_from_config(ms_old, server_name@, ids.counter as nat);
                    }
                    let ghost s_start = server;
                    let port = server.port;
                    let https_port = server.https_port;
                    let mut tls_redirection = false;
                    match &service.tls {
                        Option::Some(tls) => {
                            let tls_cert = TlsCertificate {
                                cert: String::from_str(tls.certificate.as_str()),
                                key: String::from_str(tls.key.as_str()),
                            };
                            let ghost pair = (tls_cert.cert@, tls_cert.key@);
                            let mut list: Vec<TlsCertificate> = match server.tls.take() {
                                Option::Some(v) => v,
                                Option::None => Vec::new(),
                            };
                            let ghost base = list@;
                            let ghost basev = tls_seq(s_start.tls);
                            proof {
                                assert(basev =~= base.map_values(
                                    |c: TlsCertificate| (c.cert@, c.key@),
                                ));
                            }
                            let had = tls_list_contains(&list, &tls_cert);
                            if !had {
                                list.push(tls_cert);
                            }
                            server.tls = Some(list);
                            proof {
                                if had {
                                    let q = choose|q: int|
                                        0 <= q < base.len() && (#[trigger] base[q]).cert@ == pair.0
                                            && base[q].key@ == pair.1;
                                    assert(basev[q] == pair);
                                    assert(basev.contains(pair));
                                    assert(tls_seq(server.tls) =~= basev);
                                } else {
                                    if basev.contains(pair) {
                                        let q = choose|q: int|
                                            0 <= q < basev.len() && basev[q] == pair;
                                        assert(base[q].cert@ == pair.0 && base[q].key@ == pair.1);
                                        assert(false);
                                    }
                                    assert(tls_seq(server.tls) =~= basev.push(pair));
                                }
                            }
                            tls_redirection = match tls.redirection {
                                Option::Some(b) => b,
                                Option::None => DEFAULT_TLS_REDIRECTION,
                            };
                        },
                        Option::None => {},
                    }
                    proof {
                        lemma_ids_by_maps(s_start, server, ids.counter as nat);
                        assert(disjoint_targets(s_start.params));
                        assert(server.params == s_start.params);
                    }
                    let server_headers: Option<&toml_model::Headers> = match &config.servers {
                        Option::Some(sm) => match sm.get(server_name) {
                            Option::Some(srv) => match &srv.headers {
                                Option::Some(h) => Some(h),
                                Option::None => None,
                            },
                            Option::None => None,
                        },
                        Option::None => None,
                    };
                    proof {
                        match server_headers {
                            Option::Some(h) => {
                                match &config.servers {
                                    Option::Some(sm) => {
                                        crate::strmap::lemma_map_of_dom(
                                            sm.entries_seq(),
                                            server_name@,
                                        );
                                        let j = choose|j: int|
                                            0 <= j < sm.entries_seq().len()
                                                && sm.entries_seq()[j].0@ == server_name@;
                                        crate::strmap::lemma_map_of_contained(
                                            sm.entries_seq(),
                                            j,
                                        );
                                    },
                                    Option::None => {},
                                }
                            },
                            Option::None => {},
                        }
                    }
                    manage_server_targets(
                        &mut server,
                        service,
                        &config.loadbalancers,
                        server_headers,
                        ids,
                    );
                    let ghost s_managed = server;
                    let ghost c_managed = ids.counter;
                    let ghost gwkey = www_source_key(service.domain@);
                    let ghost s_pre_www = server;
                    www_auto_redirection(
                        &mut server.params,
                        service.domain.as_str(),
                        if service.tls.is_some() {
                            https_port
                        } else {
                            port
                        },
                        service.tls.is_some() && tls_redirection,
                    );
                    proof {
                        if !s_pre_www.params.strict_targets@.contains_key(gwkey) {
                            lemma_insert_nonloc_ids(
                                s_pre_www,
                                server,
                                false,
                                gwkey,
                                server.params.targets@[gwkey],
                                ids.counter as nat,
                            );
                        } else {
                            assert(server == s_pre_www);
                        }
                    }
                    let ghost s_after_www = server;
                    if tls_redirection {
                        let tls_domain: String = if https_port != DEFAULT_PORT_HTTPS {
                            let mut d = String::from_str(service.domain.as_str());
                            d.append(":");
                            let p = u64_to_dec(https_port as u64);
                            d.append(p.as_str());
                            d
                        } else {
                            String::from_str(service.domain.as_str())
                        };
                        proof {
                            assert(tls_domain@ == spec_tls_entry(service.domain@, https_port));
                        }
                        let mut list: Vec<String> = match server.params.auto_tls.take() {
                            Option::Some(v) => v,
                            Option::None => Vec::new(),
                        };
                        let ghost abase = auto_tls_seq(s_after_www.params.auto_tls);
                        proof {
                            assert(abase =~= list@.map_values(|x: String| x@));
                        }
                        list.push(tls_domain);
                        server.params.auto_tls = Some(list);
                        proof {
                            assert(auto_tls_seq(server.params.auto_tls) =~= abase.push(
                                spec_tls_entry(service.domain@, https_port),
                            ));
                        }
                    }
                    let ghost s_final = server;
                    proof {
                        lemma_ids_by_maps(s_after_www, s_final, ids.counter as nat);
                        assert(auto_tls_extends(
                            s_start.params.auto_tls,
                            s_final.params.auto_tls,
                        ));
                        assert(s_final.https_port == s_start.https_port);
                        if tls_redirection {
                            let v = s_final.params.auto_tls.unwrap();
                            assert(v@[v@.len() - 1]@ == spec_tls_entry(
                                service.domain@,
                                https_port,
                            ));
                            assert(auto_tls_contains(
                                s_final,
                                spec_tls_entry(service.domain@, https_port),
                            ));
                        }
                    }
                    servers.insert(String::from_str(server_name), server);
                    proof {
                        assert(servers@ =~= ms_old.insert(server_name@, s_final));
                        assert forall|id: u32|
                            server_has_id(s_final, id) implies server_has_id(ms_old[server_name@], id)
                            || (c_start <= id < ids.counter) by {
                            assert(server_has_id(s_managed, id) || server_has_id(s_final, id));
                        }
                        lemma_config_update_server(
                            ms_old,
                            servers@,
                            server_name@,
                            s_final,
                            c_start as nat,
                            ids.counter as nat,
                        );
                        assert(disjoint_targets(s_final.params));
                        assert forall|sk: Seq<char>|
                            servers@.contains_key(sk) implies disjoint_targets(
                            (#[trigger] servers@[sk]).params,
                        ) by {
                            if sk != server_name@ {
                                assert(servers@[sk] == ms_old[sk]);
                            }
                        }
                        assert forall|sk: Seq<char>|
                            servers@.contains_key(sk) implies (locs_from(
                            (#[trigger] servers@[sk]).params.targets@,
                            services.entries_seq(),
                            i + 1,
                            config.loadbalancers,
                        ) && locs_from(
                            servers@[sk].params.strict_targets@,
                            services.entries_seq(),
                            i + 1,
                            config.loadbalancers,
                        )) by {
                            if sk == server_name@ {
                                lemma_locs_step(
                                    ms_old[sk],
                                    s_managed,
                                    s_final,
                                    services.entries_seq(),
                                    i as int,
                                    config.loadbalancers,
                                    *service,
                                    gwkey,
                                );
                            } else {
                                assert(servers@[sk] == ms_old[sk]);
                                lemma_locs_monotone(
                                    ms_old[sk].params.targets@,
                                    services.entries_seq(),
                                    i as int,
                                    i + 1,
                                    config.loadbalancers,
                                );
                                lemma_locs_monotone(
                                    ms_old[sk].params.strict_targets@,
                                    services.entries_seq(),
                                    i as int,
                                    i + 1,
                                    config.loadbalancers,
                                );
                            }
                        }
                        assert forall|j: int|
                            0 <= j < i + 1 implies service_auto_tls_ok(
                            (#[trigger] services.entries_seq()[j]).1,
                            servers@,
                        ) by {
                            if j < i {
                                lemma_service_auto_tls_preserved(
                                    services.entries_seq()[j].1,
                                    ms_old,
                                    servers@,
                                    server_name@,
                                    s_final,
                                );
                            } else {
                                if services.entries_seq()[j].1.tls matches Option::Some(t)
                                    && t.redirection != Option::Some(false) {
                                    assert(tls_redirection);
                                    assert(servers@[server_name@] == s_final);
                                }
                            }
                        }
                    }
                    i += 1;
                }
                proof {
                    assert(services.entries_seq().take(n as int) =~= services.entries_seq());
                }
            },
            Option::None => {},
        }
        let global = match &config.global {
            Option::Some(g) => Global {
                backlog: match g.backlog {
                    Option::Some(x) => x,
                    Option::None => DEFAULT_BACKLOG,
                },
                max_conn: match g.max_connections {
                    Option::Some(x) => x,
                    Option::None => DEFAULT_MAX_CONNECTIONS,
                },
                max_req: match g.max_requests {
                    Option::Some(x) => x,
                    Option::None => DEFAULT_MAX_REQUESTS,
                },
                keepalive: match g.keepalive {
                    Option::Some(x) => x,
                    Option::None => DEFAULT_KEEPALIVE,
                },
                keepalive_timeout: match g.keepalive_timeout {
                    Option::Some(x) => x,
                    Option::None => DEFAULT_KEEPALIVE_TIMEOUT,
                },
                keepalive_interval: match g.keepalive_interval {
                    Option::Some(x) => x,
                    Option::None => DEFAULT_KEEPALIVE_INTERVAL,
                },
                http_header_timeout: match g.http_header_timeout {
                    Option::Some(x) => x,
                    Option::None => DEFAULT_HTTP_HEADER_TIMEOUT,
                },
                tls_handshake_timeout: match g.tls_handshake_timeout {
                    Option::Some(x) => x,
                    Option::None => DEFAULT_TLS_HANDSHAKE_TIMEOUT,
                },
            },
            Option::None => Global {
                backlog: DEFAULT_BACKLOG,
                max_conn: DEFAULT_MAX_CONNECTIONS,
                max_req: DEFAULT_MAX_REQUESTS,
                keepalive: DEFAULT_KEEPALIVE,
                keepalive_timeout: DEFAULT_KEEPALIVE_TIMEOUT,
                keepalive_interval: DEFAULT_KEEPALIVE_INTERVAL,
                http_header_timeout: DEFAULT_HTTP_HEADER_TIMEOUT,
                tls_handshake_timeout: DEFAULT_TLS_HANDSHAKE_TIMEOUT,
            },
        };
        ServiceConfig { servers, global, empty }
    }
}


} // verus!
