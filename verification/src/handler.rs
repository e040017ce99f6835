//! The per-request router: host and path extraction, auto-HTTPS, strict
//! and longest-prefix route matching, and dispatch to a proxy, file-serve
//! or immediate-response plan.
use vstd::prelude::*;
use crate::config::{Locations, ServerParams, TargetType};
use crate::headers::{ConfigHeaders, copy_config_headers};
use crate::http_response::{
    HttpResponsePlan, bad_request, internal_server_error, redirect_response, service_unavailable,
};
use crate::load_balancing::{
    LoadBalancerConfig, lb_get, lb_has, rr_entry_ok, spec_expand, spec_rr_choice, lemma_spec_expand_bounds, xxh3_of,
};
use crate::strmap::{lemma_map_of_contained, lemma_map_of_dom, lemma_sorted_implies_unique};
use crate::text::{
    is_prefix_of, spec_remove_last_slash, remove_last_slash, str_eq, str_starts_with,
};

verus! {

/// The request facts the router decides on: the `:authority`, the `Host`
/// header when present and readable, and the path with its query.
pub struct RequestInfo {
    pub authority: Option<String>,
    pub host_header: Option<String>,
    pub path: Option<String>,
}

/// An upstream proxy step: the rewritten target URL and what the caller
/// must put on the outgoing request.
pub struct ProxyPlan {
    pub uri: String,
    pub authority: String,
    pub headers: ConfigHeaders,
    pub proxy_timeout: u64,
}

/// A file-serving step, handed to the file server.
pub struct FileServePlan {
    pub location: String,
    pub new_path: String,
    pub source_url: String,
    pub fallback_file: Option<String>,
    pub is_fallback_404: bool,
    pub forbidden_dir: bool,
    pub headers: ConfigHeaders,
}

pub enum HandlerOutcome {
    Respond(HttpResponsePlan),
    Proxy(ProxyPlan),
    ServeFile(FileServePlan),
}

/// Index of the first `:` in `s` at or past `pos`, or the length of `s`.
pub closed spec fn first_colon(s: Seq<char>, pos: int) -> int
    decreases s.len() - pos when 0 <= pos <= s.len()
{
    if pos >= s.len() {
        s.len() as int
    } else if s[pos] == ':' {
        pos
    } else {
        first_colon(s, pos + 1)
    }
}

proof fn lemma_first_colon_bounds(s: Seq<char>, pos: int)
    requires
        0 <= pos <= s.len(),
    ensures
        pos <= first_colon(s, pos) <= s.len(),
    decreases s.len() - pos,
{
    if pos < s.len() && s[pos] != ':' {
        lemma_first_colon_bounds(s, pos + 1);
    }
}

/// The authority minus any `:port`.
pub open spec fn spec_host_of(a: Seq<char>) -> Seq<char> {
    a.subrange(0, first_colon(a, 0))
}

fn host_of(a: &str) -> (r: String)
    ensures
        r@ == spec_host_of(a@),
{
    let n = a.unicode_len();
    let mut i: usize = 0;
    proof {
        lemma_first_colon_bounds(a@, 0);
    }
    while i < n
        invariant
            i <= n,
            n == a@.len(),
            first_colon(a@, 0) == first_colon(a@, i as int),
        decreases n - i,
    {
        if a.get_char(i) == ':' {
            return String::from_str(a.substring_char(0, i));
        }
        i += 1;
    }
    let r = String::from_str(a.substring_char(0, n));
    assert(r@ =~= a@.subrange(0, n as int));
    r
}

/// The authority the request names: the `:authority`, else the `Host`
/// header value.
pub open spec fn spec_req_authority(req: RequestInfo) -> Option<Seq<char>> {
    match req.authority {
        Option::Some(a) => Option::Some(a@),
        Option::None => match req.host_header {
            Option::Some(h) => Option::Some(h@),
            Option::None => Option::None,
        },
    }
}

/// The authority and host of a request: from the `:authority` when set,
/// else from the `Host` header; nothing when both are missing.
pub fn get_authority_and_domain(req: &RequestInfo) -> (r: Option<(String, String)>)
    ensures
        match spec_req_authority(*req) {
            Option::Some(a) => r matches Option::Some(p) && p.0@ == a && p.1@ == spec_host_of(a),
            Option::None => r is None,
        },
{
    match &req.authority {
        Option::Some(a) => Some((String::from_str(a.as_str()), host_of(a.as_str()))),
        Option::None => match &req.host_header {
            Option::Some(h) => Some((String::from_str(h.as_str()), host_of(h.as_str()))),
            Option::None => None,
        },
    }
}

/// The first auto-TLS entry the host opens (the host is a prefix of the
/// entry), scanning the list in order.
pub open spec fn first_auto_match(list: Seq<String>, host: Seq<char>) -> Option<Seq<char>>
    decreases list.len(),
{
    if list.len() == 0 {
        Option::None
    } else if is_prefix_of(host, list[0]@) {
        Option::Some(list[0]@)
    } else {
        first_auto_match(list.drop_first(), host)
    }
}

fn find_auto_match<'a>(list: &'a Vec<String>, host: &str) -> (r: Option<&'a String>)
    ensures
        match first_auto_match(list@, host@) {
            Option::Some(e) => r matches Option::Some(x) && x@ == e,
            Option::None => r is None,
        },
{
    let n = list.len();
    let mut i: usize = 0;
    proof {
        assert(list@.skip(0) =~= list@);
    }
    while i < n
        invariant
            i <= n,
            n == list@.len(),
            first_auto_match(list@, host@) == first_auto_match(list@.skip(i as int), host@),
        decreases n - i,
    {
        if str_starts_with(list[i].as_str(), host) {
            proof {
                assert(list@.skip(i as int)[0] == list@[i as int]);
            }
            return Some(&list[i]);
        }
        proof {
            assert(list@.skip(i as int).drop_first() =~= list@.skip(i + 1));
            assert(list@.skip(i as int)[0] == list@[i as int]);
        }
        i += 1;
    }
    None
}

/// The greatest-index prefix route for `m`: the last entry, in ascending
/// key order, whose key is a prefix of `m`.
pub open spec fn best_prefix_idx(entries: Seq<(String, TargetType)>, m: Seq<char>) -> Option<int>
    decreases entries.len(),
{
    if entries.len() == 0 {
        Option::None
    } else if is_prefix_of(entries.last().0@, m) {
        Option::Some(entries.len() - 1)
    } else {
        best_prefix_idx(entries.drop_last(), m)
    }
}

pub proof fn lemma_best_prefix_props(entries: Seq<(String, TargetType)>, m: Seq<char>)
    ensures
        match best_prefix_idx(entries, m) {
            Option::Some(j) => 0 <= j < entries.len() && is_prefix_of(entries[j].0@, m) && (forall|
                j2: int,
            |
                j < j2 < entries.len() ==> !is_prefix_of((#[trigger] entries[j2]).0@, m)),
            Option::None => forall|j2: int|
                0 <= j2 < entries.len() ==> !is_prefix_of((#[trigger] entries[j2]).0@, m),
        },
    decreases entries.len(),
{
    if entries.len() > 0 && !is_prefix_of(entries.last().0@, m) {
        lemma_best_prefix_props(entries.drop_last(), m);
        assert(forall|j2: int|
            0 <= j2 < entries.len() - 1 ==> (#[trigger] entries[j2]) == entries.drop_last()[j2]);
    }
}

/// The route the table chooses for the key `m`: the strict entry when one
/// exists, else the greatest prefix entry together with the remaining
/// suffix; `None` on the suffix marks a strict match.
pub open spec fn spec_route(params: ServerParams, m: Seq<char>) -> Option<(
    TargetType,
    Option<Seq<char>>,
)> {
    if params.strict_targets@.contains_key(m) {
        Option::Some((params.strict_targets@[m], Option::None))
    } else {
        match best_prefix_idx(params.targets.entries_seq(), m) {
            Option::Some(j) => Option::Some(
                (
                    params.targets.entries_seq()[j].1,
                    Option::Some(m.skip(params.targets.entries_seq()[j].0@.len() as int)),
                ),
            ),
            Option::None => Option::None,
        }
    }
}

/// For any request key, a strict match always takes precedence: whenever
/// the key stands in the strict table, the chosen target is the strict
/// entry, whatever the prefix table would also match.
pub proof fn lemma_strict_precedence(params: ServerParams, m: Seq<char>)
    requires
        params.strict_targets@.contains_key(m),
    ensures
        spec_route(params, m) == Option::Some(
            (params.strict_targets@[m], Option::<Seq<char>>::None),
        ),
{
}

/// The backend index `balance` picks for a proxy route, given the counter
/// state before the call.
pub open spec fn spec_choice(
    lb: Seq<(u32, crate::load_balancing::RoundRobinConfig)>,
    l: Locations,
    ip: Seq<char>,
) -> int {
    let n = l.params.location@.len();
    if n == 1 {
        0
    } else if l.algo matches Option::Some(a) && a@ == "round_robin"@ {
        spec_rr_choice(lb_get(lb, l.id).index as nat, lb_get(lb, l.id).weights_indices, n as nat)
    } else if l.algo matches Option::Some(a) && a@ == "ip_hash"@ {
        (xxh3_of(ip) % (n as u64)) as int
    } else {
        0
    }
}

/// The load-balancer state can serve every proxy route of the table.
pub open spec fn lb_covers_route(lb: LoadBalancerConfig, t: TargetType) -> bool {
    match t {
        TargetType::Location(l) => (l.params.location@.len() > 1 && (
        l.algo matches Option::Some(a) && a@ == "round_robin"@)) ==> (lb_has(lb.round_robin@, l.id)
            && rr_entry_ok(lb_get(lb.round_robin@, l.id), l.params.location@.len() as nat)),
        _ => true,
    }
}

pub open spec fn lb_covers(lb: LoadBalancerConfig, params: ServerParams) -> bool {
    &&& forall|k: Seq<char>|
        params.strict_targets@.contains_key(k) ==> lb_covers_route(
            lb,
            #[trigger] params.strict_targets@[k],
        )
    &&& forall|k: Seq<char>|
        params.targets@.contains_key(k) ==> lb_covers_route(lb, #[trigger] params.targets@[k])
}


/// What the ghost route record says of one balancer entry: the route is a
/// `round_robin` proxy target whose id and expanded weights the entry
/// carries, with its counter at zero.
pub open spec fn route_entry_match(
    params: ServerParams,
    rt: (bool, Seq<char>),
    e: (u32, crate::load_balancing::RoundRobinConfig),
) -> bool {
    let m = if rt.0 {
        params.strict_targets@
    } else {
        params.targets@
    };
    m.contains_key(rt.1) && (m[rt.1] matches TargetType::Location(l) && l.id == e.0 && e.1.index
        == 0 && (match l.weights {
        Option::Some(w) => e.1.weights_indices matches Option::Some(wi) && wi@ == spec_expand(w@),
        Option::None => e.1.weights_indices is None,
    }) && (l.algo matches Option::Some(x) && x@ == "round_robin"@))
}

/// Every balancer entry comes from its own distinct route.
pub open spec fn lb_partial_inv(
    lb: LoadBalancerConfig,
    params: ServerParams,
    prov: Seq<(bool, Seq<char>)>,
) -> bool {
    &&& prov.len() == lb.round_robin@.len()
    &&& forall|a: int|
        0 <= a < prov.len() ==> route_entry_match(params, prov[a], #[trigger] lb.round_robin@[a])
    &&& forall|a: int, b: int| 0 <= a < b < prov.len() ==> prov[a] != prov[b]
}

proof fn lemma_partial_wf(
    lb: LoadBalancerConfig,
    params: ServerParams,
    prov: Seq<(bool, Seq<char>)>,
)
    requires
        lb_partial_inv(lb, params, prov),
        crate::config::params_ids_unique(params),
    ensures
        lb.wf(),
{
    assert forall|a: int, b: int|
        0 <= a < b < lb.round_robin@.len() implies (#[trigger] lb.round_robin@[a]).0 != (
    #[trigger] lb.round_robin@[b]).0 by {
        if lb.round_robin@[a].0 == lb.round_robin@[b].0 {
            let id = lb.round_robin@[a].0;
            assert(route_entry_match(params, prov[a], lb.round_robin@[a]));
            assert(route_entry_match(params, prov[b], lb.round_robin@[b]));
            assert(crate::config::params_route_has_id(params, prov[a].0, prov[a].1, id));
            assert(crate::config::params_route_has_id(params, prov[b].0, prov[b].1, id));
            assert(prov[a] == prov[b]);
            assert(false);
        }
    }
}

/// The per-server router: the compiled routing table together with its
/// load-balancer state.
pub struct ServerHandler {
    pub params: ServerParams,
    pub loadbalancer: LoadBalancerConfig,
}

impl ServerHandler {
    pub open spec fn inv(&self) -> bool {
        &&& self.params.wf()
        &&& self.loadbalancer.wf()
        &&& lb_covers(self.loadbalancer, self.params)
    }

    /// Builds the router for one server: a zeroed round-robin entry for
    /// every `round_robin` proxy route in either map.
    pub fn new(params: ServerParams) -> (r: ServerHandler)
        requires
            params.wf(),
            crate::config::params_ids_unique(params),
        ensures
            r.inv(),
            r.params == params,
    {
        let mut lb = LoadBalancerConfig { round_robin: Vec::new() };
        let ghost mut prov: Seq<(bool, Seq<char>)> = Seq::empty();
        let sentries = params.strict_targets.entries();
        let sn = sentries.len();
        let mut i: usize = 0;
        while i < sn
            invariant
                i <= sn,
                sn == params.strict_targets.entries_seq().len(),
                sentries@ == params.strict_targets.entries_seq(),
                params.wf(),
                crate::config::params_ids_unique(params),
                lb_partial_inv(lb, params, prov),
                forall|a: int|
                    0 <= a < prov.len() ==> (#[trigger] prov[a]).0 == true && (exists|j: int|
                        0 <= j < i && prov[a].1 == params.strict_targets.entries_seq()[j].0@),
                forall|j: int|
                    0 <= j < i ==> ((#[trigger] sentries@[j]).1 matches TargetType::Location(l)
                        ==> ((l.algo matches Option::Some(x) && x@ == "round_robin"@) ==> lb_has(
                        lb.round_robin@,
                        l.id,
                    ))),
            decreases sn - i,
        {
            match &sentries[i].1 {
                TargetType::Location(l) => {
                    let insert = match &l.algo {
                        Option::Some(a) => str_eq(a.as_str(), "round_robin"),
                        Option::None => false,
                    };
                    if insert {
                        let wi = crate::load_balancing::expand_weights(&l.weights);
                        let ghost rr_old = lb.round_robin@;
                        lb.round_robin.push(
                            (l.id, crate::load_balancing::RoundRobinConfig {
                                index: 0,
                                weights_indices: wi,
                            }),
                        );
                        proof {
                            lemma_sorted_implies_unique(params.strict_targets.entries_seq());
                            lemma_map_of_contained(
                                params.strict_targets.entries_seq(),
                                i as int,
                            );
                            assert(lb.round_robin@.drop_last() =~= rr_old);
                            assert forall|id2: u32| lb_has(rr_old, id2) implies lb_has(
                                lb.round_robin@,
                                id2,
                            ) by {
                                crate::load_balancing::lemma_lb_has_push(
                                    rr_old,
                                    lb.round_robin@.last(),
                                    id2,
                                );
                            }
                            prov = prov.push((true, sentries@[i as int].0@));
                            assert(lb.round_robin@[prov.len() - 1].0 == l.id);
                            assert(lb_has(lb.round_robin@, l.id));
                        }
                    }
                },
                _ => {},
            }
            i += 1;
        }
        let pentries = params.targets.entries();
        let pn = pentries.len();
        let mut p: usize = 0;
        while p < pn
            invariant
                p <= pn,
                pn == params.targets.entries_seq().len(),
                pentries@ == params.targets.entries_seq(),
                params.wf(),
                crate::config::params_ids_unique(params),
                lb_partial_inv(lb, params, prov),
                forall|a: int|
                    0 <= a < prov.len() ==> (#[trigger] prov[a]).0 == true || (exists|j: int|
                        0 <= j < p && prov[a].1 == params.targets.entries_seq()[j].0@),
                forall|j: int|
                    0 <= j < params.strict_targets.entries_seq().len() ==> ((
                    #[trigger] params.strict_targets.entries_seq()[j]).1
                        matches TargetType::Location(l) ==> ((l.algo matches Option::Some(x) && x@
                        == "round_robin"@) ==> lb_has(lb.round_robin@, l.id))),
                forall|j: int|
                    0 <= j < p ==> ((#[trigger] pentries@[j]).1 matches TargetType::Location(l)
                        ==> ((l.algo matches Option::Some(x) && x@ == "round_robin"@) ==> lb_has(
                        lb.round_robin@,
                        l.id,
                    ))),
            decreases pn - p,
        {
            match &pentries[p].1 {
                TargetType::Location(l) => {
                    let insert = match &l.algo {
                        Option::Some(a) => str_eq(a.as_str(), "round_robin"),
                        Option::None => false,
                    };
                    if insert {
                        let wi = crate::load_balancing::expand_weights(&l.weights);
                        let ghost rr_old = lb.round_robin@;
                        lb.round_robin.push(
                            (l.id, crate::load_balancing::RoundRobinConfig {
                                index: 0,
                                weights_indices: wi,
                            }),
                        );
                        proof {
                            lemma_sorted_implies_unique(params.targets.entries_seq());
                            lemma_map_of_contained(params.targets.entries_seq(), p as int);
                            assert(lb.round_robin@.drop_last() =~= rr_old);
                            assert forall|id2: u32| lb_has(rr_old, id2) implies lb_has(
                                lb.round_robin@,
                                id2,
                            ) by {
                                crate::load_balancing::lemma_lb_has_push(
                                    rr_old,
                                    lb.round_robin@.last(),
                                    id2,
                                );
                            }
                            prov = prov.push((false, pentries@[p as int].0@));
                            assert(lb.round_robin@[prov.len() - 1].0 == l.id);
                            assert(lb_has(lb.round_robin@, l.id));
                        }
                    }
                },
                _ => {},
            }
            p += 1;
        }
        proof {
            lemma_partial_wf(lb, params, prov);
            assert forall|k: Seq<char>| params.strict_targets@.contains_key(k) implies
                lb_covers_route(lb, #[trigger] params.strict_targets@[k]) by {
                lemma_sorted_implies_unique(params.strict_targets.entries_seq());
                lemma_map_of_dom(params.strict_targets.entries_seq(), k);
                let j = choose|j: int|
                    0 <= j < params.strict_targets.entries_seq().len()
                        && params.strict_targets.entries_seq()[j].0@ == k;
                lemma_map_of_contained(params.strict_targets.entries_seq(), j);
                lemma_covered(lb, params, prov, true, k);
            }
            assert forall|k: Seq<char>| params.targets@.contains_key(k) implies lb_covers_route(
                lb,
                #[trigger] params.targets@[k],
            ) by {
                lemma_sorted_implies_unique(params.targets.entries_seq());
                lemma_map_of_dom(params.targets.entries_seq(), k);
                let j = choose|j: int|
                    0 <= j < params.targets.entries_seq().len()
                        && params.targets.entries_seq()[j].0@ == k;
                lemma_map_of_contained(params.targets.entries_seq(), j);
                lemma_covered(lb, params, prov, false, k);
            }
        }
        ServerHandler { params, loadbalancer: lb }
    }
}

/// A route present in the table is served by the balancer state that the
/// construction above leaves behind.
proof fn lemma_covered(
    lb: LoadBalancerConfig,
    params: ServerParams,
    prov: Seq<(bool, Seq<char>)>,
    strict: bool,
    k: Seq<char>,
)
    requires
        params.wf(),
        crate::config::params_ids_unique(params),
        lb_partial_inv(lb, params, prov),
        lb.wf(),
        (if strict {
            params.strict_targets@
        } else {
            params.targets@
        }).contains_key(k),
        ({
            let m = if strict {
                params.strict_targets@
            } else {
                params.targets@
            };
            m[k] matches TargetType::Location(l) ==> ((l.algo matches Option::Some(x) && x@
                == "round_robin"@) ==> lb_has(lb.round_robin@, l.id))
        }),
    ensures
        lb_covers_route(
            lb,
            (if strict {
                params.strict_targets@
            } else {
                params.targets@
            })[k],
        ),
{
    let m = if strict {
        params.strict_targets@
    } else {
        params.targets@
    };
    match m[k] {
        TargetType::Location(l) => {
            if l.params.location@.len() > 1 && (l.algo matches Option::Some(a) && a@
                == "round_robin"@) {
                assert(lb_has(lb.round_robin@, l.id));
                let q = choose|q: int|
                    0 <= q < lb.round_robin@.len() && (#[trigger] lb.round_robin@[q]).0 == l.id;
                assert(route_entry_match(params, prov[q], lb.round_robin@[q]));
                let rt = prov[q];
                let m2 = if rt.0 {
                    params.strict_targets@
                } else {
                    params.targets@
                };
                assert(m2[rt.1] matches TargetType::Location(l2) && l2.id == l.id);
                assert(crate::config::params_route_has_id(params, rt.0, rt.1, l.id));
                assert(crate::config::params_route_has_id(params, strict, k, l.id));
                assert(rt.0 == strict && rt.1 == k);
                crate::load_balancing::lemma_lb_get_at(lb.round_robin@, l.id, q);
                let e = lb_get(lb.round_robin@, l.id);
                assert(e == lb.round_robin@[q].1);
                match l.weights {
                    Option::Some(w) => {
                        lemma_spec_expand_bounds(w@);
                        assert(w@.len() == l.params.location@.len());
                        assert(rr_entry_ok(e, l.params.location@.len() as nat));
                    },
                    Option::None => {},
                }
            }
        },
        _ => {},
    }
}


/// What the outcome of dispatching target `t` looks like: a redirect
/// replies with its code and `Location` (target plus suffix on a prefix
/// match, with the target's trailing slash removed), a file server hands
/// the suffix on, and a proxy route forwards to the balanced backend.
pub open spec fn dispatched(
    pre: ServerHandler,
    post: ServerHandler,
    r: HandlerOutcome,
    t: TargetType,
    sfx: Option<Seq<char>>,
    authority: Seq<char>,
    path: Seq<char>,
    ip: Seq<char>,
    scheme: Seq<char>,
) -> bool {
    match t {
        TargetType::Redirection(red) => r matches HandlerOutcome::Respond(p) && p.status
            == red.code && p.headers@.len() == 1 && p.headers@[0].0@ == "Location"@
            && p.headers@[0].1@ == (match sfx {
            Option::None => red.params.location@,
            Option::Some(s) => spec_remove_last_slash(red.params.location@) + s,
        }) && p.body@ == Seq::<char>::empty() && post == pre,
        TargetType::FileServer(f) => r matches HandlerOutcome::ServeFile(pl) && pl.location@
            == f.params.location@ && pl.new_path@ == (match sfx {
            Option::None => Seq::<char>::empty(),
            Option::Some(s) => s,
        }) && pl.source_url@ == scheme + "://"@ + authority + path && (match f.fallback_file {
            Option::Some(ff) => pl.fallback_file matches Option::Some(pf) && pf@ == ff@,
            Option::None => pl.fallback_file is None,
        }) && pl.is_fallback_404 == f.is_fallback_404 && pl.forbidden_dir == f.forbidden_dir
            && crate::headers::headers_equiv(pl.headers, f.params.headers) && post == pre,
        TargetType::Location(l) => r matches HandlerOutcome::Proxy(pl) && ({
            let c = spec_choice(pre.loadbalancer.round_robin@, l, ip);
            &&& pl.uri@ == (match sfx {
                Option::None => l.params.location@[c]@,
                Option::Some(s) => spec_remove_last_slash(l.params.location@[c]@) + s,
            })
            &&& pl.authority@ == authority
            &&& pl.proxy_timeout == pre.params.proxy_timeout
            &&& crate::headers::headers_equiv(pl.headers, l.params.headers)
            &&& post.params == pre.params
        }),
    }
}

impl ServerHandler {
    /// Routes one request. In order: the in-flight request cap, host
    /// extraction, the auto-HTTPS redirect, the strict table, the prefix
    /// table from the greatest key downward, and a plain `500` when no
    /// route matches.
    #[verifier::loop_isolation(false)]
    pub fn handler(
        &mut self,
        req: &RequestInfo,
        max_req_available: bool,
        client_ip: &str,
        scheme: &str,
    ) -> (r: HandlerOutcome)
        requires
            old(self).inv(),
        ensures
            final(self).inv(),
            final(self).params == old(self).params,
            !max_req_available ==> (r matches HandlerOutcome::Respond(p) && p.status == 503
                && p.headers@.len() == 0 && p.body@
                == crate::http_response::spec_error_html(503) && *final(self) == *old(self)),
            (max_req_available && spec_req_authority(*req) is None) ==> (
            r matches HandlerOutcome::Respond(p) && p.status == 400 && p.headers@.len() == 0
                && p.body@ == crate::http_response::spec_error_html(400) && *final(self) == *old(
                self,
            )),
            (max_req_available && spec_req_authority(*req) is Some) ==> ({
                let auth = spec_req_authority(*req).unwrap();
                let host = spec_host_of(auth);
                let path = match req.path {
                    Option::Some(p) => p@,
                    Option::None => "/"@,
                };
                let auto = scheme@ == "http"@ && (old(
                    self,
                ).params.auto_tls matches Option::Some(list) && first_auto_match(list@, host)
                    is Some);
                &&& (auto ==> (r matches HandlerOutcome::Respond(p) && p.status == 308
                    && p.headers@.len() == 1 && p.headers@[0].0@ == "Location"@
                    && p.headers@[0].1@ == "https://"@ + first_auto_match(
                    old(self).params.auto_tls.unwrap()@,
                    host,
                ).unwrap() + path && p.body@ == Seq::<char>::empty() && *final(self) == *old(
                    self,
                )))
                &&& (!auto ==> (match spec_route(old(self).params, host + spec_remove_last_slash(
                    path,
                )) {
                    Option::Some(t) => dispatched(
                        *old(self),
                        *final(self),
                        r,
                        t.0,
                        t.1,
                        auth,
                        path,
                        client_ip@,
                        scheme@,
                    ),
                    Option::None => r matches HandlerOutcome::Respond(p) && p.status == 500
                        && p.headers@.len() == 0 && p.body@
                        == crate::http_response::spec_error_html(500) && *final(self) == *old(
                        self,
                    ),
                }))
            }),
    {
        if !max_req_available {
            return HandlerOutcome::Respond(service_unavailable());
        }
        let (authority, domain) = match get_authority_and_domain(req) {
            Option::Some(p) => p,
            Option::None => {
                return HandlerOutcome::Respond(bad_request());
            },
        };
        let path: &str = match &req.path {
            Option::Some(p) => p.as_str(),
            Option::None => "/",
        };
        if str_eq(scheme, "http") {
            match &self.params.auto_tls {
                Option::Some(list) => {
                    match find_auto_match(list, domain.as_str()) {
                        Option::Some(dom) => {
                            let mut loc = String::from_str("https://");
                            loc.append(dom.as_str());
                            loc.append(path);
                            return HandlerOutcome::Respond(redirect_response(308, loc));
                        },
                        Option::None => {},
                    }
                },
                Option::None => {},
            }
        }
        let mut match_url = String::from_str(domain.as_str());
        match_url.append(remove_last_slash(path));
        let ghost m = match_url@;
        let strict_hit = self.params.strict_targets.get(match_url.as_str()).is_some();
        if strict_hit {
            let t = match self.params.strict_targets.get(match_url.as_str()) {
                Option::Some(t) => t,
                Option::None => {
                    proof {
                        assert(false);
                    }
                    return HandlerOutcome::Respond(internal_server_error());
                },
            };
            match t {
                TargetType::Location(target) => {
                    proof {
                        assert(lb_covers_route(self.loadbalancer, self.params.strict_targets@[m]));
                    }
                    let location = self.loadbalancer.balance(
                        &target.id,
                        &target.params.location,
                        &target.algo,
                        client_ip,
                    );
                    let plan = ProxyPlan {
                        uri: location,
                        authority,
                        headers: copy_config_headers(&target.params.headers),
                        proxy_timeout: self.params.proxy_timeout,
                    };
                    proof {
                        lemma_covers_preserved(*old(self), *self);
                    }
                    return HandlerOutcome::Proxy(plan);
                },
                TargetType::FileServer(file_server) => {
                    let mut source_url = String::from_str(scheme);
                    source_url.append("://");
                    source_url.append(authority.as_str());
                    source_url.append(path);
                    let plan = FileServePlan {
                        location: String::from_str(file_server.params.location.as_str()),
                        new_path: String::new(),
                        source_url,
                        fallback_file: match &file_server.fallback_file {
                            Option::Some(f) => Some(String::from_str(f.as_str())),
                            Option::None => None,
                        },
                        is_fallback_404: file_server.is_fallback_404,
                        forbidden_dir: file_server.forbidden_dir,
                        headers: copy_config_headers(&file_server.params.headers),
                    };
                    return HandlerOutcome::ServeFile(plan);
                },
                TargetType::Redirection(redirection) => {
                    let loc = String::from_str(redirection.params.location.as_str());
                    return HandlerOutcome::Respond(
                        redirect_response(redirection.code, loc),
                    );
                },
            }
        }
        let n = self.params.targets.len();
        let mut i: usize = n;
        proof {
            assert(self.params.targets.entries_seq().take(n as int) =~= self.params.targets.entries_seq());
        }
        while i > 0
            invariant
                *self == *old(self),
                i <= n,
                n == self.params.targets.entries_seq().len(),
                best_prefix_idx(self.params.targets.entries_seq(), m) == best_prefix_idx(
                    self.params.targets.entries_seq().take(i as int),
                    m,
                ),
            decreases i,
        {
            i -= 1;
            let hit = {
                let entry = self.params.targets.entries();
                str_starts_with(match_url.as_str(), entry[i].0.as_str())
            };
            proof {
                let e = self.params.targets.entries_seq();
                assert(e.take(i + 1).drop_last() =~= e.take(i as int));
                assert(e.take(i + 1).last() == e[i as int]);
            }
            if hit {
                proof {
                    assert(best_prefix_idx(self.params.targets.entries_seq(), m) == Option::Some(
                        i as int,
                    ));
                }
                let suffix_owned = {
                    let entry = self.params.targets.entries();
                    let klen = entry[i].0.unicode_len();
                    let mlen = match_url.unicode_len();
                    String::from_str(match_url.as_str().substring_char(klen, mlen))
                };
                proof {
                    let e = self.params.targets.entries_seq();
                    assert(suffix_owned@ =~= m.skip(e[i as int].0@.len() as int));
                }
                proof {
                    let e = self.params.targets.entries_seq();
                    lemma_sorted_implies_unique(e);
                    lemma_map_of_contained(e, i as int);
                }
                let entries = self.params.targets.entries();
                match &entries[i].1 {
                    TargetType::Location(target) => {
                        proof {
                            let e = self.params.targets.entries_seq();
                            lemma_sorted_implies_unique(e);
                            lemma_map_of_contained(e, i as int);
                            assert(lb_covers_route(
                                self.loadbalancer,
                                self.params.targets@[e[i as int].0@],
                            ));
                        }
                        let location = self.loadbalancer.balance(
                            &target.id,
                            &target.params.location,
                            &target.algo,
                            client_ip,
                        );
                        let mut uri_path = String::from_str(remove_last_slash(location.as_str()));
                        uri_path.append(suffix_owned.as_str());
                        let plan = ProxyPlan {
                            uri: uri_path,
                            authority,
                            headers: copy_config_headers(&target.params.headers),
                            proxy_timeout: self.params.proxy_timeout,
                        };
                        proof {
                            lemma_covers_preserved(*old(self), *self);
                        }
                        return HandlerOutcome::Proxy(plan);
                    },
                    TargetType::FileServer(file_server) => {
                        let mut source_url = String::from_str(scheme);
                        source_url.append("://");
                        source_url.append(authority.as_str());
                        source_url.append(path);
                        let plan = FileServePlan {
                            location: String::from_str(file_server.params.location.as_str()),
                            new_path: suffix_owned,
                            source_url,
                            fallback_file: match &file_server.fallback_file {
                                Option::Some(f) => Some(String::from_str(f.as_str())),
                                Option::None => None,
                            },
                            is_fallback_404: file_server.is_fallback_404,
                            forbidden_dir: file_server.forbidden_dir,
                            headers: copy_config_headers(&file_server.params.headers),
                        };
                        return HandlerOutcome::ServeFile(plan);
                    },
                    TargetType::Redirection(redirection) => {
                        let mut uri_path = String::from_str(
                            remove_last_slash(redirection.params.location.as_str()),
                        );
                        uri_path.append(suffix_owned.as_str());
                        return HandlerOutcome::Respond(
                            redirect_response(redirection.code, uri_path),
                        );
                    },
                }
            }
        }
        proof {
            assert(self.params.targets.entries_seq().take(0) =~= Seq::<(String, TargetType)>::empty());
        }
        HandlerOutcome::Respond(internal_server_error())
    }
}

/// Stepping one round-robin counter leaves the coverage of the whole
/// table intact.
proof fn lemma_covers_preserved(pre: ServerHandler, post: ServerHandler)
    requires
        pre.inv(),
        post.params == pre.params,
        post.loadbalancer.wf(),
        forall|id2: u32|
            (lb_has(post.loadbalancer.round_robin@, id2) <==> lb_has(
                pre.loadbalancer.round_robin@,
                id2,
            )) && (lb_has(pre.loadbalancer.round_robin@, id2) ==> lb_get(
                post.loadbalancer.round_robin@,
                id2,
            ).weights_indices == lb_get(pre.loadbalancer.round_robin@, id2).weights_indices),
    ensures
        lb_covers(post.loadbalancer, post.params),
{
    assert forall|k: Seq<char>| post.params.strict_targets@.contains_key(k) implies
        lb_covers_route(post.loadbalancer, #[trigger] post.params.strict_targets@[k]) by {
        assert(lb_covers_route(pre.loadbalancer, pre.params.strict_targets@[k]));
    }
    assert forall|k: Seq<char>| post.params.targets@.contains_key(k) implies lb_covers_route(
        post.loadbalancer,
        #[trigger] post.params.targets@[k],
    ) by {
        assert(lb_covers_route(pre.loadbalancer, pre.params.targets@[k]));
    }
}




/// What became of the forwarded upstream request.
pub enum UpstreamOutcome {
    Succeeded,
    Failed,
    TimedOut,
}

/// What the proxy does with it.
pub enum UpstreamAction {
    Forward,
    Respond(HttpResponsePlan),
}

/// Maps the upstream outcome to the response policy: success forwards the
/// upstream response, a connect or read failure answers `502`, running
/// past the deadline answers `504`.
pub fn upstream_response_action(outcome: UpstreamOutcome) -> (r: UpstreamAction)
    ensures
        match outcome {
            UpstreamOutcome::Succeeded => r is Forward,
            UpstreamOutcome::Failed => r matches UpstreamAction::Respond(p) && p.status == 502
                && p.headers@.len() == 0 && p.body@ == crate::http_response::spec_error_html(502),
            UpstreamOutcome::TimedOut => r matches UpstreamAction::Respond(p) && p.status == 504
                && p.headers@.len() == 0 && p.body@ == crate::http_response::spec_error_html(504),
        },
{
    match outcome {
        UpstreamOutcome::Succeeded => UpstreamAction::Forward,
        UpstreamOutcome::Failed => UpstreamAction::Respond(crate::http_response::bad_gateway()),
        UpstreamOutcome::TimedOut => UpstreamAction::Respond(
            crate::http_response::gateway_timeout(),
        ),
    }
}

/// The authority of an absolute URL: what stands between `://` and the
/// next `/`, or nothing when the URL names no scheme.
pub open spec fn spec_authority_of(url: Seq<char>) -> Option<Seq<char>> {
    match crate::text::find_pat(url, "://"@, 0) {
        Option::Some(i) => {
            let rest = url.skip(i + 3);
            Option::Some(rest.subrange(0, crate::serve_file::first_slash(rest, 0)))
        },
        Option::None => Option::None,
    }
}

/// The headers the proxy forces onto the outgoing request: the upstream
/// `Host`, and the three forwarding headers; nothing when the target URL
/// has no authority to name.
pub fn proxy_request_headers(uri: &str, authority: &str, scheme: &str, client_ip: &str) -> (r:
    Option<Vec<(String, String)>>)
    ensures
        match spec_authority_of(uri@) {
            Option::Some(a) => r matches Option::Some(hs) && hs@.len() == 4 && hs@[0].0@
                == "Host"@ && hs@[0].1@ == a && hs@[1].0@ == "X-Forwarded-For"@ && hs@[1].1@
                == client_ip@ && hs@[2].0@ == "X-Forwarded-Host"@ && hs@[2].1@ == authority@
                && hs@[3].0@ == "X-Forwarded-Proto"@ && hs@[3].1@ == scheme@,
            Option::None => r is None,
        },
{
    proof {
        reveal_strlit("://");
    }
    let i = match crate::text::find_pat_exec(uri, "://", 0) {
        Option::Some(i) => i,
        Option::None => {
            return None;
        },
    };
    proof {
        crate::text::lemma_find_pat_bounds(uri@, "://"@, 0);
    }
    let n = uri.unicode_len();
    let start = i + 3;
    let ghost rest = uri@.skip(start as int);
    let j: usize = match crate::serve_file::find_slash(uri, start) {
        Option::Some(j) => {
            proof {
                assert forall|q: int| 0 <= q < j - start implies rest[q] != '/' by {
                    assert(rest[q] == uri@[start + q]);
                }
                assert(rest[j - start] == uri@[j as int]);
                crate::serve_file::lemma_first_slash_at(rest, 0, j - start);
            }
            j
        },
        Option::None => {
            proof {
                assert forall|q: int| 0 <= q < rest.len() implies rest[q] != '/' by {
                    assert(rest[q] == uri@[start + q]);
                }
                crate::serve_file::lemma_first_slash_none(rest);
            }
            n
        },
    };
    let upstream_host = String::from_str(uri.substring_char(start, j));
    proof {
        assert(upstream_host@ =~= rest.subrange(0, j - start));
    }
    let mut hs: Vec<(String, String)> = Vec::new();
    hs.push((String::from_str("Host"), upstream_host));
    hs.push((String::from_str("X-Forwarded-For"), String::from_str(client_ip)));
    hs.push((String::from_str("X-Forwarded-Host"), String::from_str(authority)));
    hs.push((String::from_str("X-Forwarded-Proto"), String::from_str(scheme)));
    Some(hs)
}

/// The auto-TLS entry a TLS service leaves in its server's list fires the
/// router's auto-HTTPS step for the service domain, and the redirect
/// points at an HTTPS URL on that domain: plain-HTTP traffic to the
/// domain is answered `308` with a `Location` starting `https://` plus
/// the domain.
pub proof fn lemma_auto_tls_redirect(
    s: crate::config::Server,
    domain: Seq<char>,
    path: Seq<char>,
)
    requires
        crate::config::auto_tls_contains(
            s,
            crate::config::spec_tls_entry(domain, s.https_port),
        ),
    ensures
        s.params.auto_tls matches Option::Some(list) && first_auto_match(list@, domain) is Some,
        is_prefix_of(
            "https://"@ + domain,
            "https://"@ + first_auto_match(s.params.auto_tls.unwrap()@, domain).unwrap() + path,
        ),
{
    let entry = crate::config::spec_tls_entry(domain, s.https_port);
    let list = s.params.auto_tls.unwrap();
    assert(is_prefix_of(domain, entry)) by {
        if s.https_port != 443 {
            assert(entry.subrange(0, domain.len() as int) =~= domain);
        } else {
            assert(entry.subrange(0, domain.len() as int) =~= domain);
        }
    }
    let i = choose|i: int| 0 <= i < list@.len() && (#[trigger] list@[i])@ == entry;
    lemma_first_auto_some(list@, domain, i);
    let e = first_auto_match(list@, domain).unwrap();
    assert(is_prefix_of(domain, e));
    let whole = "https://"@ + e + path;
    let want = "https://"@ + domain;
    assert(whole.subrange(0, want.len() as int) =~= want) by {
        assert forall|q: int| 0 <= q < want.len() implies whole[q] == want[q] by {
            if q < "https://"@.len() {
            } else {
                assert(whole[q] == e[q - "https://"@.len()]);
                assert(e.subrange(0, domain.len() as int) == domain);
                assert(e[q - "https://"@.len()] == domain[q - "https://"@.len()]);
            }
        }
    }
}

/// A list with a matching entry yields a match, itself matching.
proof fn lemma_first_auto_some(list: Seq<String>, host: Seq<char>, i: int)
    requires
        0 <= i < list.len(),
        is_prefix_of(host, list[i]@),
    ensures
        first_auto_match(list, host) is Some,
        is_prefix_of(host, first_auto_match(list, host).unwrap()),
    decreases list.len(),
{
    if list.len() > 0 && !is_prefix_of(host, list[0]@) {
        assert(list.drop_first()[i - 1]@ == list[i]@);
        lemma_first_auto_some(list.drop_first(), host, i - 1);
    }
}


} // verus!
