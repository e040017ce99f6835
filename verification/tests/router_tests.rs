use quark::config::{IdGen, ServiceConfig};
use quark::handler::{HandlerOutcome, RequestInfo, ServerHandler, proxy_request_headers};
use quark::strmap::StrMap;
use quark::toml_model;

fn compile(services: Vec<(&str, toml_model::Service)>) -> ServiceConfig {
    let mut map = StrMap::new();
    for (name, svc) in services {
        map.insert(name.to_string(), svc);
    }
    let config = toml_model::ConfigToml {
        import: None,
        global: None,
        servers: None,
        services: Some(map),
        loadbalancers: None,
    };
    let mut ids = IdGen::new();
    ServiceConfig::build_from(config, &mut ids)
}

fn handler_for(mut sc: ServiceConfig) -> ServerHandler {
    let server = sc.servers.remove_entry("main").unwrap();
    ServerHandler::new(server.params)
}

fn req(host: &str, path: &str) -> RequestInfo {
    RequestInfo {
        authority: None,
        host_header: Some(host.to_string()),
        path: Some(path.to_string()),
    }
}

#[test]
fn proxy_prefix_route_rewrites_path() {
    let sc = compile(vec![(
        "svc",
        toml_model::Service {
            domain: "api.example".to_string(),
            server: None,
            locations: Some(vec![toml_model::Locations {
                source: "/v1/*".to_string(),
                target: "http://10.0.0.5:9000".to_string(),
                headers: None,
            }]),
            file_servers: None,
            redirections: None,
            tls: None,
            headers: None,
        },
    )]);
    let mut h = handler_for(sc);
    let outcome = h.handler(&req("api.example", "/v1/users/3"), true, "198.51.100.7", "http");
    match outcome {
        HandlerOutcome::Proxy(plan) => {
            assert_eq!(plan.uri, "http://10.0.0.5:9000/users/3");
            assert_eq!(plan.authority, "api.example");
            assert_eq!(plan.proxy_timeout, 60);
            let headers = proxy_request_headers(
                plan.uri.as_str(),
                plan.authority.as_str(),
                "http",
                "198.51.100.7",
            )
            .unwrap();
            assert_eq!(headers[0], ("Host".to_string(), "10.0.0.5:9000".to_string()));
            assert_eq!(
                headers[1],
                ("X-Forwarded-For".to_string(), "198.51.100.7".to_string())
            );
            assert_eq!(
                headers[2],
                ("X-Forwarded-Host".to_string(), "api.example".to_string())
            );
            assert_eq!(
                headers[3],
                ("X-Forwarded-Proto".to_string(), "http".to_string())
            );
        }
        _ => panic!("expected a proxy plan"),
    }
}

#[test]
fn auto_https_redirects_with_308() {
    let sc = compile(vec![(
        "svc",
        toml_model::Service {
            domain: "a.test".to_string(),
            server: None,
            locations: None,
            file_servers: None,
            redirections: None,
            tls: Some(toml_model::Tls {
                certificate: "/c.pem".to_string(),
                key: "/k.pem".to_string(),
                redirection: Some(true),
            }),
            headers: None,
        },
    )]);
    let mut h = handler_for(sc);
    let outcome = h.handler(&req("a.test", "/x"), true, "192.0.2.1", "http");
    match outcome {
        HandlerOutcome::Respond(p) => {
            assert_eq!(p.status, 308);
            assert_eq!(p.headers[0].0, "Location");
            assert_eq!(p.headers[0].1, "https://a.test/x");
            assert!(p.body.is_empty());
        }
        _ => panic!("expected a redirect"),
    }
}

#[test]
fn strict_match_takes_precedence_over_prefix() {
    let sc = compile(vec![(
        "svc",
        toml_model::Service {
            domain: "p.test".to_string(),
            server: None,
            locations: None,
            file_servers: None,
            redirections: Some(vec![
                toml_model::Redirections {
                    source: "/x".to_string(),
                    target: "https://strict.example".to_string(),
                    code: Some(302),
                },
                toml_model::Redirections {
                    source: "/*".to_string(),
                    target: "https://prefix.example".to_string(),
                    code: Some(307),
                },
            ]),
            tls: None,
            headers: None,
        },
    )]);
    let mut h = handler_for(sc);
    let outcome = h.handler(&req("p.test", "/x"), true, "192.0.2.1", "http");
    match outcome {
        HandlerOutcome::Respond(p) => {
            assert_eq!(p.status, 302);
            assert_eq!(p.headers[0].1, "https://strict.example");
        }
        _ => panic!("expected the strict redirect"),
    }
    // a path only the prefix entry matches
    let outcome = h.handler(&req("p.test", "/other"), true, "192.0.2.1", "http");
    match outcome {
        HandlerOutcome::Respond(p) => {
            assert_eq!(p.status, 307);
            assert_eq!(p.headers[0].1, "https://prefix.example/other");
        }
        _ => panic!("expected the prefix redirect"),
    }
}

#[test]
fn request_cap_gives_503() {
    let sc = compile(vec![]);
    let mut h = handler_for(sc);
    match h.handler(&req("x", "/"), false, "192.0.2.1", "http") {
        HandlerOutcome::Respond(p) => assert_eq!(p.status, 503),
        _ => panic!("expected a response"),
    }
}

#[test]
fn missing_host_gives_400() {
    let sc = compile(vec![]);
    let mut h = handler_for(sc);
    let r = RequestInfo { authority: None, host_header: None, path: Some("/".to_string()) };
    match h.handler(&r, true, "192.0.2.1", "http") {
        HandlerOutcome::Respond(p) => assert_eq!(p.status, 400),
        _ => panic!("expected a response"),
    }
}

#[test]
fn unmatched_route_gives_500() {
    let sc = compile(vec![]);
    let mut h = handler_for(sc);
    match h.handler(&req("nowhere.test", "/zzz"), true, "192.0.2.1", "http") {
        HandlerOutcome::Respond(p) => assert_eq!(p.status, 500),
        _ => panic!("expected a response"),
    }
}

#[test]
fn authority_beats_host_header() {
    let r = RequestInfo {
        authority: Some("h2.test:8443".to_string()),
        host_header: Some("ignored.test".to_string()),
        path: None,
    };
    let (authority, host) = quark::handler::get_authority_and_domain(&r).unwrap();
    assert_eq!(authority, "h2.test:8443");
    assert_eq!(host, "h2.test");
}

#[test]
fn file_route_traversal_is_confined() {
    let sc = compile(vec![(
        "svc",
        toml_model::Service {
            domain: "f.test".to_string(),
            server: None,
            locations: None,
            file_servers: Some(vec![toml_model::FileServers {
                source: "/*".to_string(),
                target: "/srv/public".to_string(),
                target_is_file: false,
                authorized_dirs: None,
                custom_404: None,
                headers: None,
            }]),
            redirections: None,
            tls: None,
            headers: None,
        },
    )]);
    let mut h = handler_for(sc);
    let outcome = h.handler(&req("f.test", "/../../etc/passwd"), true, "192.0.2.1", "http");
    match outcome {
        HandlerOutcome::ServeFile(plan) => {
            assert_eq!(plan.location, "/srv/public");
            assert_eq!(plan.new_path, "/../../etc/passwd");
            // the decision opens only under the root
            let d = quark::serve_file::serve_file(
                &plan.location,
                &plan.new_path,
                &plan.source_url,
                &plan.fallback_file,
                plan.is_fallback_404,
                plan.forbidden_dir,
                false,
                false,
            );
            match d {
                quark::serve_file::FileDecision::ServeFileAt { path, .. } => {
                    assert_eq!(path, "/srv/public/etc/passwd");
                    assert!(path.starts_with("/srv/public"));
                }
                _ => panic!("expected a file attempt"),
            }
        }
        _ => panic!("expected a file-serve plan"),
    }
}
