use quark::config::{IdGen, ServerParams, ServiceConfig, TargetType, www_auto_redirection};
use quark::strmap::{SortedStrMap, StrMap};
use quark::toml_model;

fn assert_www_redirection(
    source_domain: &str,
    target_domain: &str,
    expected_url: &str,
    port: u16,
    tls: bool,
) {
    let mut params = ServerParams {
        targets: SortedStrMap::new(),
        strict_targets: SortedStrMap::new(),
        auto_tls: None,
        proxy_timeout: 60,
    };
    www_auto_redirection(&mut params, target_domain, port, tls);
    let target = params.targets.get(source_domain).unwrap();
    assert!(
        matches!(target, TargetType::Redirection(_)),
        "Expected TargetType::Redirection"
    );
    if let TargetType::Redirection(url) = target {
        assert_eq!(url.params.location, expected_url);
        assert_eq!(url.code, 301);
    }
}

#[test]
fn www_subdomain_to_apex_domain_http() {
    assert_www_redirection("www.example.com", "example.com", "http://example.com", 80, false);
}

#[test]
fn www_subdomain_to_apex_domain_https() {
    assert_www_redirection("www.example.com", "example.com", "https://example.com", 443, true);
}

#[test]
fn apex_domain_to_www_subdomain_http() {
    assert_www_redirection("example.com", "www.example.com", "http://www.example.com", 80, false);
}

#[test]
fn apex_domain_to_www_subdomain_https() {
    assert_www_redirection(
        "example.com",
        "www.example.com",
        "https://www.example.com",
        443,
        true,
    );
}

#[test]
fn www_subdomain_to_apex_domain_http_with_port() {
    assert_www_redirection(
        "www.example.com",
        "example.com",
        "http://example.com:8080",
        8080,
        false,
    );
}

#[test]
fn www_subdomain_to_apex_domain_https_with_port() {
    assert_www_redirection(
        "www.example.com",
        "example.com",
        "https://example.com:8443",
        8443,
        true,
    );
}

fn one_service_config(domain: &str, locations: Vec<toml_model::Locations>) -> toml_model::ConfigToml {
    let mut services = StrMap::new();
    services.insert(
        "svc".to_string(),
        toml_model::Service {
            domain: domain.to_string(),
            server: None,
            locations: Some(locations),
            file_servers: None,
            redirections: None,
            tls: None,
            headers: None,
        },
    );
    toml_model::ConfigToml {
        import: None,
        global: None,
        servers: None,
        services: Some(services),
        loadbalancers: None,
    }
}

#[test]
fn build_from_synthesizes_main_server() {
    let config = one_service_config(
        "api.example",
        vec![toml_model::Locations {
            source: "/v1/*".to_string(),
            target: "http://10.0.0.5:9000".to_string(),
            headers: None,
        }],
    );
    let mut ids = IdGen::new();
    let sc = ServiceConfig::build_from(config, &mut ids);
    assert!(!sc.empty);
    let main = sc.servers.get("main").unwrap();
    assert_eq!(main.port, 80);
    assert_eq!(main.https_port, 443);
    assert_eq!(main.params.proxy_timeout, 60);
    // the prefix route stands under domain plus normalized source
    let t = main.params.targets.get("api.example/v1").unwrap();
    match t {
        TargetType::Location(l) => {
            assert_eq!(l.params.location, vec!["http://10.0.0.5:9000".to_string()]);
            assert!(l.algo.is_none());
        }
        _ => panic!("expected a proxy route"),
    }
    // global defaults
    assert_eq!(sc.global.backlog, 4096);
    assert_eq!(sc.global.max_conn, 1024);
    assert_eq!(sc.global.max_req, 100);
    assert!(sc.global.keepalive);
}

#[test]
fn build_from_unique_location_ids() {
    let config = one_service_config(
        "a.test",
        vec![
            toml_model::Locations {
                source: "/x/*".to_string(),
                target: "http://h1".to_string(),
                headers: None,
            },
            toml_model::Locations {
                source: "/y/*".to_string(),
                target: "http://h2".to_string(),
                headers: None,
            },
        ],
    );
    let mut ids = IdGen::new();
    let sc = ServiceConfig::build_from(config, &mut ids);
    let main = sc.servers.get("main").unwrap();
    let mut seen: Vec<u32> = Vec::new();
    for (_, t) in main.params.targets.entries().iter() {
        if let TargetType::Location(l) = t {
            assert!(!seen.contains(&l.id));
            seen.push(l.id);
        }
    }
    assert_eq!(seen.len(), 2);
}

#[test]
fn build_from_twice_gives_equal_tables() {
    let make = || {
        one_service_config(
            "a.test",
            vec![toml_model::Locations {
                source: "/x/*".to_string(),
                target: "http://h1".to_string(),
                headers: None,
            }],
        )
    };
    let mut ids1 = IdGen::new();
    let sc1 = ServiceConfig::build_from(make(), &mut ids1);
    let mut ids2 = IdGen::new();
    let sc2 = ServiceConfig::build_from(make(), &mut ids2);
    assert_eq!(sc1, sc2);
}

#[test]
fn build_from_auto_tls_entry() {
    let mut services = StrMap::new();
    services.insert(
        "svc".to_string(),
        toml_model::Service {
            domain: "a.test".to_string(),
            server: None,
            locations: None,
            file_servers: None,
            redirections: None,
            tls: Some(toml_model::Tls {
                certificate: "/etc/cert.pem".to_string(),
                key: "/etc/key.pem".to_string(),
                redirection: None,
            }),
            headers: None,
        },
    );
    let config = toml_model::ConfigToml {
        import: None,
        global: None,
        servers: None,
        services: Some(services),
        loadbalancers: None,
    };
    let mut ids = IdGen::new();
    let sc = ServiceConfig::build_from(config, &mut ids);
    let main = sc.servers.get("main").unwrap();
    let auto = main.params.auto_tls.as_ref().unwrap();
    assert_eq!(auto, &vec!["a.test".to_string()]);
    let tls = main.tls.as_ref().unwrap();
    assert_eq!(tls.len(), 1);
    assert_eq!(tls[0].cert, "/etc/cert.pem");
}

#[test]
fn redirection_code_normalized() {
    let mut services = StrMap::new();
    services.insert(
        "svc".to_string(),
        toml_model::Service {
            domain: "r.test".to_string(),
            server: None,
            locations: None,
            file_servers: None,
            redirections: Some(vec![toml_model::Redirections {
                source: "/go".to_string(),
                target: "https://elsewhere".to_string(),
                code: Some(999),
            }]),
            tls: None,
            headers: None,
        },
    );
    let config = toml_model::ConfigToml {
        import: None,
        global: None,
        servers: None,
        services: Some(services),
        loadbalancers: None,
    };
    let mut ids = IdGen::new();
    let sc = ServiceConfig::build_from(config, &mut ids);
    let main = sc.servers.get("main").unwrap();
    match main.params.strict_targets.get("r.test/go").unwrap() {
        TargetType::Redirection(red) => {
            assert_eq!(red.code, 301);
            assert_eq!(red.params.location, "https://elsewhere");
        }
        _ => panic!("expected a redirection"),
    }
}

#[test]
fn source_and_strict_mode_normalization() {
    assert_eq!(quark::config::source_and_strict_mode("/v1/*"), ("/v1", false));
    assert_eq!(quark::config::source_and_strict_mode("/v1/"), ("/v1", true));
    assert_eq!(quark::config::source_and_strict_mode("/v1"), ("/v1", true));
}

#[test]
fn dir_mode_and_access() {
    assert_eq!(quark::config::dir_strict_mode_and_access("!/private/*"), ("/private", false, true));
    assert_eq!(quark::config::dir_strict_mode_and_access("/open"), ("/open", true, false));
}

#[test]
fn manage_weights_pads_with_one() {
    let w = quark::config::manage_weights(3, &Some(vec![4, 2]));
    assert_eq!(w, Some(vec![4, 2, 1]));
    assert_eq!(quark::config::manage_weights(3, &None), None);
}

#[test]
fn backends_expand_from_pool() {
    let mut pools = StrMap::new();
    pools.insert(
        "pool".to_string(),
        toml_model::Loadbalancer {
            algo: "round_robin".to_string(),
            backends: vec!["10.0.0.1".to_string(), "10.0.0.2".to_string()],
            weights: None,
        },
    );
    let (backends, algo, weights) =
        quark::config::get_backends_config("http://${pool}:9000", &Some(pools));
    assert_eq!(
        backends,
        vec!["http://10.0.0.1:9000".to_string(), "http://10.0.0.2:9000".to_string()]
    );
    assert_eq!(algo, Some("round_robin".to_string()));
    assert_eq!(weights, None);
}

#[test]
fn empty_config_is_flagged() {
    let config = toml_model::ConfigToml {
        import: None,
        global: None,
        servers: None,
        services: None,
        loadbalancers: None,
    };
    let mut ids = IdGen::new();
    let sc = ServiceConfig::build_from(config, &mut ids);
    assert!(sc.empty);
    assert!(sc.servers.get("main").is_some());
}

#[test]
fn declared_server_keeps_its_ports() {
    let mut servers = StrMap::new();
    servers.insert(
        "edge".to_string(),
        toml_model::Server {
            port: Some(8080),
            https_port: Some(8443),
            proxy_timeout: Some(5),
            headers: None,
        },
    );
    let config = toml_model::ConfigToml {
        import: None,
        global: None,
        servers: Some(servers),
        services: None,
        loadbalancers: None,
    };
    let mut ids = IdGen::new();
    let sc = ServiceConfig::build_from(config, &mut ids);
    let edge = sc.servers.get("edge").unwrap();
    assert_eq!(edge.port, 8080);
    assert_eq!(edge.https_port, 8443);
    assert_eq!(edge.params.proxy_timeout, 5);
}

#[test]
fn certificate_list_appends_and_dedups() {
    let mut services = StrMap::new();
    let tls = |cert: &str| toml_model::Tls {
        certificate: cert.to_string(),
        key: "/k.pem".to_string(),
        redirection: Some(false),
    };
    services.insert(
        "a".to_string(),
        toml_model::Service {
            domain: "a.test".to_string(),
            server: None,
            locations: None,
            file_servers: None,
            redirections: None,
            tls: Some(tls("/one.pem")),
            headers: None,
        },
    );
    services.insert(
        "b".to_string(),
        toml_model::Service {
            domain: "b.test".to_string(),
            server: None,
            locations: None,
            file_servers: None,
            redirections: None,
            tls: Some(tls("/two.pem")),
            headers: None,
        },
    );
    services.insert(
        "c".to_string(),
        toml_model::Service {
            domain: "c.test".to_string(),
            server: None,
            locations: None,
            file_servers: None,
            redirections: None,
            tls: Some(tls("/one.pem")),
            headers: None,
        },
    );
    let config = toml_model::ConfigToml {
        import: None,
        global: None,
        servers: None,
        services: Some(services),
        loadbalancers: None,
    };
    let mut ids = IdGen::new();
    let sc = ServiceConfig::build_from(config, &mut ids);
    let main = sc.servers.get("main").unwrap();
    let tls_list = main.tls.as_ref().unwrap();
    // every distinct pair survives, appended in service order, once each
    let pairs: Vec<&str> = tls_list.iter().map(|c| c.cert.as_str()).collect();
    assert_eq!(pairs, vec!["/one.pem", "/two.pem"]);
}

#[test]
fn auto_tls_has_one_entry_per_tls_service() {
    let mut services = StrMap::new();
    services.insert(
        "plain".to_string(),
        toml_model::Service {
            domain: "plain.test".to_string(),
            server: None,
            locations: None,
            file_servers: None,
            redirections: None,
            tls: None,
            headers: None,
        },
    );
    services.insert(
        "secure".to_string(),
        toml_model::Service {
            domain: "secure.test".to_string(),
            server: None,
            locations: None,
            file_servers: None,
            redirections: None,
            tls: Some(toml_model::Tls {
                certificate: "/c.pem".to_string(),
                key: "/k.pem".to_string(),
                redirection: None,
            }),
            headers: None,
        },
    );
    services.insert(
        "off".to_string(),
        toml_model::Service {
            domain: "off.test".to_string(),
            server: None,
            locations: None,
            file_servers: None,
            redirections: None,
            tls: Some(toml_model::Tls {
                certificate: "/c2.pem".to_string(),
                key: "/k2.pem".to_string(),
                redirection: Some(false),
            }),
            headers: None,
        },
    );
    let config = toml_model::ConfigToml {
        import: None,
        global: None,
        servers: None,
        services: Some(services),
        loadbalancers: None,
    };
    let mut ids = IdGen::new();
    let sc = ServiceConfig::build_from(config, &mut ids);
    let main = sc.servers.get("main").unwrap();
    // exactly the one redirecting TLS service appears, nothing else
    assert_eq!(main.params.auto_tls.as_ref().unwrap(), &vec!["secure.test".to_string()]);
}

#[test]
fn cross_mode_key_conflict_keeps_the_first_declaration() {
    let mut services = StrMap::new();
    services.insert(
        "svc".to_string(),
        toml_model::Service {
            domain: "d.test".to_string(),
            server: None,
            locations: Some(vec![toml_model::Locations {
                // strict source: normalizes to the key d.test/a
                source: "/a/".to_string(),
                target: "http://backend".to_string(),
                headers: None,
            }]),
            file_servers: None,
            redirections: Some(vec![toml_model::Redirections {
                // prefix source with the same normalized key
                source: "/a/*".to_string(),
                target: "https://elsewhere".to_string(),
                code: Some(302),
            }]),
            tls: None,
            headers: None,
        },
    );
    let config = toml_model::ConfigToml {
        import: None,
        global: None,
        servers: None,
        services: Some(services),
        loadbalancers: None,
    };
    let mut ids = IdGen::new();
    let sc = ServiceConfig::build_from(config, &mut ids);
    let main = sc.servers.get("main").unwrap();
    // the key sets stay disjoint: the earlier declaration wins
    assert!(main.params.strict_targets.get("d.test/a").is_some());
    assert!(main.params.targets.get("d.test/a").is_none());
}
