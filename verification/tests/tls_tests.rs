use std::sync::Arc;
use quark::tls::{
    IpcCerts, TlsConfig, add_certificate_to_certified_key_list, convert_to_wildcard,
    get_domains_and_ck, reload_certificates, resolve_sni,
};

fn self_signed(names: &[&str]) -> IpcCerts {
    let cert = rcgen::generate_simple_self_signed(
        names.iter().map(|n| n.to_string()).collect::<Vec<_>>(),
    )
    .unwrap();
    IpcCerts {
        cert: cert.cert.pem().into_bytes(),
        key: cert.signing_key.serialize_pem().into_bytes(),
    }
}

#[test]
fn wildcard_conversion() {
    assert_eq!(convert_to_wildcard("a.example.com"), "*.example.com");
    assert_eq!(convert_to_wildcard("localhost"), "*");
}

#[test]
fn domains_extracted_from_san() {
    let bundle = self_signed(&["s.test", "alt.test"]);
    let (domains, _ck) = get_domains_and_ck(&bundle).unwrap();
    assert_eq!(domains, vec!["s.test".to_string(), "alt.test".to_string()]);
}

#[test]
fn garbage_bundle_is_rejected() {
    let bundle = IpcCerts { cert: b"not pem".to_vec(), key: b"nope".to_vec() };
    assert!(get_domains_and_ck(&bundle).is_none());
}

#[test]
fn sni_resolution_exact_and_wildcard() {
    let tls = TlsConfig::new(vec![self_signed(&["s.test"]), self_signed(&["*.wild.test"])]);
    let store = tls.get_certified_key_list();
    assert!(resolve_sni(&store, "s.test").is_some());
    assert!(resolve_sni(&store, "a.wild.test").is_some());
    assert!(resolve_sni(&store, "missing.test").is_none());
}

#[test]
fn reload_replaces_in_place_and_keeps_keys() {
    let v1 = self_signed(&["s.test"]);
    let mut store = quark::strmap::StrMap::new();
    add_certificate_to_certified_key_list(&v1, &mut store);
    let before = resolve_sni(&store, "s.test").unwrap().clone();

    let v2 = self_signed(&["s.test"]);
    reload_certificates(&v2, &mut store);
    let after = resolve_sni(&store, "s.test").unwrap().clone();
    assert!(!Arc::ptr_eq(&before, &after));

    // a bundle that does not parse leaves the old certificate in place
    let broken = IpcCerts { cert: b"x".to_vec(), key: b"y".to_vec() };
    reload_certificates(&broken, &mut store);
    let still = resolve_sni(&store, "s.test").unwrap().clone();
    assert!(Arc::ptr_eq(&after, &still));
}

#[test]
fn reload_never_adds_keys() {
    let v1 = self_signed(&["s.test"]);
    let mut store = quark::strmap::StrMap::new();
    add_certificate_to_certified_key_list(&v1, &mut store);
    let other = self_signed(&["new.test"]);
    reload_certificates(&other, &mut store);
    assert!(resolve_sni(&store, "new.test").is_none());
    assert!(resolve_sni(&store, "s.test").is_some());
}
