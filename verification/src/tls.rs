//! The certificate store: PEM bundles parsed into certified keys, indexed
//! by the SAN DNS names, with exact-then-wildcard SNI resolution and
//! in-place reload.
use vstd::prelude::*;
use std::sync::Arc;
use std::io::{BufReader, Cursor};
use crate::strmap::StrMap;

verus! {

#[verifier::external_type_specification]
#[verifier::external_body]
pub struct ExCertifiedKey(rustls::sign::CertifiedKey);

/// Relies on alloc's Arc::clone: the clone is the same shared value.
#[verifier::external_body]
fn clone_ck(a: &Arc<rustls::sign::CertifiedKey>) -> (r: Arc<rustls::sign::CertifiedKey>)
    ensures
        r == *a,
{
    a.clone()
}

/// A certificate bundle as it crosses the process boundary: the PEM bytes
/// of the chain and of the private key.
pub struct IpcCerts {
    pub cert: Vec<u8>,
    pub key: Vec<u8>,
}

/// The worker-side store: one certified key per SAN DNS name.
pub type CertifiedKeyList = StrMap<Arc<rustls::sign::CertifiedKey>>;

/// Relies on x509-parser's parse_x509_pem: the DER body of the first PEM
/// block, a function of the input bytes alone; absent when the input is
/// not PEM.
pub uninterp spec fn pem_body_of(pem: Seq<u8>) -> Option<Seq<u8>>;

/// Relies on x509-parser's parse_x509_pem.
#[verifier::external_body]
fn pem_contents(pem: &Vec<u8>) -> (r: Option<Vec<u8>>)
    ensures
        match pem_body_of(pem@) {
            Option::Some(b) => r matches Option::Some(x) && x@ == b,
            Option::None => r is None,
        },
{
    let (_, p) = x509_parser::pem::parse_x509_pem(pem.as_slice()).ok()?;
    Some(p.contents)
}

/// Relies on x509-parser's parse_x509_certificate: the DNS names of the
/// certificate's Subject Alternative Name extension, in order, a function
/// of the DER bytes alone; absent when they do not parse.
pub uninterp spec fn san_of(der: Seq<u8>) -> Option<Seq<Seq<char>>>;

/// Relies on x509-parser's parse_x509_certificate and its extension walk.
#[verifier::external_body]
fn san_dns_names(der: &Vec<u8>) -> (r: Option<Vec<String>>)
    ensures
        match san_of(der@) {
            Option::Some(d) => r matches Option::Some(v) && v@.map_values(|s: String| s@) == d,
            Option::None => r is None,
        },
{
    let (_, cert) = x509_parser::parse_x509_certificate(der.as_slice()).ok()?;
    let mut out: Vec<String> = Vec::new();
    for ext in cert.extensions() {
        if let x509_parser::prelude::ParsedExtension::SubjectAlternativeName(san) =
            ext.parsed_extension() {
            for n in &san.general_names {
                if let x509_parser::prelude::GeneralName::DNSName(d) = n {
                    out.push(d.to_string());
                }
            }
        }
    }
    Some(out)
}

/// Relies on rustls-pemfile's certs and private_key, rustls's
/// aws_lc_rs any_supported_type and CertifiedKey::new: whether a PEM chain
/// and key parse into a certified key depends on the bytes alone.
pub uninterp spec fn cert_key_parses(cert: Seq<u8>, key: Seq<u8>) -> bool;

/// Relies on rustls-pemfile's certs and private_key, rustls's
/// aws_lc_rs::sign::any_supported_type, and CertifiedKey::new.
#[verifier::external_body]
fn certified_key_from_pem(cert: &Vec<u8>, key: &Vec<u8>) -> (r: Option<
    Arc<rustls::sign::CertifiedKey>,
>)
    ensures
        r is Some <==> cert_key_parses(cert@, key@),
{
    let mut creader = BufReader::new(Cursor::new(cert.as_slice()));
    let chain: Vec<_> = rustls_pemfile::certs(&mut creader).collect::<Result<_, _>>().ok()?;
    let mut kreader = BufReader::new(Cursor::new(key.as_slice()));
    let k = rustls_pemfile::private_key(&mut kreader).ok().flatten()?;
    let sign = rustls::crypto::aws_lc_rs::sign::any_supported_type(&k).ok()?;
    Some(Arc::new(rustls::sign::CertifiedKey::new(chain, sign)))
}

/// The SAN DNS names of a PEM bundle.
pub open spec fn spec_domains_of(pem: Seq<u8>) -> Option<Seq<Seq<char>>> {
    match pem_body_of(pem) {
        Option::Some(der) => san_of(der),
        Option::None => Option::None,
    }
}

/// The domains and the certified key of one bundle; nothing when either
/// side fails to parse.
pub fn get_domains_and_ck(cert: &IpcCerts) -> (r: Option<
    (Vec<String>, Arc<rustls::sign::CertifiedKey>),
>)
    ensures
        r is Some <==> (cert_key_parses(cert.cert@, cert.key@) && spec_domains_of(cert.cert@)
            is Some),
        r matches Option::Some(p) ==> p.0@.map_values(|s: String| s@) == spec_domains_of(
            cert.cert@,
        ).unwrap(),
{
    let ck = match certified_key_from_pem(&cert.cert, &cert.key) {
        Option::Some(ck) => ck,
        Option::None => {
            return None;
        },
    };
    let der = match pem_contents(&cert.cert) {
        Option::Some(d) => d,
        Option::None => {
            return None;
        },
    };
    match san_dns_names(&der) {
        Option::Some(domains) => Some((domains, ck)),
        Option::None => None,
    }
}

/// Index of the first `.` in `s`, or the length of `s`.
pub closed spec fn first_dot(s: Seq<char>, pos: int) -> int
    decreases s.len() - pos when 0 <= pos <= s.len()
{
    if pos >= s.len() {
        s.len() as int
    } else if s[pos] == '.' {
        pos
    } else {
        first_dot(s, pos + 1)
    }
}

proof fn lemma_first_dot_bounds(s: Seq<char>, pos: int)
    requires
        0 <= pos <= s.len(),
    ensures
        pos <= first_dot(s, pos) <= s.len(),
    decreases s.len() - pos,
{
    if pos < s.len() && s[pos] != '.' {
        lemma_first_dot_bounds(s, pos + 1);
    }
}

/// The single-label wildcard of a server name: the first label replaced by
/// `*`.
pub open spec fn spec_wildcard(s: Seq<char>) -> Seq<char> {
    "*"@ + s.skip(first_dot(s, 0))
}

/// Replaces the first DNS label with `*`.
pub fn convert_to_wildcard(server_name: &str) -> (r: String)
    ensures
        r@ == spec_wildcard(server_name@),
{
    let n = server_name.unicode_len();
    let mut i: usize = 0;
    proof {
        lemma_first_dot_bounds(server_name@, 0);
    }
    while i < n
        invariant
            i <= n,
            n == server_name@.len(),
            first_dot(server_name@, 0) == first_dot(server_name@, i as int),
        decreases n - i,
    {
        if server_name.get_char(i) == '.' {
            let mut out = String::from_str("*");
            out.append(server_name.substring_char(i, n));
            proof {
                assert(server_name@.subrange(i as int, n as int) =~= server_name@.skip(i as int));
            }
            return out;
        }
        i += 1;
    }
    let out = String::from_str("*");
    proof {
        assert(server_name@.skip(n as int) =~= Seq::<char>::empty());
        assert(out@ =~= "*"@ + Seq::<char>::empty());
    }
    out
}

/// Resolves a client's server name against the store: the exact name
/// first, then its single-label wildcard, else nothing.
pub fn resolve_sni<'a>(certs: &'a CertifiedKeyList, server_name: &str) -> (r: Option<
    &'a Arc<rustls::sign::CertifiedKey>,
>)
    requires
        certs.wf(),
    ensures
        match r {
            Option::Some(ck) => (certs@.contains_key(server_name@) && *ck == certs@[server_name@])
                || (!certs@.contains_key(server_name@) && certs@.contains_key(
                spec_wildcard(server_name@),
            ) && *ck == certs@[spec_wildcard(server_name@)]),
            Option::None => !certs@.contains_key(server_name@) && !certs@.contains_key(
                spec_wildcard(server_name@),
            ),
        },
{
    match certs.get(server_name) {
        Option::Some(ck) => Some(ck),
        Option::None => {
            let wildcard_name = convert_to_wildcard(server_name);
            certs.get(wildcard_name.as_str())
        },
    }
}

/// Parses one bundle and indexes its certified key under each of its SAN
/// names, replacing what was there; the key set only grows. A bundle that
/// does not parse changes nothing.
pub fn add_certificate_to_certified_key_list(cert: &IpcCerts, ck_list: &mut CertifiedKeyList)
    requires
        old(ck_list).wf(),
    ensures
        final(ck_list).wf(),
        forall|k: Seq<char>| old(ck_list)@.contains_key(k) ==> final(ck_list)@.contains_key(k),
        // the key set grows only by the bundle's names
        forall|k: Seq<char>|
            final(ck_list)@.contains_key(k) ==> old(ck_list)@.contains_key(k) || (cert_key_parses(
                cert.cert@,
                cert.key@,
            ) && spec_domains_of(cert.cert@) is Some && spec_domains_of(cert.cert@).unwrap().contains(
                k,
            )),
        !(cert_key_parses(cert.cert@, cert.key@) && spec_domains_of(cert.cert@) is Some) ==> *final(ck_list) == *old(ck_list),
        (cert_key_parses(cert.cert@, cert.key@) && spec_domains_of(cert.cert@) is Some) ==> ({
            let ds = spec_domains_of(cert.cert@).unwrap();
            &&& forall|i: int| 0 <= i < ds.len() ==> final(ck_list)@.contains_key(#[trigger] ds[i])
            &&& exists|ck: Arc<rustls::sign::CertifiedKey>| all_set(final(ck_list)@, ds, ck)
            &&& forall|k: Seq<char>|
                !ds.contains(k) ==> ((final(ck_list)@.contains_key(k) <==> old(
                    ck_list,
                )@.contains_key(k)) && (old(ck_list)@.contains_key(k) ==> final(ck_list)@[k] == old(
                    ck_list,
                )@[k]))
        }),
{
    match get_domains_and_ck(cert) {
        Option::Some((domains, ck)) => {
            let ghost ds = spec_domains_of(cert.cert@).unwrap();
            let ghost gck = ck;
            let n = domains.len();
            let mut i: usize = 0;
            while i < n
                invariant
                    i <= n,
                    n == domains@.len(),
                    domains@.map_values(|s: String| s@) == ds,
                    ck == gck,
                    ck_list.wf(),
                    forall|k: Seq<char>|
                        old(ck_list)@.contains_key(k) ==> ck_list@.contains_key(k),
                    forall|k: Seq<char>|
                        ck_list@.contains_key(k) ==> old(ck_list)@.contains_key(k) || ds.contains(
                            k,
                        ),
                    forall|j: int| 0 <= j < i ==> ck_list@.contains_key(#[trigger] ds[j]),
                    forall|j: int| 0 <= j < i ==> ck_list@[#[trigger] ds[j]] == gck,
                    forall|k: Seq<char>|
                        !ds.contains(k) ==> ((ck_list@.contains_key(k) <==> old(
                            ck_list,
                        )@.contains_key(k)) && (old(ck_list)@.contains_key(k) ==> ck_list@[k]
                            == old(ck_list)@[k])),
                decreases n - i,
            {
                proof {
                    assert(ds[i as int] == domains@[i as int]@);
                    assert(ds.contains(ds[i as int]));
                }
                ck_list.insert(String::from_str(domains[i].as_str()), clone_ck(&ck));
                i += 1;
            }
            proof {
                assert(all_set(ck_list@, ds, gck));
            }
        },
        Option::None => {},
    }
}

/// Every covered name now maps to the one key.
pub open spec fn all_set(
    m: Map<Seq<char>, Arc<rustls::sign::CertifiedKey>>,
    ds: Seq<Seq<char>>,
    ck: Arc<rustls::sign::CertifiedKey>,
) -> bool {
    forall|i: int| 0 <= i < ds.len() ==> m[#[trigger] ds[i]] == ck
}

/// Every covered name that the store already held now maps to the one key.
pub open spec fn all_replaced(
    m: Map<Seq<char>, Arc<rustls::sign::CertifiedKey>>,
    old_m: Map<Seq<char>, Arc<rustls::sign::CertifiedKey>>,
    ds: Seq<Seq<char>>,
    ck: Arc<rustls::sign::CertifiedKey>,
) -> bool {
    forall|i: int| 0 <= i < ds.len() && old_m.contains_key(#[trigger] ds[i]) ==> m[ds[i]] == ck
}

/// Re-parses a bundle and replaces the entries of the names it covers; the
/// key set never changes, and a bundle that does not parse leaves every
/// entry in place.
pub fn reload_certificates(cert: &IpcCerts, ck_list: &mut CertifiedKeyList)
    requires
        old(ck_list).wf(),
    ensures
        final(ck_list).wf(),
        forall|k: Seq<char>|
            final(ck_list)@.contains_key(k) <==> old(ck_list)@.contains_key(k),
        !(cert_key_parses(cert.cert@, cert.key@) && spec_domains_of(cert.cert@) is Some) ==> *final(ck_list) == *old(ck_list),
        (cert_key_parses(cert.cert@, cert.key@) && spec_domains_of(cert.cert@) is Some) ==> ({
            let ds = spec_domains_of(cert.cert@).unwrap();
            // untouched names keep their exact old value; covered names all
            // hold the one freshly parsed key: a reader sees old or new,
            // never a mixture of a name's key material
            &&& forall|k: Seq<char>|
                !ds.contains(k) && old(ck_list)@.contains_key(k) ==> final(ck_list)@[k] == old(
                    ck_list,
                )@[k]
            &&& exists|ck: Arc<rustls::sign::CertifiedKey>|
                all_replaced(final(ck_list)@, old(ck_list)@, ds, ck)
        }),
{
    match get_domains_and_ck(cert) {
        Option::Some((domains, ck)) => {
            let ghost ds = spec_domains_of(cert.cert@).unwrap();
            let ghost gck = ck;
            let n = domains.len();
            let mut i: usize = 0;
            while i < n
                invariant
                    i <= n,
                    n == domains@.len(),
                    domains@.map_values(|s: String| s@) == ds,
                    ck == gck,
                    ck_list.wf(),
                    forall|k: Seq<char>|
                        ck_list@.contains_key(k) <==> old(ck_list)@.contains_key(k),
                    forall|k: Seq<char>|
                        !ds.contains(k) && old(ck_list)@.contains_key(k) ==> ck_list@[k] == old(
                            ck_list,
                        )@[k],
                    forall|j: int|
                        0 <= j < i && old(ck_list)@.contains_key(#[trigger] ds[j]) ==> ck_list@[
                            ds[j]
                        ] == gck,
                decreases n - i,
            {
                proof {
                    assert(ds[i as int] == domains@[i as int]@);
                    assert(ds.contains(ds[i as int]));
                }
                if ck_list.contains_key(domains[i].as_str()) {
                    ck_list.insert(String::from_str(domains[i].as_str()), clone_ck(&ck));
                }
                i += 1;
            }
            proof {
                assert(all_replaced(ck_list@, old(ck_list)@, ds, gck));
            }
        },
        Option::None => {},
    }
}

/// The worker-side TLS state for one listener: the bundles it was sent.
pub struct TlsConfig {
    pub certs: Vec<IpcCerts>,
}

impl TlsConfig {
    pub fn new(certs: Vec<IpcCerts>) -> (r: TlsConfig)
        ensures
            r.certs == certs,
    {
        TlsConfig { certs }
    }

    /// Builds the store from every bundle: each bundle that parses has all
    /// its SAN names present, and no other name exists.
    pub fn get_certified_key_list(&self) -> (r: CertifiedKeyList)
        ensures
            r.wf(),
            forall|i: int|
                0 <= i < self.certs@.len() ==> ((cert_key_parses(
                    (#[trigger] self.certs@[i]).cert@,
                    self.certs@[i].key@,
                ) && spec_domains_of(self.certs@[i].cert@) is Some) ==> (forall|j: int|
                    0 <= j < spec_domains_of(self.certs@[i].cert@).unwrap().len()
                        ==> r@.contains_key(
                        #[trigger] spec_domains_of(self.certs@[i].cert@).unwrap()[j],
                    ))),
            forall|k: Seq<char>|
                r@.contains_key(k) ==> exists|c: int|
                    0 <= c < self.certs@.len() && cert_key_parses(
                        (#[trigger] self.certs@[c]).cert@,
                        self.certs@[c].key@,
                    ) && spec_domains_of(self.certs@[c].cert@) is Some && spec_domains_of(
                        self.certs@[c].cert@,
                    ).unwrap().contains(k),
    {
        let mut ck_list: CertifiedKeyList = StrMap::new();
        let n = self.certs.len();
        let mut i: usize = 0;
        while i < n
            invariant
                i <= n,
                n == self.certs@.len(),
                ck_list.wf(),
                forall|c: int|
                    0 <= c < i ==> ((cert_key_parses(
                        (#[trigger] self.certs@[c]).cert@,
                        self.certs@[c].key@,
                    ) && spec_domains_of(self.certs@[c].cert@) is Some) ==> (forall|j: int|
                        0 <= j < spec_domains_of(self.certs@[c].cert@).unwrap().len()
                            ==> ck_list@.contains_key(
                            #[trigger] spec_domains_of(self.certs@[c].cert@).unwrap()[j],
                        ))),
                forall|k: Seq<char>|
                    ck_list@.contains_key(k) ==> exists|c: int|
                        0 <= c < i && cert_key_parses(
                            (#[trigger] self.certs@[c]).cert@,
                            self.certs@[c].key@,
                        ) && spec_domains_of(self.certs@[c].cert@) is Some && spec_domains_of(
                            self.certs@[c].cert@,
                        ).unwrap().contains(k),
            decreases n - i,
        {
            let ghost before = ck_list@;
            add_certificate_to_certified_key_list(&self.certs[i], &mut ck_list);
            proof {
                assert forall|k: Seq<char>| ck_list@.contains_key(k) implies exists|c: int|
                    0 <= c < i + 1 && cert_key_parses(
                        (#[trigger] self.certs@[c]).cert@,
                        self.certs@[c].key@,
                    ) && spec_domains_of(self.certs@[c].cert@) is Some && spec_domains_of(
                        self.certs@[c].cert@,
                    ).unwrap().contains(k) by {
                    if before.contains_key(k) {
                        let c = choose|c: int|
                            0 <= c < i && cert_key_parses(
                                (#[trigger] self.certs@[c]).cert@,
                                self.certs@[c].key@,
                            ) && spec_domains_of(self.certs@[c].cert@) is Some && spec_domains_of(
                                self.certs@[c].cert@,
                            ).unwrap().contains(k);
                        assert(0 <= c < i + 1);
                    } else {
                        assert(cert_key_parses(self.certs@[i as int].cert@, self.certs@[i as int].key@)
                            && spec_domains_of(self.certs@[i as int].cert@) is Some
                            && spec_domains_of(self.certs@[i as int].cert@).unwrap().contains(k));
                    }
                }
            }
            i += 1;
        }
        ck_list
    }
}

} // verus!
