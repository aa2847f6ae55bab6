//! TLS set-up: reading PEM-encoded certificate chains and private keys, and
//! which certificate a listener that hosts several presents. The handshake is
//! left to the TLS stack.

use crate::text::{lower, opt_view, same, to_lower, views};
use vstd::prelude::*;
use vstd::string::*;

verus! {

/// One certificate / key pair of a listener, optionally scoped to a specific
/// SNI server name.
#[derive(Debug)]
pub struct CertEntry {
    pub server_name: Option<String>,
    pub cert_path: String,
    pub key_path: String,
}

/// Model of a [`CertEntry`].
pub struct CertEntryV {
    pub server_name: Option<Seq<char>>,
    pub cert_path: Seq<char>,
    pub key_path: Seq<char>,
}

impl View for CertEntry {
    type V = CertEntryV;

    open spec fn view(&self) -> CertEntryV {
        CertEntryV {
            server_name: opt_view(self.server_name),
            cert_path: self.cert_path@,
            key_path: self.key_path@,
        }
    }
}

/// Whether an entry is scoped to the name `sni`, without regard to case.
pub open spec fn names_host(e: CertEntryV, sni: Seq<char>) -> bool {
    e.server_name matches Some(n) && lower(n) == lower(sni)
}

/// The last among the first `n` entries that is scoped to `sni`, or `-1`.
pub open spec fn last_named(entries: Seq<CertEntryV>, sni: Seq<char>, n: int) -> int
    decreases n,
{
    if n <= 0 {
        -1
    } else if names_host(entries[n - 1], sni) {
        n - 1
    } else {
        last_named(entries, sni, n - 1)
    }
}

/// The entry to present: the last one for the client's name, or the first one
/// when the client names none or an unknown one.
pub open spec fn presented(entries: Seq<CertEntryV>, sni: Option<Seq<char>>) -> int {
    match sni {
        None => 0,
        Some(s) => if last_named(entries, s, entries.len() as int) >= 0 {
            last_named(entries, s, entries.len() as int)
        } else {
            0
        },
    }
}

/// Pick the certificate for a handshake by SNI server name, falling back to
/// the first entry.
pub fn resolve(entries: &Vec<CertEntry>, sni: Option<&str>) -> (r: usize)
    requires
        entries@.len() > 0,
    ensures
        r < entries@.len(),
        r == presented(
            views(entries@),
            match sni {
                Some(s) => Some(s@),
                None => None,
            },
        ),
{
    let ghost all = views(entries@);
    let name = match sni {
        Some(s) => s,
        None => {
            return 0;
        },
    };
    let key = to_lower(name);
    let mut n: usize = entries.len();
    while n > 0
        invariant
            n <= entries@.len(),
            entries@.len() > 0,
            all == views(entries@),
            key@ == lower(name@),
            sni matches Some(s) && s@ == name@,
            last_named(all, name@, n as int) == last_named(all, name@, all.len() as int),
        decreases n,
    {
        assert(all[n - 1] == entries@[n - 1]@);
        if let Some(own) = &entries[n - 1].server_name {
            let low = to_lower(own.as_str());
            if same(low.as_str(), key.as_str()) {
                return n - 1;
            }
        }
        n = n - 1;
    }
    0
}

/// A client that names a host that nobody has, or none, gets the first
/// certificate.
pub proof fn law_first_certificate_is_the_default(entries: Seq<CertEntryV>, sni: Option<Seq<char>>)
    requires
        sni matches Some(s) ==> forall|i: int|
            0 <= i < entries.len() ==> !names_host(#[trigger] entries[i], s),
    ensures
        presented(entries, sni) == 0,
{
    if let Some(s) = sni {
        lemma_nobody_named(entries, s, entries.len() as int);
    }
}

proof fn lemma_nobody_named(entries: Seq<CertEntryV>, sni: Seq<char>, n: int)
    requires
        n <= entries.len(),
        forall|i: int| 0 <= i < entries.len() ==> !names_host(#[trigger] entries[i], sni),
    ensures
        last_named(entries, sni, n) == -1,
    decreases n,
{
    if n > 0 {
        lemma_nobody_named(entries, sni, n - 1);
    }
}

/// A client that names a configured host gets a certificate for that host.
pub proof fn law_sni_gets_its_certificate(entries: Seq<CertEntryV>, sni: Seq<char>, i: int)
    requires
        0 <= i < entries.len(),
        names_host(entries[i], sni),
    ensures
        names_host(entries[presented(entries, Some(sni))], sni),
{
    lemma_last_named(entries, sni, entries.len() as int, i);
}

proof fn lemma_last_named(entries: Seq<CertEntryV>, sni: Seq<char>, n: int, i: int)
    requires
        0 <= i < n <= entries.len(),
        names_host(entries[i], sni),
    ensures
        0 <= last_named(entries, sni, n) < n,
        names_host(entries[last_named(entries, sni, n)], sni),
    decreases n,
{
    if !names_host(entries[n - 1], sni) {
        lemma_last_named(entries, sni, n - 1, i);
    }
}

// ---------------------------------------------------------------------------
// PEM files
// ---------------------------------------------------------------------------

/// What `rustls_pemfile::certs` finds in a PEM file: every certificate in
/// order, or the first error.
pub uninterp spec fn pem_certificates(pem: Seq<u8>) -> Result<Seq<Seq<u8>>, Seq<char>>;

/// The contents of a list of byte strings.
pub open spec fn byte_views(v: Seq<Vec<u8>>) -> Seq<Seq<u8>> {
    v.map_values(|b: Vec<u8>| b@)
}

/// `rustls_pemfile::certs` yields the certificates of a PEM file one by one,
/// each of them or an error; the first error ends it here.
#[verifier::external_body]
fn read_certificates(pem: &[u8]) -> (r: Result<Vec<Vec<u8>>, String>)
    ensures
        match r {
            Ok(v) => pem_certificates(pem@) == Ok::<Seq<Seq<u8>>, Seq<char>>(byte_views(v@)),
            Err(e) => pem_certificates(pem@) == Err::<Seq<Seq<u8>>, Seq<char>>(e@),
        },
{
    rustls_pemfile::certs(&mut std::io::BufReader::new(pem))
        .map(|r| r.map(|der| der.as_ref().to_vec()).map_err(|e| e.to_string()))
        .collect()
}

/// How a private key is encoded.
#[derive(Debug, Clone, Copy, PartialEq, Eq, Structural)]
pub enum KeyFormat {
    Pkcs1,
    Sec1,
    Pkcs8,
    Other,
}

/// What `rustls_pemfile::private_key` finds in a PEM file: the first private
/// key with its format, none, or an error.
pub uninterp spec fn pem_private_key(pem: Seq<u8>) -> Result<Option<(KeyFormat, Seq<u8>)>, Seq<char>>;

/// `rustls_pemfile::private_key` yields the first private key of a PEM file.
#[verifier::external_body]
fn read_private_key(pem: &[u8]) -> (r: Result<Option<(KeyFormat, Vec<u8>)>, String>)
    ensures
        match r {
            Ok(Some(k)) => pem_private_key(pem@) == Ok::<Option<(KeyFormat, Seq<u8>)>, Seq<char>>(
                Some((k.0, k.1@)),
            ),
            Ok(None) => pem_private_key(pem@) == Ok::<Option<(KeyFormat, Seq<u8>)>, Seq<char>>(
                None,
            ),
            Err(e) => pem_private_key(pem@) == Err::<Option<(KeyFormat, Seq<u8>)>, Seq<char>>(e@),
        },
{
    let key = rustls_pemfile::private_key(&mut std::io::BufReader::new(pem));
    key.map_err(|e| e.to_string()).map(|found| {
        found.map(|k| match &k {
            rustls::pki_types::PrivateKeyDer::Pkcs1(d) => (KeyFormat::Pkcs1, d.secret_pkcs1_der().to_vec()),
            rustls::pki_types::PrivateKeyDer::Sec1(d) => (KeyFormat::Sec1, d.secret_sec1_der().to_vec()),
            rustls::pki_types::PrivateKeyDer::Pkcs8(d) => (KeyFormat::Pkcs8, d.secret_pkcs8_der().to_vec()),
            other => (KeyFormat::Other, other.secret_der().to_vec()),
        })
    })
}

/// What a certificate file holds, given what was found in it: at least one
/// certificate.
pub open spec fn chain_of(path: Seq<char>, found: Result<Seq<Seq<u8>>, Seq<char>>) -> Result<
    Seq<Seq<u8>>,
    Seq<char>,
> {
    match found {
        Err(e) => Err("parsing certificate '"@ + path + "': "@ + e),
        Ok(certs) => if certs.len() == 0 {
            Err("certificate file '"@ + path + "' contains no certificates"@)
        } else {
            Ok(certs)
        },
    }
}

fn message(a: &str, path: &str, b: &str, e: &str) -> (m: String)
    ensures
        m@ == a@ + path@ + b@ + e@,
{
    let mut m = a.to_owned();
    m.append(path);
    m.append(b);
    m.append(e);
    m
}

/// Check what was found in the certificate file at `path`.
pub fn check_chain(path: &str, found: Result<Vec<Vec<u8>>, String>) -> (r: Result<
    Vec<Vec<u8>>,
    String,
>)
    ensures
        chain_result(r) == chain_of(path@, chain_result(found)),
{
    match found {
        Err(e) => Err(message("parsing certificate '", path, "': ", e.as_str())),
        Ok(certs) => {
            if certs.len() == 0 {
                let m = message("certificate file '", path, "' contains no certificates", "");
                proof {
                    reveal_strlit("");
                    assert(m@ =~= "certificate file '"@ + path@ + "' contains no certificates"@);
                }
                Err(m)
            } else {
                Ok(certs)
            }
        },
    }
}

/// The contents of a chain, or the error.
pub open spec fn chain_result(r: Result<Vec<Vec<u8>>, String>) -> Result<Seq<Seq<u8>>, Seq<char>> {
    match r {
        Ok(v) => Ok(byte_views(v@)),
        Err(e) => Err(e@),
    }
}

/// Load a PEM-encoded certificate chain from what was read of the file at
/// `path`.
pub fn load_certs(path: &str, pem: Result<Vec<u8>, String>) -> (r: Result<Vec<Vec<u8>>, String>)
    ensures
        chain_result(r) == (match pem {
            Err(e) => Err("cannot open certificate '"@ + path@ + "': "@ + e@),
            Ok(p) => chain_of(path@, pem_certificates(p@)),
        }),
{
    match pem {
        Err(e) => Err(message("cannot open certificate '", path, "': ", e.as_str())),
        Ok(p) => check_chain(path, read_certificates(p.as_slice())),
    }
}

/// What a key file holds, given what was found in it: a private key.
pub open spec fn key_of(
    path: Seq<char>,
    found: Result<Option<(KeyFormat, Seq<u8>)>, Seq<char>>,
) -> Result<(KeyFormat, Seq<u8>), Seq<char>> {
    match found {
        Err(e) => Err("parsing key '"@ + path + "': "@ + e),
        Ok(None) => Err("no private key in '"@ + path + "'"@),
        Ok(Some(k)) => Ok(k),
    }
}

/// The contents of a key, or the error.
pub open spec fn key_result(r: Result<(KeyFormat, Vec<u8>), String>) -> Result<
    (KeyFormat, Seq<u8>),
    Seq<char>,
> {
    match r {
        Ok(k) => Ok((k.0, k.1@)),
        Err(e) => Err(e@),
    }
}

/// Check what was found in the key file at `path`.
pub fn check_key(path: &str, found: Result<Option<(KeyFormat, Vec<u8>)>, String>) -> (r: Result<
    (KeyFormat, Vec<u8>),
    String,
>)
    ensures
        key_result(r) == key_of(
            path@,
            match found {
                Err(e) => Err(e@),
                Ok(None) => Ok(None),
                Ok(Some(k)) => Ok(Some((k.0, k.1@))),
            },
        ),
{
    match found {
        Err(e) => Err(message("parsing key '", path, "': ", e.as_str())),
        Ok(None) => {
            let m = message("no private key in '", path, "'", "");
            proof {
                reveal_strlit("");
                assert(m@ =~= "no private key in '"@ + path@ + "'"@);
            }
            Err(m)
        },
        Ok(Some(k)) => Ok(k),
    }
}

/// Load a PEM-encoded private key (PKCS#8, PKCS#1 RSA, or SEC1) from what was
/// read of the file at `path`.
pub fn load_key(path: &str, pem: Result<Vec<u8>, String>) -> (r: Result<
    (KeyFormat, Vec<u8>),
    String,
>)
    ensures
        key_result(r) == (match pem {
            Err(e) => Err("cannot open key '"@ + path@ + "': "@ + e@),
            Ok(p) => key_of(path@, pem_private_key(p@)),
        }),
{
    match pem {
        Err(e) => Err(message("cannot open key '", path, "': ", e.as_str())),
        Ok(p) => check_key(path, read_private_key(p.as_slice())),
    }
}

} // verus!
