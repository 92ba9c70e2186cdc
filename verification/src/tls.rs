//! What PEM files say: the server's certificate chain and private key, out of
//! one, and what a client trusts, out of another.

use rustls_pki_types::pem::PemObject;
use rustls_pki_types::{CertificateDer, PrivateKeyDer};
use vstd::prelude::*;

verus! {

/// How a private key is encoded.
#[derive(Clone, Copy, Debug, PartialEq, Eq, Structural)]
pub enum KeyKind {
    Pkcs1,
    Sec1,
    Pkcs8,
    /// An encoding that this server does not know.
    Other,
}

/// A private key in DER.
pub struct PrivateKey {
    pub kind: KeyKind,
    pub der: Vec<u8>,
}

/// What a server proves itself with.
pub struct Identity {
    /// Certificates in DER, the server's own first.
    pub chain: Vec<Vec<u8>>,
    pub key: PrivateKey,
}

/// The bytes of each certificate.
pub open spec fn bytes_of(chain: Seq<Vec<u8>>) -> Seq<Seq<u8>> {
    chain.map_values(|c: Vec<u8>| c@)
}

/// What `CertificateDer::pem_slice_iter` finds in PEM text: the certificates in
/// DER, in their order, or what is said of the first section that cannot be
/// read.
pub uninterp spec fn pem_certificates(pem: Seq<u8>) -> Result<Seq<Seq<u8>>, Seq<char>>;

/// What `PrivateKeyDer::from_pem_slice` finds in PEM text: the first private key
/// in DER and how it is encoded, or what is said where there is none or a
/// section before it cannot be read.
pub uninterp spec fn pem_private_key(pem: Seq<u8>) -> Result<(KeyKind, Seq<u8>), Seq<char>>;

/// `CertificateDer::pem_slice_iter` of rustls-pki-types, read to its end or to
/// the first error, which is given by its message. What it gives depends on the
/// text alone.
#[verifier::external_body]
fn certificates(pem: &[u8]) -> (r: Result<Vec<Vec<u8>>, String>)
    ensures
        match r {
            Ok(chain) => pem_certificates(pem@) == Ok::<Seq<Seq<u8>>, Seq<char>>(
                bytes_of(chain@),
            ),
            Err(m) => pem_certificates(pem@) == Err::<Seq<Seq<u8>>, Seq<char>>(m@),
        },
{
    CertificateDer::pem_slice_iter(pem)
        .map(|c| c.map(|c| c.as_ref().to_vec()))
        .collect::<Result<Vec<Vec<u8>>, _>>()
        .map_err(|e| e.to_string())
}

/// `PrivateKeyDer::from_pem_slice` of rustls-pki-types, an error given by its
/// message. What it gives depends on the text alone.
#[verifier::external_body]
fn private_key(pem: &[u8]) -> (r: Result<PrivateKey, String>)
    ensures
        match r {
            Ok(k) => pem_private_key(pem@) == Ok::<(KeyKind, Seq<u8>), Seq<char>>((k.kind, k.der@)),
            Err(m) => pem_private_key(pem@) == Err::<(KeyKind, Seq<u8>), Seq<char>>(m@),
        },
{
    match PrivateKeyDer::from_pem_slice(pem) {
        Ok(key) => {
            let kind = match &key {
                PrivateKeyDer::Pkcs1(_) => KeyKind::Pkcs1,
                PrivateKeyDer::Sec1(_) => KeyKind::Sec1,
                PrivateKeyDer::Pkcs8(_) => KeyKind::Pkcs8,
                _ => KeyKind::Other,
            };
            Ok(PrivateKey { kind, der: key.secret_der().to_vec() })
        },
        Err(e) => Err(e.to_string()),
    }
}

/// Whether `i` is made of what was found.
pub open spec fn is_identity(i: Identity, chain: Seq<Seq<u8>>, key: (KeyKind, Seq<u8>)) -> bool {
    &&& bytes_of(i.chain@) == chain
    &&& i.key.kind == key.0
    &&& i.key.der@ == key.1
}

/// The certificate chain (leaf first) and the private key in one PEM text, in
/// any order. Certificates that cannot be read are reported first.
pub fn identity(pem: &[u8]) -> (r: Result<Identity, String>)
    ensures
        match (pem_certificates(pem@), pem_private_key(pem@)) {
            (Err(e), _) => r matches Err(m) && m@ == e,
            (Ok(_), Err(e)) => r matches Err(m) && m@ == e,
            (Ok(chain), Ok(key)) => r matches Ok(i) && is_identity(i, chain, key),
        },
{
    put_together(certificates(pem), private_key(pem))
}

/// An identity of what was found of the chain and of the key.
pub fn put_together(
    chain: Result<Vec<Vec<u8>>, String>,
    key: Result<PrivateKey, String>,
) -> (r: Result<Identity, String>)
    ensures
        match (chain, key) {
            (Err(e), _) => r == Err::<Identity, String>(e),
            (Ok(_), Err(e)) => r == Err::<Identity, String>(e),
            (Ok(chain), Ok(key)) => r == Ok::<Identity, String>(Identity { chain, key }),
        },
{
    match (chain, key) {
        (Err(e), _) => Err(e),
        (Ok(_), Err(e)) => Err(e),
        (Ok(chain), Ok(key)) => Ok(Identity { chain, key }),
    }
}

/// A PEM file that could not be read, or holds no identity.
#[derive(Debug)]
pub struct Unreadable {
    pub path: String,
    pub message: String,
}

impl Unreadable {
    /// The message for the error.
    pub open spec fn text(self) -> Seq<char> {
        "reading "@ + self.path@ + ": "@ + self.message@
    }

    /// The message for the error.
    pub fn to_string(&self) -> (s: String)
        ensures
            s@ == self.text(),
    {
        let mut s = String::new();
        s.append("reading ");
        s.append(self.path.as_str());
        s.append(": ");
        s.append(self.message.as_str());
        assert(s@ =~= self.text());
        s
    }
}

/// The identity in the file `path`, of which `content` is what reading it gave.
pub fn server_identity(path: &str, content: Result<Vec<u8>, String>) -> (r: Result<
    Identity,
    Unreadable,
>)
    ensures
        r matches Err(e) ==> e.path@ == path@,
        match content {
            Err(why) => r matches Err(e) && e.message == why,
            Ok(pem) => match (pem_certificates(pem@), pem_private_key(pem@)) {
                (Err(why), _) => r matches Err(e) && e.message@ == why,
                (Ok(_), Err(why)) => r matches Err(e) && e.message@ == why,
                (Ok(chain), Ok(key)) => r matches Ok(i) && is_identity(i, chain, key),
            },
        },
{
    let found = match content {
        Ok(pem) => identity(pem.as_slice()),
        Err(why) => Err(why),
    };
    match found {
        Ok(i) => Ok(i),
        Err(message) => Err(unreadable(path, message)),
    }
}

/// The CA certificates to trust, in DER, that the PEM file `path` holds, of
/// which `content` is what reading it gave.
pub fn trusted(path: &str, content: Result<Vec<u8>, String>) -> (r: Result<
    Vec<Vec<u8>>,
    Unreadable,
>)
    ensures
        r matches Err(e) ==> e.path@ == path@,
        match content {
            Err(why) => r matches Err(e) && e.message == why,
            Ok(pem) => match pem_certificates(pem@) {
                Err(why) => r matches Err(e) && e.message@ == why,
                Ok(chain) => r matches Ok(v) && bytes_of(v@) == chain,
            },
        },
{
    let found = match content {
        Ok(pem) => certificates(pem.as_slice()),
        Err(why) => Err(why),
    };
    match found {
        Ok(chain) => Ok(chain),
        Err(message) => Err(unreadable(path, message)),
    }
}

fn unreadable(path: &str, message: String) -> (e: Unreadable)
    ensures
        e.path@ == path@,
        e.message == message,
{
    let mut p = String::new();
    p.append(path);
    assert(p@ =~= path@);
    Unreadable { path: p, message }
}

/// An error names the file that it is about.
pub proof fn an_unreadable_file_is_named(e: Unreadable)
    ensures
        e.text().skip("reading "@.len() as int).take(e.path@.len() as int) == e.path@,
{
    assert(e.text().skip("reading "@.len() as int).take(e.path@.len() as int) =~= e.path@);
}

} // verus!
