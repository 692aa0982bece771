//! Certificates and private keys in files.

use crate::message::octet_lists;
use crate::text::prefixed;
use rustls_pki_types::PrivateKeyDer;
use vstd::prelude::*;
use vstd::string::*;

verus! {

/// How a private key is encoded.
#[derive(Clone, Copy, Debug, PartialEq, Eq, Structural)]
pub enum KeyFormat {
    Pkcs1,
    Sec1,
    Pkcs8,
    Other,
}

/// A private key, by its encoding.
pub struct PrivateKey {
    pub format: KeyFormat,
    pub der: Vec<u8>,
}

/// The values of a private key.
#[verifier::ext_equal]
pub struct KeyView {
    pub format: KeyFormat,
    pub der: Seq<u8>,
}

impl View for PrivateKey {
    type V = KeyView;

    open spec fn view(&self) -> KeyView {
        KeyView { format: self.format, der: self.der@ }
    }
}

/// The certificates in the octets of a file, or why they cannot be read, by
/// `rustls_pemfile::certs`.
pub uninterp spec fn pem_certificates(octets: Seq<u8>) -> Result<Seq<Seq<u8>>, Seq<char>>;

/// The first private key in the octets of a file, or why they cannot be read, by
/// `rustls_pemfile::private_key`.
pub uninterp spec fn pem_private_key(octets: Seq<u8>) -> Result<Option<KeyView>, Seq<char>>;

/// Certificates or why there are none, each by its values.
pub open spec fn certificates_result(r: Result<Vec<Vec<u8>>, String>) -> Result<
    Seq<Seq<u8>>,
    Seq<char>,
> {
    match r {
        Ok(certs) => Ok(octet_lists(certs@)),
        Err(e) => Err(e@),
    }
}

/// A private key that may be absent, or why it cannot be read, each by its values.
pub open spec fn found_key(r: Result<Option<PrivateKey>, String>) -> Result<
    Option<KeyView>,
    Seq<char>,
> {
    match r {
        Ok(Some(key)) => Ok(Some(key@)),
        Ok(None) => Ok(None),
        Err(e) => Err(e@),
    }
}

/// A private key or why there is none, each by its values.
pub open spec fn key_result(r: Result<PrivateKey, String>) -> Result<KeyView, Seq<char>> {
    match r {
        Ok(key) => Ok(key@),
        Err(e) => Err(e@),
    }
}

/// Calls `rustls_pemfile::certs` on the octets of a file, and takes the encoding of each
/// certificate. The format of such files is not stated: the result has a name, and so has the
/// text of the error.
#[verifier::external_body]
fn certs_in(octets: &[u8]) -> (r: Result<Vec<Vec<u8>>, String>)
    ensures
        certificates_result(r) == pem_certificates(octets@),
{
    let mut source = octets;
    rustls_pemfile::certs(&mut source).map(|c| c.map(|c| c.to_vec())).collect::<Result<_, _>>().map_err(|e| e.to_string())
}

/// Calls `rustls_pemfile::private_key` on the octets of a file, and takes the format and the
/// encoding of the key. The format of such files is not stated: the result has a name, and so has
/// the text of the error.
#[verifier::external_body]
fn key_in(octets: &[u8]) -> (r: Result<Option<PrivateKey>, String>)
    ensures
        found_key(r) == pem_private_key(octets@),
{
    let mut source = octets;
    let format = |k: &PrivateKeyDer| match k {
        PrivateKeyDer::Pkcs1(_) => KeyFormat::Pkcs1,
        PrivateKeyDer::Sec1(_) => KeyFormat::Sec1,
        PrivateKeyDer::Pkcs8(_) => KeyFormat::Pkcs8,
        _ => KeyFormat::Other,
    };
    match rustls_pemfile::private_key(&mut source) {
        Ok(key) => Ok(key.map(|k| PrivateKey { format: format(&k), der: k.secret_der().to_vec() })),
        Err(e) => Err(e.to_string()),
    }
}

/// The certificates of a server from the file at `path`, where `parsed` is what its octets hold:
/// at least one.
pub open spec fn certificates_given(
    parsed: Result<Seq<Seq<u8>>, Seq<char>>,
    path: Seq<char>,
) -> Result<Seq<Seq<u8>>, Seq<char>> {
    match parsed {
        Ok(certs) => if certs.len() == 0 {
            Err("No certificates found in '"@ + path + "'"@)
        } else {
            Ok(certs)
        },
        Err(e) => Err("Failed to parse certificate chain from '"@ + path + "': "@ + e),
    }
}

/// The private key of a server from the file at `path`, where `parsed` is what its octets hold.
pub open spec fn key_given(
    parsed: Result<Option<KeyView>, Seq<char>>,
    path: Seq<char>,
) -> Result<KeyView, Seq<char>> {
    match parsed {
        Ok(Some(key)) => Ok(key),
        Ok(None) => Err("No private key found in '"@ + path + "'"@),
        Err(e) => Err("Failed to parse private key from '"@ + path + "': "@ + e),
    }
}

/// The certificates of a server from the file at `path`, where `parsed` is what its octets hold.
pub fn accept_certificates(parsed: Result<Vec<Vec<u8>>, String>, path: &str) -> (r: Result<
    Vec<Vec<u8>>,
    String,
>)
    ensures
        certificates_result(r) == certificates_given(certificates_result(parsed), path@),
{
    match parsed {
        Ok(certs) => {
            if certs.len() == 0 {
                let mut e = prefixed("No certificates found in '", path);
                e.append("'");
                return Err(e);
            }
            Ok(certs)
        },
        Err(why) => {
            let mut e = prefixed("Failed to parse certificate chain from '", path);
            e.append("': ");
            e.append(why.as_str());
            Err(e)
        },
    }
}

/// The private key of a server from the file at `path`, where `parsed` is what its octets hold.
pub fn accept_key(parsed: Result<Option<PrivateKey>, String>, path: &str) -> (r: Result<
    PrivateKey,
    String,
>)
    ensures
        key_result(r) == key_given(found_key(parsed), path@),
{
    match parsed {
        Ok(Some(key)) => Ok(key),
        Ok(None) => {
            let mut e = prefixed("No private key found in '", path);
            e.append("'");
            Err(e)
        },
        Err(why) => {
            let mut e = prefixed("Failed to parse private key from '", path);
            e.append("': ");
            e.append(why.as_str());
            Err(e)
        },
    }
}

/// Reads the certificates of a server in the octets of the file at `path`.
pub fn read_certificates(octets: &[u8], path: &str) -> (r: Result<Vec<Vec<u8>>, String>)
    ensures
        certificates_result(r) == certificates_given(pem_certificates(octets@), path@),
{
    accept_certificates(certs_in(octets), path)
}

/// Reads the private key of a server in the octets of the file at `path`.
pub fn read_key(octets: &[u8], path: &str) -> (r: Result<PrivateKey, String>)
    ensures
        key_result(r) == key_given(pem_private_key(octets@), path@),
{
    accept_key(key_in(octets), path)
}

/// Certificates that can be read are taken as they are, but for none at all; a key that can be read and
/// is there is taken as it is.
pub proof fn law_certificates_and_keys_are_taken(
    certs: Seq<Seq<u8>>,
    key: KeyView,
    why: Seq<char>,
    path: Seq<char>,
)
    ensures
        certs.len() > 0 ==> certificates_given(Ok(certs), path) == Ok::<Seq<Seq<u8>>, Seq<char>>(
            certs,
        ),
        certificates_given(Ok(seq![]), path) is Err,
        certificates_given(Err(why), path) is Err,
        key_given(Ok(Some(key)), path) == Ok::<KeyView, Seq<char>>(key),
        key_given(Ok(None), path) is Err,
        key_given(Err(why), path) is Err,
{
}

} // verus!
