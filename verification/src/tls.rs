//! A self-signed certificate for local servers, made with `rcgen`.
use vstd::prelude::*;

verus! {

#[verifier::external_type_specification]
#[verifier::external_body]
pub struct ExRcgenCertificate(rcgen::Certificate);

#[verifier::external_type_specification]
#[verifier::external_body]
pub struct ExRcgenError(rcgen::RcgenError);

/// The host names an rcgen certificate is made for, in order (its
/// subject-alternative names).
pub uninterp spec fn cert_names(c: rcgen::Certificate) -> Seq<Seq<char>>;

/// Whether an rcgen certificate's key pair is held locally (not a remote
/// signer), so that its private key can be written out.
pub uninterp spec fn key_is_local(c: rcgen::Certificate) -> bool;

/// The subject-alternative-name entry that rcgen encodes for a host name: an
/// IP address where the name reads as one, a DNS name otherwise.
pub uninterp spec fn san_entry(name: Seq<char>) -> Seq<u8>;

/// The subject-alternative-name entries of a DER certificate, in order.
pub uninterp spec fn der_san(der: Seq<u8>) -> Seq<Seq<u8>>;

/// Every character of every name is ASCII.
pub open spec fn names_ascii(names: Seq<Seq<char>>) -> bool {
    forall|i: int, j: int|
        0 <= i < names.len() && 0 <= j < names[i].len() ==> (#[trigger] names[i][j] as u32) < 128
}

/// The views of a list of names.
pub open spec fn name_views(v: Seq<String>) -> Seq<Seq<char>> {
    v.map_values(|s: String| s@)
}

/// `rcgen::generate_simple_self_signed`: a certificate whose
/// subject-alternative names are `names`, in order, with a freshly generated
/// key pair held locally. The key is random, so nothing more is stated of the
/// result, nor when it fails.
#[verifier::external_body]
fn generate_simple_self_signed(names: Vec<String>) -> (r: Result<rcgen::Certificate, rcgen::RcgenError>)
    ensures
        r matches Ok(c) ==> cert_names(c) == name_views(names@) && key_is_local(c),
{
    rcgen::generate_simple_self_signed(names)
}

/// `rcgen::Certificate::serialize_der`: the certificate, signed, in DER; its
/// subject-alternative-name entries are those of the certificate's names, in
/// order. It writes a DNS name as an ASCII string and panics on any other,
/// so the names must be ASCII. The signature depends on the random key, so
/// nothing more is stated of the result, nor when it fails.
#[verifier::external_body]
fn serialize_der(cert: &rcgen::Certificate) -> (r: Result<Vec<u8>, rcgen::RcgenError>)
    requires
        names_ascii(cert_names(*cert)),
    ensures
        r matches Ok(b) ==> der_san(b@) == cert_names(*cert).map_values(|s: Seq<char>| san_entry(s)),
{
    cert.serialize_der()
}

/// `rcgen::Certificate::serialize_private_key_der`: the private key in DER.
/// The key is random, so nothing is stated of the result.
/// It panics on a remote key pair, so the key must be local.
#[verifier::external_body]
fn serialize_private_key_der(cert: &rcgen::Certificate) -> (r: Vec<u8>)
    requires
        key_is_local(*cert),
{
    cert.serialize_private_key_der()
}

/// Why a certificate could not be made.
#[derive(Debug, Clone, Copy, PartialEq, Eq, Structural)]
pub enum CertError {
    /// Making the key pair or the certificate failed.
    Generate,
    /// Signing and encoding the certificate failed.
    Serialize,
}

/// A fresh self-signed certificate for `hostnames` and its private key, both
/// DER-encoded: the certificate's subject-alternative names are the host
/// names, in order. The names must be ASCII. Fine for local use; a real
/// deployment needs a real CA.
pub fn generate_self_signed(hostnames: Vec<String>) -> (r: Result<(Vec<u8>, Vec<u8>), CertError>)
    requires
        names_ascii(name_views(hostnames@)),
    ensures
        r matches Ok((c, _)) ==> der_san(c@) == hostnames@.map_values(|h: String| san_entry(h@)),
{
    let ghost hv = hostnames@;
    let cert = match generate_simple_self_signed(hostnames) {
        Ok(c) => c,
        Err(_) => {
            return Err(CertError::Generate);
        },
    };
    let cert_der = match serialize_der(&cert) {
        Ok(d) => d,
        Err(_) => {
            return Err(CertError::Serialize);
        },
    };
    assert(cert_names(cert).map_values(|s: Seq<char>| san_entry(s)) =~= hv.map_values(
        |h: String| san_entry(h@),
    ));
    let key_der = serialize_private_key_der(&cert);
    Ok((cert_der, key_der))
}

} // verus!
