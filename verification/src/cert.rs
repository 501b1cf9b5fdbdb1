//! The certificate store: at most one identity is held, and an install
//! replaces it; installing is the only mutation and nothing ever deletes.

use vstd::prelude::*;

verus! {

#[verifier::external_type_specification]
#[verifier::external_body]
pub struct ExIdentity(tokio_native_tls::native_tls::Identity);

#[verifier::external_type_specification]
#[verifier::external_body]
pub struct ExNativeError(tokio_native_tls::native_tls::Error);

#[verifier::external_type_specification]
#[verifier::external_body]
pub struct ExTlsAcceptor(tokio_native_tls::TlsAcceptor);

/// Whether a PKCS #12 archive opens under a password.
pub uninterp spec fn pkcs12_ok(der: Seq<u8>, pwd: Seq<char>) -> bool;

/// Relies on native_tls's `Identity::from_pkcs12`: whether the archive
/// parses depends on the bytes and the password alone — within one build of
/// the TLS backend, which is all one process ever sees.
#[verifier::external_body]
fn from_pkcs12(der: &[u8], pwd: &str) -> (r: Result<
    tokio_native_tls::native_tls::Identity,
    tokio_native_tls::native_tls::Error,
>)
    ensures
        r is Ok <==> pkcs12_ok(der@, pwd@),
{
    tokio_native_tls::native_tls::Identity::from_pkcs12(der, pwd)
}

/// Relies on the derived `Clone` of native_tls's `Identity`: a
/// field-for-field copy of the handle.
#[verifier::external_body]
fn clone_identity(i: &tokio_native_tls::native_tls::Identity) -> (r:
    tokio_native_tls::native_tls::Identity)
    ensures
        r == *i,
{
    i.clone()
}

/// Relies on native_tls's `TlsAcceptor::builder` and `build`, with the
/// minimum protocol version set to TLS 1.2, and on tokio_native_tls's
/// `TlsAcceptor::from`, which only wraps the built acceptor. Whether the
/// build succeeds is up to the TLS backend, so nothing is promised of it.
#[verifier::external_body]
fn build_acceptor(identity: tokio_native_tls::native_tls::Identity) -> (r: Result<
    tokio_native_tls::TlsAcceptor,
    tokio_native_tls::native_tls::Error,
>) {
    let mut builder = tokio_native_tls::native_tls::TlsAcceptor::builder(identity);
    builder.min_protocol_version(Some(tokio_native_tls::native_tls::Protocol::Tlsv12));
    builder.build().map(tokio_native_tls::TlsAcceptor::from)
}

/// The store's failures: an archive that does not open, or a read for a
/// certificate that was never installed.
#[derive(Clone, Copy, PartialEq, Eq, Structural, Debug)]
pub enum CertError {
    InvalidCertificate,
    NotFound,
}

/// The certificate store: at most one identity is held, the most recent
/// install replaces it, and nothing ever deletes it. In ghost form the
/// store remembers the bytes of every archive that was installed.
pub struct CertStore {
    id: Option<tokio_native_tls::native_tls::Identity>,
    blobs: Ghost<Seq<Seq<u8>>>,
}

impl CertStore {
    /// An identity is held exactly when some archive has been installed.
    pub closed spec fn inv(&self) -> bool {
        self.id is Some <==> self.blobs@.len() > 0
    }

    /// The bytes of every archive installed so far, in order.
    pub closed spec fn blobs(&self) -> Seq<Seq<u8>> {
        self.blobs@
    }

    /// The identity readers get: the one from the most recent install.
    pub closed spec fn installed(&self) -> Option<tokio_native_tls::native_tls::Identity> {
        self.id
    }

    pub fn new() -> (r: Self)
        ensures
            r.inv(),
            r.blobs() == Seq::<Seq<u8>>::empty(),
            r.installed() is None,
    {
        Self { id: None, blobs: Ghost(Seq::empty()) }
    }

    /// Parse an archive and keep its identity, replacing any identity held
    /// before: the store changes exactly when the archive opens under the
    /// password, and the number of bytes read is returned.
    pub fn build_identity(&mut self, data: &[u8], pwd: &str) -> (r: Result<usize, CertError>)
        requires
            old(self).inv(),
        ensures
            final (self).inv(),
            pkcs12_ok(data@, pwd@) ==> r == Ok::<usize, CertError>(data@.len() as usize)
                && final (self).blobs() == old(self).blobs().push(data@) && final (
            self).installed() is Some,
            !pkcs12_ok(data@, pwd@) ==> r == Err::<usize, CertError>(CertError::InvalidCertificate)
                && *final (self) == *old(self),
    {
        match from_pkcs12(data, pwd) {
            Ok(i) => {
                self.id = Some(i);
                proof {
                    self.blobs@ = self.blobs@.push(data@);
                }
                Ok(data.len())
            },
            Err(_) => Err(CertError::InvalidCertificate),
        }
    }

    /// A copy of the identity that readers use: the most recent install.
    pub fn valid_identity(&self) -> (r: Option<tokio_native_tls::native_tls::Identity>)
        requires
            self.inv(),
        ensures
            r is Some <==> self.blobs().len() > 0,
            r == self.installed(),
    {
        match &self.id {
            Some(i) => Some(clone_identity(i)),
            None => None,
        }
    }

    /// A TLS acceptor over the stored identity: with an empty store the
    /// answer is the not-found error, and only then; with an identity held,
    /// the TLS backend builds the acceptor or refuses the identity.
    pub fn get_tls_acceptor(&self) -> (r: Result<tokio_native_tls::TlsAcceptor, CertError>)
        requires
            self.inv(),
        ensures
            self.blobs().len() == 0 ==> r == Err::<tokio_native_tls::TlsAcceptor, CertError>(
                CertError::NotFound,
            ),
            self.blobs().len() > 0 ==> (r is Ok || r == Err::<
                tokio_native_tls::TlsAcceptor,
                CertError,
            >(CertError::InvalidCertificate)),
    {
        match self.valid_identity() {
            Some(i) => match build_acceptor(i) {
                Ok(t) => Ok(t),
                Err(_) => Err(CertError::InvalidCertificate),
            },
            None => Err(CertError::NotFound),
        }
    }
}

} // verus!
