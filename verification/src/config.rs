//! TLS/transport configurator: builds the server-side cryptographic identity
//! and QUIC transport parameters once, from a certificate file and a private
//! key file (read by the caller) and an ordered list of application-protocol
//! identifiers.
//!
//! A file whose extension indicates raw binary encoding holds a single
//! certificate or key; otherwise the contents are parsed as text-encoded
//! sections. Text key parsing tries, in order: a standard multi-algorithm
//! container, then an RSA-specific key, then an elliptic-curve key — the
//! first parsed key wins, and the absence of any is a configuration error.
use vstd::prelude::*;
use vstd::string::StrSliceExecFns;
use vstd::string::StringSliceAdditionalSpecFns;

verus! {

/// What rustls_pemfile's certificate extraction returns on given bytes:
/// the certificate sections in order, or nothing on malformed text.
pub uninterp spec fn pem_certs(input: Seq<u8>) -> Option<Seq<Seq<u8>>>;

/// What rustls_pemfile's standard-container key extraction returns.
pub uninterp spec fn pem_pkcs8_keys(input: Seq<u8>) -> Option<Seq<Seq<u8>>>;

/// What rustls_pemfile's RSA key extraction returns.
pub uninterp spec fn pem_rsa_keys(input: Seq<u8>) -> Option<Seq<Seq<u8>>>;

/// What rustls_pemfile's elliptic-curve key extraction returns.
pub uninterp spec fn pem_ec_keys(input: Seq<u8>) -> Option<Seq<Seq<u8>>>;

/// Whether rustls accepts the given private-key encoding when building a
/// server identity.
pub uninterp spec fn key_supported(key: Seq<u8>) -> bool;

/// An error raised once at configuration construction; none is retried.
#[derive(Debug, Clone, PartialEq, Eq)]
pub enum ConfigError {
    /// The certificate file's text encoding could not be parsed.
    CertParse(String),
    /// The key file's text encoding could not be parsed.
    KeyParse(String),
    /// No parseable private key of any supported format was found.
    NoKeys,
    /// The TLS engine rejected the certificate chain or key.
    Tls(String),
}

impl ConfigError {
    /// A description of the error.
    pub fn message(&self) -> (r: String)
        ensures
            self is NoKeys ==> r@ == "no private keys found"@,
    {
        match self {
            ConfigError::CertParse(m) => m.clone(),
            ConfigError::KeyParse(m) => m.clone(),
            ConfigError::NoKeys => "no private keys found".to_owned(),
            ConfigError::Tls(m) => m.clone(),
        }
    }
}

/// The position of the last occurrence of `b` in `s`, if any.
pub open spec fn last_index_of(s: Seq<u8>, b: u8) -> Option<int>
    decreases s.len(),
{
    if s.len() == 0 {
        None
    } else if s[s.len() - 1] == b {
        Some(s.len() - 1)
    } else {
        last_index_of(s.drop_last(), b)
    }
}

/// Whether a file name's extension indicates raw binary encoding: the file
/// part (after the last separator) has a dot later than its first character,
/// and what follows the last dot is `der`.
pub open spec fn is_der_name(s: Seq<u8>) -> bool {
    match last_index_of(s, 46u8) {
        Some(d) => {
            let fs: int = match last_index_of(s, 47u8) {
                Some(sl) => sl + 1,
                None => 0,
            };
            d >= fs + 1 && s.skip(d + 1) == seq![100u8, 101u8, 114u8]
        },
        None => false,
    }
}

/// Whether the named file's extension indicates raw binary encoding.
pub fn has_der_extension(name: &str) -> (r: bool)
    ensures
        r == is_der_name(name.spec_bytes()),
{
    let bytes: Vec<u8> = name.as_bytes_vec();
    let ghost s = name.spec_bytes();
    let mut last_dot: Option<usize> = None;
    let mut last_slash: Option<usize> = None;
    let mut i: usize = 0;
    while i < bytes.len()
        invariant
            bytes@ == s,
            i <= s.len(),
            match last_dot {
                Some(d) => last_index_of(s.take(i as int), 46u8) == Some(d as int) && d < i,
                None => last_index_of(s.take(i as int), 46u8) is None,
            },
            match last_slash {
                Some(sl) => last_index_of(s.take(i as int), 47u8) == Some(sl as int) && sl < i,
                None => last_index_of(s.take(i as int), 47u8) is None,
            },
        decreases bytes.len() - i,
    {
        let c = bytes[i];
        if c == 46u8 {
            last_dot = Some(i);
        }
        if c == 47u8 {
            last_slash = Some(i);
        }
        proof {
            assert(s.take(i + 1).drop_last() =~= s.take(i as int));
            assert(s.take(i + 1)[i as int] == s[i as int]);
        }
        i = i + 1;
    }
    proof {
        assert(s.take(s.len() as int) =~= s);
    }
    match last_dot {
        None => false,
        Some(d) => {
            let fs: usize = match last_slash {
                Some(sl) => sl + 1,
                None => 0,
            };
            if d > fs && bytes.len() >= 4 && d == bytes.len() - 4 {
                let r = bytes[d + 1] == 100u8 && bytes[d + 2] == 101u8 && bytes[d + 3] == 114u8;
                proof {
                    if r {
                        assert(s.skip(d + 1) =~= seq![100u8, 101u8, 114u8]);
                    } else {
                        assert(s.skip(d + 1)[0] == s[d + 1]);
                        assert(s.skip(d + 1)[1] == s[d + 2]);
                        assert(s.skip(d + 1)[2] == s[d + 3]);
                    }
                }
                r
            } else {
                proof {
                    if s.skip(d + 1) == seq![100u8, 101u8, 114u8] {
                        assert(s.skip(d + 1).len() == 3);
                    }
                }
                false
            }
        },
    }
}

/// The certificate chain the configurator uses: the file's bytes alone when
/// the name indicates binary encoding, otherwise every text-encoded
/// certificate in order — or nothing when the text cannot be parsed.
pub open spec fn chain_of(cert_name: Seq<u8>, cert_data: Seq<u8>) -> Option<Seq<Seq<u8>>> {
    if is_der_name(cert_name) {
        Some(seq![cert_data])
    } else {
        pem_certs(cert_data)
    }
}

/// How the key file resolves: to a key, to a parse failure, or to no key of
/// any supported format.
pub enum KeyChoice {
    /// The private-key encoding the configurator uses.
    Key(Seq<u8>),
    /// The key file's text encoding could not be parsed.
    Malformed,
    /// No format yielded a key.
    Missing,
}

/// The key the configurator uses: the file's bytes alone when the name
/// indicates binary encoding; otherwise the first standard-container key,
/// else the first RSA key, else the first elliptic-curve key; else missing.
pub open spec fn key_of(key_name: Seq<u8>, key_data: Seq<u8>) -> KeyChoice {
    if is_der_name(key_name) {
        KeyChoice::Key(key_data)
    } else {
        match pem_pkcs8_keys(key_data) {
            None => KeyChoice::Malformed,
            Some(p) => if p.len() > 0 {
                KeyChoice::Key(p[0])
            } else {
                match pem_rsa_keys(key_data) {
                    None => KeyChoice::Malformed,
                    Some(r) => if r.len() > 0 {
                        KeyChoice::Key(r[0])
                    } else {
                        match pem_ec_keys(key_data) {
                            None => KeyChoice::Malformed,
                            Some(e) => if e.len() > 0 {
                                KeyChoice::Key(e[0])
                            } else {
                                KeyChoice::Missing
                            },
                        }
                    },
                }
            },
        }
    }
}

/// Relies on rustls_pemfile::certs: extracts the text-encoded certificate
/// sections of its input, in order; the result is a function of the input
/// bytes alone, and an error means the text could not be parsed.
#[verifier::external_body]
fn parse_certs(data: &Vec<u8>) -> (r: Result<Vec<Vec<u8>>, String>)
    ensures
        match r {
            Ok(v) => pem_certs(data@) == Some(v.deep_view()),
            Err(_) => pem_certs(data@) is None,
        },
{
    rustls_pemfile::certs(&mut data.as_slice()).map_err(|e| e.to_string())
}

/// Relies on rustls_pemfile::pkcs8_private_keys: extracts the text-encoded
/// standard-container key sections, in order, a function of the input alone.
#[verifier::external_body]
fn parse_pkcs8_keys(data: &Vec<u8>) -> (r: Result<Vec<Vec<u8>>, String>)
    ensures
        match r {
            Ok(v) => pem_pkcs8_keys(data@) == Some(v.deep_view()),
            Err(_) => pem_pkcs8_keys(data@) is None,
        },
{
    rustls_pemfile::pkcs8_private_keys(&mut data.as_slice()).map_err(|e| e.to_string())
}

/// Relies on rustls_pemfile::rsa_private_keys: extracts the text-encoded
/// RSA key sections, in order, a function of the input alone.
#[verifier::external_body]
fn parse_rsa_keys(data: &Vec<u8>) -> (r: Result<Vec<Vec<u8>>, String>)
    ensures
        match r {
            Ok(v) => pem_rsa_keys(data@) == Some(v.deep_view()),
            Err(_) => pem_rsa_keys(data@) is None,
        },
{
    rustls_pemfile::rsa_private_keys(&mut data.as_slice()).map_err(|e| e.to_string())
}

/// Relies on rustls_pemfile::ec_private_keys: extracts the text-encoded
/// elliptic-curve key sections, in order, a function of the input alone.
#[verifier::external_body]
fn parse_ec_keys(data: &Vec<u8>) -> (r: Result<Vec<Vec<u8>>, String>)
    ensures
        match r {
            Ok(v) => pem_ec_keys(data@) == Some(v.deep_view()),
            Err(_) => pem_ec_keys(data@) is None,
        },
{
    rustls_pemfile::ec_private_keys(&mut data.as_slice()).map_err(|e| e.to_string())
}

#[verifier::external_type_specification]
#[verifier::external_body]
pub struct ExRustlsServerConfig(rustls::ServerConfig);

#[verifier::external_type_specification]
#[verifier::external_body]
pub struct ExQuinnServerConfig(quinn::ServerConfig);

/// Relies on rustls's server config builder with safe defaults, no client
/// authentication and a single certificate chain: construction fails exactly
/// when the private key is not a supported key encoding, and the given
/// application protocols are installed for negotiation in the given order.
#[verifier::external_body]
fn build_server_crypto(cert_chain: Vec<Vec<u8>>, key_der: Vec<u8>, alpns: Vec<Vec<u8>>) -> (r:
    Result<rustls::ServerConfig, String>)
    ensures
        r is Ok <==> key_supported(key_der@),
{
    let chain = cert_chain.into_iter().map(rustls::Certificate).collect();
    let mut crypto = rustls::ServerConfig::builder()
        .with_safe_defaults()
        .with_no_client_auth()
        .with_single_cert(chain, rustls::PrivateKey(key_der))
        .map_err(|e| e.to_string())?;
    crypto.alpn_protocols = alpns;
    Ok(crypto)
}

/// Relies on quinn's server configuration: wraps the TLS configuration with
/// a transport configuration that caps concurrent bidirectional streams at
/// `max_bidi`, sets the idle timeout to `idle_ms` milliseconds, and selects
/// BBR congestion control.
#[verifier::external_body]
fn make_server_config(crypto: rustls::ServerConfig, max_bidi: u32, idle_ms: u32) -> (r:
    quinn::ServerConfig)
{
    let mut transport = quinn::TransportConfig::default();
    transport.max_concurrent_bidi_streams(quinn::VarInt::from_u32(max_bidi));
    transport.max_idle_timeout(Some(quinn::IdleTimeout::from(quinn::VarInt::from_u32(idle_ms))));
    transport.congestion_controller_factory(std::sync::Arc::new(
        quinn::congestion::BbrConfig::default(),
    ));
    let mut sc = quinn::ServerConfig::with_crypto(std::sync::Arc::new(crypto));
    sc.transport_config(std::sync::Arc::new(transport));
    sc
}

/// Maximum concurrent bidirectional streams per connection; fixed.
pub const MAX_CONCURRENT_BIDI_STREAMS: u32 = 64;

/// Idle timeout in milliseconds; fixed.
pub const MAX_IDLE_TIMEOUT_MS: u32 = 300_000;

/// Loads the certificate chain: the raw bytes as a single certificate for a
/// binary-encoded file, otherwise every text-encoded certificate in order.
pub fn load_certificates(cert_name: &str, cert_data: Vec<u8>) -> (r: Result<
    Vec<Vec<u8>>,
    ConfigError,
>)
    ensures
        match chain_of(cert_name.spec_bytes(), cert_data@) {
            Some(chain) => r matches Ok(v) && v.deep_view() == chain,
            None => r matches Err(e) && e is CertParse,
        },
{
    if has_der_extension(cert_name) {
        let mut chain: Vec<Vec<u8>> = Vec::new();
        let ghost data = cert_data@;
        chain.push(cert_data);
        proof {
            assert(chain@[0]@ == data);
            assert(chain.deep_view() =~~= seq![data]);
        }
        Ok(chain)
    } else {
        match parse_certs(&cert_data) {
            Ok(v) => Ok(v),
            Err(m) => Err(ConfigError::CertParse(m)),
        }
    }
}

/// Loads the private key: the raw bytes for a binary-encoded file, otherwise
/// the first text-encoded key, trying the standard container, then RSA, then
/// elliptic-curve. Fails with a parse error on malformed text and with
/// `NoKeys` when no format yields a key.
pub fn load_private_key(key_name: &str, key_data: Vec<u8>) -> (r: Result<Vec<u8>, ConfigError>)
    ensures
        match key_of(key_name.spec_bytes(), key_data@) {
            KeyChoice::Key(k) => r matches Ok(v) && v@ == k,
            KeyChoice::Malformed => r matches Err(e) && e is KeyParse,
            KeyChoice::Missing => r == Err::<Vec<u8>, ConfigError>(ConfigError::NoKeys),
        },
{
    if has_der_extension(key_name) {
        return Ok(key_data);
    }
    let mut pkcs8 = match parse_pkcs8_keys(&key_data) {
        Ok(v) => v,
        Err(m) => {
            return Err(ConfigError::KeyParse(m));
        },
    };
    if pkcs8.len() > 0 {
        return Ok(pkcs8.remove(0));
    }
    let mut rsa = match parse_rsa_keys(&key_data) {
        Ok(v) => v,
        Err(m) => {
            return Err(ConfigError::KeyParse(m));
        },
    };
    if rsa.len() > 0 {
        return Ok(rsa.remove(0));
    }
    let mut ec = match parse_ec_keys(&key_data) {
        Ok(v) => v,
        Err(m) => {
            return Err(ConfigError::KeyParse(m));
        },
    };
    if ec.len() > 0 {
        return Ok(ec.remove(0));
    }
    Err(ConfigError::NoKeys)
}

/// The application-protocol identifiers as raw bytes, in the caller's order.
pub fn alpn_bytes(alpns: &Vec<String>) -> (r: Vec<Vec<u8>>)
    ensures
        r@.len() == alpns@.len(),
        forall|i: int|
            0 <= i < r@.len() ==> #[trigger] r@[i]@ == vstd::utf8::encode_utf8(alpns@[i]@),
{
    let mut r: Vec<Vec<u8>> = Vec::new();
    let mut i: usize = 0;
    while i < alpns.len()
        invariant
            i <= alpns@.len(),
            r@.len() == i,
            forall|j: int| 0 <= j < i ==> #[trigger] r@[j]@ == vstd::utf8::encode_utf8(alpns@[j]@),
        decreases alpns.len() - i,
    {
        r.push(alpns[i].as_str().as_bytes_vec());
        i = i + 1;
    }
    r
}

/// Builds the TLS server configuration: certificate chain and key from the
/// two files, no client authentication, and the application protocols
/// registered in the caller's order.
pub fn build_crypto_config(
    certificate: &str,
    cert_data: Vec<u8>,
    certificate_key: &str,
    key_data: Vec<u8>,
    alpns: &Vec<String>,
) -> (r: Result<rustls::ServerConfig, ConfigError>)
    ensures
        chain_of(certificate.spec_bytes(), cert_data@) is None ==> (r matches Err(e) && e
            is CertParse),
        chain_of(certificate.spec_bytes(), cert_data@) is Some && key_of(
            certificate_key.spec_bytes(),
            key_data@,
        ) is Malformed ==> (r matches Err(e) && e is KeyParse),
        chain_of(certificate.spec_bytes(), cert_data@) is Some && key_of(
            certificate_key.spec_bytes(),
            key_data@,
        ) is Missing ==> (r matches Err(e) && e is NoKeys),
        key_of(certificate_key.spec_bytes(), key_data@) matches KeyChoice::Key(k) ==> (chain_of(
            certificate.spec_bytes(),
            cert_data@,
        ) is Some ==> ((r is Ok <==> key_supported(k)) && (!key_supported(k) ==> (r matches Err(e)
            && e is Tls)))),
{
    let chain = match load_certificates(certificate, cert_data) {
        Ok(v) => v,
        Err(e) => {
            return Err(e);
        },
    };
    let key = match load_private_key(certificate_key, key_data) {
        Ok(v) => v,
        Err(e) => {
            return Err(e);
        },
    };
    match build_server_crypto(chain, key, alpn_bytes(alpns)) {
        Ok(crypto) => Ok(crypto),
        Err(m) => Err(ConfigError::Tls(m)),
    }
}

/// Accepts inbound QUIC connections' configuration: holds the immutable
/// server configuration built once and reused for every accepted connection.
pub struct Handler {
    server_config: quinn::ServerConfig,
}

impl Handler {
    /// Builds the handler from the certificate file's name and contents, the
    /// key file's name and contents, and the ordered application protocols.
    /// Transport parameters are fixed: 64 concurrent bidirectional streams,
    /// a 300,000 ms idle timeout, BBR congestion control.
    pub fn new(
        certificate: &str,
        cert_data: Vec<u8>,
        certificate_key: &str,
        key_data: Vec<u8>,
        alpns: &Vec<String>,
    ) -> (r: Result<Handler, ConfigError>)
        ensures
            chain_of(certificate.spec_bytes(), cert_data@) is None ==> (r matches Err(e) && e
                is CertParse),
            chain_of(certificate.spec_bytes(), cert_data@) is Some && key_of(
                certificate_key.spec_bytes(),
                key_data@,
            ) is Malformed ==> (r matches Err(e) && e is KeyParse),
            chain_of(certificate.spec_bytes(), cert_data@) is Some && key_of(
                certificate_key.spec_bytes(),
                key_data@,
            ) is Missing ==> (r matches Err(e) && e is NoKeys),
            key_of(certificate_key.spec_bytes(), key_data@) matches KeyChoice::Key(k) ==> (chain_of(
                certificate.spec_bytes(),
                cert_data@,
            ) is Some ==> ((r is Ok <==> key_supported(k)) && (!key_supported(k) ==> (r matches Err(
                e,
            ) && e is Tls)))),
    {
        let crypto = match build_crypto_config(
            certificate,
            cert_data,
            certificate_key,
            key_data,
            alpns,
        ) {
            Ok(c) => c,
            Err(e) => {
                return Err(e);
            },
        };
        Ok(
            Handler {
                server_config: make_server_config(
                    crypto,
                    MAX_CONCURRENT_BIDI_STREAMS,
                    MAX_IDLE_TIMEOUT_MS,
                ),
            },
        )
    }

    /// The server configuration the entry adapter binds new endpoints with.
    pub fn server_config(&self) -> &quinn::ServerConfig {
        &self.server_config
    }
}

} // verus!
