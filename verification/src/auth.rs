//! Data model for token minting: credentials, signing requests, and the
//! error taxonomy.

use vstd::prelude::*;
use vstd::utf8::{encode_utf8, is_ascii_chars};

verus! {

/// Errors the token generator can surface.
#[derive(Clone, Copy, Debug, PartialEq, Eq, Structural)]
pub enum AuthError {
    /// The credential source could not supply credentials at call time.
    CredentialUnavailable,
    /// The signing inputs were malformed (ill-formed host, empty region,
    /// non-positive expiry), or the signing step itself refused them.
    SigningError,
}

/// Credentials as supplied by the credential source.  The generator passes
/// them into the signing step and never persists them.
pub struct Credentials {
    pub access_key_id: String,
    pub secret_access_key: String,
    pub session_token: Option<String>,
}

impl Credentials {
    pub fn new(access_key_id: String, secret_access_key: String, session_token: Option<String>) -> (r:
        Credentials)
        ensures
            r.access_key_id == access_key_id,
            r.secret_access_key == secret_access_key,
            r.session_token == session_token,
    {
        Credentials { access_key_id, secret_access_key, session_token }
    }
}

/// Tokens expire this many seconds after signing when no expiry is given.
pub const DEFAULT_EXPIRY_SECS: u64 = 900;

/// The longest accepted host: the DNS name-length limit.  It also keeps
/// the signed URL far below the URI parser's own length cap, so signing
/// an accepted host cannot fail.
pub const MAX_HOST_LEN: usize = 255;

/// A byte of a hostname in canonical form: lowercase ASCII letters,
/// digits, `-`, `.` and `_`.  This keeps every host free of separators
/// (`:`, `/`, `?`, `&`, `=`, `#`), so the minted token can be parsed back
/// unambiguously and can never start with a scheme prefix.
pub open spec fn is_host_byte(b: u8) -> bool {
    (97 <= b <= 122) || (48 <= b <= 57) || b == 45 || b == 46 || b == 95
}

/// A byte a caller may write in a hostname: a canonical host byte or an
/// uppercase ASCII letter, which URL normalization folds to lowercase.
pub open spec fn is_host_input_byte(b: u8) -> bool {
    is_host_byte(b) || (65 <= b <= 90)
}

/// A host in canonical form: non-empty ASCII text of host bytes, no
/// longer than [`MAX_HOST_LEN`].
pub open spec fn host_wf(h: Seq<char>) -> bool {
    &&& 0 < h.len() <= MAX_HOST_LEN
    &&& is_ascii_chars(h)
    &&& forall|i: int| 0 <= i < encode_utf8(h).len() ==> is_host_byte(#[trigger] encode_utf8(h)[i])
}

/// An acceptable target host as written by the caller: non-empty ASCII
/// text of host bytes, uppercase letters allowed, no longer than
/// [`MAX_HOST_LEN`].
pub open spec fn host_input_wf(h: Seq<char>) -> bool {
    &&& 0 < h.len() <= MAX_HOST_LEN
    &&& is_ascii_chars(h)
    &&& forall|i: int|
        0 <= i < encode_utf8(h).len() ==> is_host_input_byte(#[trigger] encode_utf8(h)[i])
}

/// Folding an uppercase ASCII letter to lowercase; every other byte is
/// kept.
pub open spec fn fold_byte(b: u8) -> u8 {
    if 65 <= b <= 90 {
        (b + 32) as u8
    } else {
        b
    }
}

/// The lowercase fold of a byte string.
pub open spec fn fold_bytes(s: Seq<u8>) -> Seq<u8> {
    s.map_values(|b: u8| fold_byte(b))
}

/// Folding an acceptable host yields a canonical one.
pub proof fn lemma_fold_host_bytes(s: Seq<u8>)
    requires
        forall|i: int| 0 <= i < s.len() ==> is_host_input_byte(#[trigger] s[i]),
    ensures
        fold_bytes(s).len() == s.len(),
        forall|i: int| 0 <= i < fold_bytes(s).len() ==> is_host_byte(#[trigger] fold_bytes(s)[i]),
{
    assert(forall|i: int| 0 <= i < fold_bytes(s).len() ==> fold_bytes(s)[i] == fold_byte(s[i]));
}

/// One request to mint a token: target host, signing region, and how long
/// the token stays valid.  The action it authorizes is fixed: connecting
/// as the administrative database user.
pub struct SigningRequest {
    pub hostname: String,
    pub region: String,
    pub expiry_secs: u64,
}

impl SigningRequest {
    /// The inputs the signing step accepts; anything else is rejected with
    /// `AuthError::SigningError` before signing.
    pub open spec fn wf(self) -> bool {
        &&& host_input_wf(self.hostname@)
        &&& self.region@.len() > 0
        &&& self.expiry_secs > 0
    }

    /// Builds a request; a missing expiry defaults to
    /// [`DEFAULT_EXPIRY_SECS`].
    pub fn new(hostname: String, region: String, expiry_secs: Option<u64>) -> (r: SigningRequest)
        ensures
            r.hostname == hostname,
            r.region == region,
            r.expiry_secs == (match expiry_secs {
                Some(e) => e,
                None => DEFAULT_EXPIRY_SECS,
            }),
    {
        let expiry = match expiry_secs {
            Some(e) => e,
            None => DEFAULT_EXPIRY_SECS,
        };
        SigningRequest { hostname, region, expiry_secs: expiry }
    }
}

} // verus!
