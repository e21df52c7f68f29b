//! Minting the signed authentication token.
//!
//! The generator builds the well-known authorization URL for the target
//! host, has the signing step compute the query parameters that prove
//! possession of the credentials, and assembles the token: the host, the
//! fixed action query, and the encoded signing parameters — with no
//! scheme prefix, since the result is used as a bare password.

use vstd::prelude::*;
use vstd::string::StrSliceExecFns;
use vstd::string::StringExecFns;
use vstd::string::StringSliceAdditionalSpecFns;
use vstd::utf8::{decode_utf8, encode_utf8, is_ascii_chars, is_ascii_chars_encode_utf8};
use aws_credential_types::Credentials as IamCredentials;
use aws_sigv4::http_request::{sign, SignableBody, SignableRequest, SignatureLocation, SigningSettings};
use aws_sigv4::sign::v4::SigningParams;
use std::iter::empty;
use std::time::{Duration, UNIX_EPOCH};
use crate::auth::{
    fold_bytes,
    host_input_wf,
    host_wf,
    is_host_byte,
    lemma_fold_host_bytes,
    AuthError,
    Credentials,
    SigningRequest,
};
use crate::encode::append_encoded;
use crate::query::{
    algorithm_param_name,
    credential_param_name,
    date_param_name,
    dec_digits,
    encoded_params,
    expires_param_name,
    lemma_encoded_params_snoc,
    lemma_token_expiry_decodes,
    lemma_token_param_present,
    lookup_raw_param,
    path_query_prefix,
    security_token_param_name,
    signature_param_name,
    signed_headers_param_name,
    spec_decode_expiry,
    token_bytes,
    AMP,
    EQS,
};

verus! {

/// Signing instants this far into the future (the year 10000) and beyond
/// are rejected up front: the signing step cannot format their dates.
pub const MAX_SIGNING_INSTANT_SECS: u64 = 253402300800;

/// The query parameters the signing step computes.  They are a function
/// of the signed URL, the signing scope (region), the credentials, the
/// signing instant and the expiry alone; signing the same inputs at the
/// same instant yields the same parameters.
pub uninterp spec fn sigv4_params(
    url: Seq<char>,
    region: Seq<char>,
    access_key_id: Seq<char>,
    secret_access_key: Seq<char>,
    session_token: Option<Seq<char>>,
    signing_instant_secs: u64,
    expiry_secs: u64,
) -> Seq<(Seq<char>, Seq<char>)>;

/// The signing parameters carry the expiry: some parameter is named
/// `X-Amz-Expires`, and every parameter so named holds the expiry in
/// decimal seconds.
pub open spec fn carries_expiry(ps: Seq<(Seq<char>, Seq<char>)>, expiry_secs: u64) -> bool {
    &&& exists|i: int|
        0 <= i < ps.len() && #[trigger] encode_utf8(ps[i].0) == expires_param_name()
            && encode_utf8(ps[i].1) == dec_digits(expiry_secs as nat)
    &&& forall|i: int|
        0 <= i < ps.len() && #[trigger] encode_utf8(ps[i].0) == expires_param_name()
            ==> encode_utf8(ps[i].1) == dec_digits(expiry_secs as nat)
}

/// Some signing parameter bears the given name.
pub open spec fn carries_param(ps: Seq<(Seq<char>, Seq<char>)>, name: Seq<u8>) -> bool {
    exists|i: int| 0 <= i < ps.len() && #[trigger] encode_utf8(ps[i].0) == name
}

/// The parameter names the query-placed signature always comes with.
pub open spec fn carries_signing_params(ps: Seq<(Seq<char>, Seq<char>)>) -> bool {
    &&& carries_param(ps, algorithm_param_name())
    &&& carries_param(ps, credential_param_name())
    &&& carries_param(ps, date_param_name())
    &&& carries_param(ps, signed_headers_param_name())
    &&& carries_param(ps, signature_param_name())
}

/// Relies on `aws_sigv4::http_request::sign` with
/// `SignatureLocation::QueryParams`, and on the `v4::SigningParams` and
/// `SignableRequest` builders: signing a GET request with an empty body
/// computes the signature and its companion query parameters
/// deterministically from the URL, region, credentials, signing time and
/// expiry.  The parameter list is the fixed sequence `X-Amz-Algorithm`,
/// `X-Amz-Credential`, `X-Amz-Date`, `X-Amz-Expires` (the expiry in
/// whole seconds, written in decimal), `X-Amz-SignedHeaders`,
/// `X-Amz-Signature`, then `X-Amz-Security-Token` exactly when the
/// credentials carry a session token.
///
/// The `requires` clauses keep out the inputs on which the call would
/// not return its parameters: an instant from the year 10000 on makes
/// the date formatter panic, a URL without an authority trips an
/// assertion when the host header is derived, and the URI parser
/// refuses URLs beyond its length cap of 65,534 bytes.  For a URL of
/// the well-known authorization shape over a canonical host — which is
/// bounded well below that cap — every step — URI parse, parameter
/// building, host-header derivation, hashing and signing — is
/// infallible, so the call returns its parameters.
#[verifier::external_body]
fn sign_url_query(
    url: &str,
    region: &str,
    access_key_id: &str,
    secret_access_key: &str,
    session_token: Option<String>,
    signing_time_secs: u64,
    expiry_secs: u64,
) -> (r: Option<Vec<(String, String)>>)
    requires
        signing_time_secs < MAX_SIGNING_INSTANT_SECS,
        exists|h: Seq<char>| host_wf(h) && url@ == signing_url(h),
    ensures
        r is Some,
        r matches Some(ps) ==> ps.deep_view() == sigv4_params(
            url@,
            region@,
            access_key_id@,
            secret_access_key@,
            session_token.deep_view(),
            signing_time_secs,
            expiry_secs,
        ),
        r matches Some(ps) ==> carries_expiry(ps.deep_view(), expiry_secs),
        r matches Some(ps) ==> carries_signing_params(ps.deep_view()),
        r matches Some(ps) ==> (session_token is Some ==> carries_param(
            ps.deep_view(),
            security_token_param_name(),
        )),
{
    let identity = IamCredentials::new(access_key_id, secret_access_key, session_token, None, "static").into();
    let mut settings = SigningSettings::default();
    settings.expires_in = Some(Duration::from_secs(expiry_secs));
    settings.signature_location = SignatureLocation::QueryParams;
    let params = SigningParams::builder().identity(&identity).region(region).name("xanadu")
        .time(UNIX_EPOCH + Duration::from_secs(signing_time_secs)).settings(settings).build().ok()?;
    let request = SignableRequest::new("GET", url, empty(), SignableBody::Bytes(&[])).ok()?;
    let instructions = sign(request, &params.into()).ok()?.into_parts().0;
    Some(instructions.into_parts().1.into_iter().map(|(n, v)| (n.to_string(), v.to_string())).collect())
}

/// Relies on `String::from_utf8`: ASCII bytes are valid UTF-8 and decode
/// to the string whose characters are exactly those bytes.
#[verifier::external_body]
fn ascii_bytes_to_string(v: Vec<u8>) -> (r: String)
    requires
        forall|i: int| 0 <= i < v@.len() ==> v@[i] < 128,
    ensures
        is_ascii_chars(r@),
        encode_utf8(r@) == v@,
{
    String::from_utf8(v).unwrap_or_default()
}

/// The URL whose canonical form is signed: the scheme, the host, and the
/// well-known authorization path and action.
pub open spec fn signing_url(host: Seq<char>) -> Seq<char> {
    "https://"@ + host + "/?Action=DbConnectSuperuser"@
}

/// Builds [`signing_url`] for the signing step.
fn build_signing_url(hostname: &str) -> (r: String)
    ensures
        r@ == signing_url(hostname@),
{
    let mut url = String::from_str("https://");
    url.append(hostname);
    url.append("/?Action=DbConnectSuperuser");
    url
}

/// The views of the signing parameters, as UTF-8 bytes.
pub open spec fn params_bytes(ps: Seq<(Seq<char>, Seq<char>)>) -> Seq<(Seq<u8>, Seq<u8>)> {
    ps.map_values(|p: (Seq<char>, Seq<char>)| (encode_utf8(p.0), encode_utf8(p.1)))
}

/// A scheme prefix, which a minted token never starts with.
pub open spec fn has_scheme_prefix(t: Seq<char>) -> bool {
    (t.len() >= 8 && t.subrange(0, 8) == "https://"@) || (t.len() >= 7 && t.subrange(0, 7)
        == "http://"@)
}

/// The exec counterpart of [`host_input_wf`].
pub fn host_ok(hostname: &str) -> (r: bool)
    ensures
        r == host_input_wf(hostname@),
{
    if !hostname.is_ascii() {
        return false;
    }
    proof {
        is_ascii_chars_encode_utf8(hostname@);
    }
    let bs = hostname.as_bytes_vec();
    if bs.len() == 0 || bs.len() > crate::auth::MAX_HOST_LEN {
        return false;
    }
    let mut i: usize = 0;
    while i < bs.len()
        invariant
            i <= bs.len(),
            bs@ == encode_utf8(hostname@),
            bs@.len() <= crate::auth::MAX_HOST_LEN,
            forall|k: int| 0 <= k < i ==> crate::auth::is_host_input_byte(#[trigger] bs@[k]),
        decreases bs.len() - i,
    {
        let b = bs[i];
        if !((97 <= b && b <= 122) || (65 <= b && b <= 90) || (48 <= b && b <= 57) || b == 45
            || b == 46 || b == 95) {
            return false;
        }
        i = i + 1;
    }
    true
}

/// The canonical (lowercase) text of an acceptable host.
pub open spec fn folded_host(h: Seq<char>) -> Seq<char> {
    decode_utf8(fold_bytes(encode_utf8(h)))
}

/// Folds an acceptable host to its canonical lowercase form, as URL
/// normalization would.
pub fn fold_host(hostname: &str) -> (r: String)
    requires
        host_input_wf(hostname@),
    ensures
        is_ascii_chars(r@),
        encode_utf8(r@) == fold_bytes(encode_utf8(hostname@)),
        host_wf(r@),
        r@ == folded_host(hostname@),
{
    proof {
        is_ascii_chars_encode_utf8(hostname@);
    }
    let bs = hostname.as_bytes_vec();
    let mut out: Vec<u8> = Vec::new();
    let mut i: usize = 0;
    while i < bs.len()
        invariant
            i <= bs.len(),
            bs@ == encode_utf8(hostname@),
            out@ == fold_bytes(bs@.take(i as int)),
        decreases bs.len() - i,
    {
        let b = bs[i];
        if 65 <= b && b <= 90 {
            out.push(b + 32);
        } else {
            out.push(b);
        }
        assert(out@ =~= fold_bytes(bs@.take(i + 1)));
        i = i + 1;
    }
    proof {
        assert(bs@.take(bs@.len() as int) =~= bs@);
        lemma_fold_host_bytes(bs@);
    }
    let r = ascii_bytes_to_string(out);
    proof {
        vstd::utf8::encode_utf8_decode_utf8(r@);
        is_ascii_chars_encode_utf8(r@);
    }
    r
}

/// Assembles the token from the host and the signing parameters: the
/// bare host, the fixed action query, and each parameter encoded — and
/// no scheme prefix.
pub fn assemble_token(hostname: &str, params: &Vec<(String, String)>) -> (r: String)
    requires
        host_wf(hostname@),
    ensures
        encode_utf8(r@) == token_bytes(encode_utf8(hostname@), params_bytes(params.deep_view())),
        is_ascii_chars(r@),
        r@.len() > 0,
        !has_scheme_prefix(r@),
{
    let mut out: Vec<u8> = hostname.as_bytes_vec();
    let mut prefix: Vec<u8> = vec![
        47, 63, 65, 99, 116, 105, 111, 110, 61, 68, 98, 67, 111, 110, 110, 101, 99, 116, 83, 117,
        112, 101, 114, 117, 115, 101, 114,
    ];
    proof {
        assert(prefix@ =~= path_query_prefix());
    }
    out.append(&mut prefix);
    let ghost hb = encode_utf8(hostname@);
    let ghost pb = params_bytes(params.deep_view());
    let mut k: usize = 0;
    while k < params.len()
        invariant
            k <= params.len(),
            hb == encode_utf8(hostname@),
            pb == params_bytes(params.deep_view()),
            pb.len() == params@.len(),
            out@ == hb + path_query_prefix() + encoded_params(pb.take(k as int)),
        decreases params.len() - k,
    {
        out.push(AMP);
        let nb = params[k].0.as_str().as_bytes_vec();
        append_encoded(&mut out, &nb);
        out.push(EQS);
        let vb = params[k].1.as_str().as_bytes_vec();
        append_encoded(&mut out, &vb);
        proof {
            assert(params.deep_view()[k as int] == (params@[k as int].0@, params@[k as int].1@));
            assert(pb[k as int] == (encode_utf8(params@[k as int].0@), encode_utf8(
                params@[k as int].1@,
            )));
            assert(nb@ == pb[k as int].0 && vb@ == pb[k as int].1);
            assert(pb.take(k + 1).drop_last() =~= pb.take(k as int));
            assert(pb.take(k + 1).last() == pb[k as int]);
            lemma_encoded_params_snoc(pb.take(k + 1));
            assert(out@ =~= hb + path_query_prefix() + encoded_params(pb.take(k + 1)));
        }
        k = k + 1;
    }
    proof {
        assert(pb.take(pb.len() as int) =~= pb);
        assert(out@ == token_bytes(hb, pb));
    }
    proof {
        lemma_token_bytes_ascii(hb, pb);
    }
    let r = ascii_bytes_to_string(out);
    proof {
        lemma_token_no_scheme(r@, hb, pb);
    }
    r
}

/// Token bytes are ASCII: host bytes, the fixed prefix and encoded
/// output all lie below 128.
proof fn lemma_token_bytes_ascii(hb: Seq<u8>, pb: Seq<(Seq<u8>, Seq<u8>)>)
    requires
        forall|i: int| 0 <= i < hb.len() ==> is_host_byte(#[trigger] hb[i]),
    ensures
        forall|i: int| 0 <= i < token_bytes(hb, pb).len() ==> #[trigger] token_bytes(hb, pb)[i]
            < 128,
{
    crate::query::lemma_encoded_params_alphabet(pb);
    let t = token_bytes(hb, pb);
    assert(forall|i: int|
        0 <= i < t.len() ==> #[trigger] t[i] == if i < hb.len() {
            hb[i]
        } else if i < hb.len() + path_query_prefix().len() {
            path_query_prefix()[i - hb.len()]
        } else {
            encoded_params(pb)[i - hb.len() - path_query_prefix().len()]
        });
}

/// A string whose bytes are a token's bytes never starts with a scheme
/// prefix: its early characters are host bytes or the fixed `/?Action`
/// prefix, none of which is a colon.
proof fn lemma_token_no_scheme(t: Seq<char>, hb: Seq<u8>, pb: Seq<(Seq<u8>, Seq<u8>)>)
    requires
        is_ascii_chars(t),
        encode_utf8(t) == token_bytes(hb, pb),
        hb.len() > 0,
        forall|i: int| 0 <= i < hb.len() ==> is_host_byte(#[trigger] hb[i]),
    ensures
        t.len() > 0,
        !has_scheme_prefix(t),
{
    is_ascii_chars_encode_utf8(t);
    let bytes = token_bytes(hb, pb);
    assert(t.len() == bytes.len());
    assert(bytes.len() >= hb.len() + 27);
    assert(forall|i: int|
        0 <= i < bytes.len() ==> #[trigger] bytes[i] == if i < hb.len() {
            hb[i]
        } else if i < hb.len() + path_query_prefix().len() {
            path_query_prefix()[i - hb.len()]
        } else {
            encoded_params(pb)[i - hb.len() - path_query_prefix().len()]
        });
    if t.len() >= 8 && t.subrange(0, 8) == "https://"@ {
        reveal_strlit("https://");
        assert(t[5] == "https://"@[5]);
        assert(t[5] == ':');
        assert(t[5] as u8 == bytes[5]);
        assert(':' as u8 == 58);
        assert(bytes[5] != 58);
        assert(false);
    }
    if t.len() >= 7 && t.subrange(0, 7) == "http://"@ {
        reveal_strlit("http://");
        assert(t[4] == "http://"@[4]);
        assert(t[4] == ':');
        assert(t[4] as u8 == bytes[4]);
        assert(':' as u8 == 58);
        assert(bytes[4] != 58);
        assert(false);
    }
}

/// The exec counterpart of [`SigningRequest::wf`].
pub fn signing_request_ok(request: &SigningRequest) -> (r: bool)
    ensures
        r == request.wf(),
{
    host_ok(request.hostname.as_str()) && !request.region.as_str().is_empty()
        && request.expiry_secs > 0
}

/// Mints a signed authentication token for connecting to the given host
/// as the administrative database user.
///
/// Fails with `CredentialUnavailable` when no credentials were
/// supplied, with `SigningError` when the signing inputs are malformed
/// — and succeeds on every other input.  The minted token starts with
/// the host in canonical lowercase form, is non-empty, carries no
/// scheme prefix, is byte-for-byte determined by the inputs and the
/// signing instant, decodes back to its expiry, and carries the
/// signature, credential-scope and date parameters (plus the security
/// token, when the credentials hold one).
pub fn generate_db_auth_token(
    request: &SigningRequest,
    credentials: Option<&Credentials>,
    now_secs: u64,
) -> (r: Result<String, AuthError>)
    requires
        now_secs < MAX_SIGNING_INSTANT_SECS,
    ensures
        credentials is None ==> r == Err::<String, AuthError>(AuthError::CredentialUnavailable),
        credentials is Some && !request.wf() ==> r == Err::<String, AuthError>(
            AuthError::SigningError,
        ),
        credentials is Some && request.wf() ==> r is Ok,
        r is Ok ==> credentials is Some && request.wf(),
        (match (r, credentials) {
            (Ok(t), Some(c)) => {
                &&& is_ascii_chars(t@)
                &&& t@.len() > 0
                &&& !has_scheme_prefix(t@)
                &&& encode_utf8(t@) == token_bytes(
                    fold_bytes(encode_utf8(request.hostname@)),
                    params_bytes(
                        sigv4_params(
                            signing_url(folded_host(request.hostname@)),
                            request.region@,
                            c.access_key_id@,
                            c.secret_access_key@,
                            c.session_token.deep_view(),
                            now_secs,
                            request.expiry_secs,
                        ),
                    ),
                )
                &&& spec_decode_expiry(encode_utf8(t@)) == Some(request.expiry_secs)
                &&& lookup_raw_param(encode_utf8(t@), date_param_name()) is Some
                &&& lookup_raw_param(encode_utf8(t@), signature_param_name()) is Some
                &&& lookup_raw_param(encode_utf8(t@), credential_param_name()) is Some
                &&& lookup_raw_param(encode_utf8(t@), algorithm_param_name()) is Some
                &&& lookup_raw_param(encode_utf8(t@), signed_headers_param_name()) is Some
                &&& (c.session_token is Some ==> lookup_raw_param(
                    encode_utf8(t@),
                    security_token_param_name(),
                ) is Some)
            },
            _ => true,
        }),
{
    let c = match credentials {
        None => {
            return Err(AuthError::CredentialUnavailable);
        },
        Some(c) => c,
    };
    if !signing_request_ok(request) {
        return Err(AuthError::SigningError);
    }
    let host = fold_host(request.hostname.as_str());
    let url = build_signing_url(host.as_str());
    let session = match &c.session_token {
        Some(t) => Some(t.clone()),
        None => None,
    };
    proof {
        assert(session.deep_view() == c.session_token.deep_view());
        assert(exists|h: Seq<char>| host_wf(h) && url@ == signing_url(h)) by {
            assert(host_wf(host@) && url@ == signing_url(host@));
        }
    }
    let ps = sign_url_query(
        url.as_str(),
        request.region.as_str(),
        c.access_key_id.as_str(),
        c.secret_access_key.as_str(),
        session,
        now_secs,
        request.expiry_secs,
    ).unwrap();
    let t = assemble_token(host.as_str(), &ps);
    proof {
        let dv = ps.deep_view();
        let pb = params_bytes(dv);
        let hb = encode_utf8(host@);
        let e = request.expiry_secs;
        assert(hb == fold_bytes(encode_utf8(request.hostname@)));
        assert(hb.len() > 0) by {
            is_ascii_chars_encode_utf8(host@);
        }
        assert(forall|i: int| 0 <= i < hb.len() ==> is_host_byte(#[trigger] hb[i]));
        let w = choose|i: int|
            0 <= i < dv.len() && #[trigger] encode_utf8(dv[i].0) == expires_param_name()
                && encode_utf8(dv[i].1) == dec_digits(e as nat);
        assert(pb[w] == (encode_utf8(dv[w].0), encode_utf8(dv[w].1)));
        assert(pb[w].0 == expires_param_name() && pb[w].1 == dec_digits(e as nat));
        assert(forall|i: int|
            0 <= i < pb.len() && #[trigger] pb[i].0 == expires_param_name() ==> pb[i].1
                == dec_digits(e as nat)) by {
            assert(forall|i: int|
                0 <= i < pb.len() ==> #[trigger] pb[i] == (
                    encode_utf8(dv[i].0),
                    encode_utf8(dv[i].1),
                ));
        }
        lemma_token_expiry_decodes(hb, pb, e);
        lemma_minted_param_present(hb, dv, date_param_name());
        lemma_minted_param_present(hb, dv, signature_param_name());
        lemma_minted_param_present(hb, dv, credential_param_name());
        lemma_minted_param_present(hb, dv, algorithm_param_name());
        lemma_minted_param_present(hb, dv, signed_headers_param_name());
        if c.session_token is Some {
            lemma_minted_param_present(hb, dv, security_token_param_name());
        }
    }
    Ok(t)
}

/// A parameter carried by the signing result appears in the assembled
/// token.
proof fn lemma_minted_param_present(hb: Seq<u8>, dv: Seq<(Seq<char>, Seq<char>)>, name: Seq<u8>)
    requires
        hb.len() > 0,
        forall|i: int| 0 <= i < hb.len() ==> is_host_byte(#[trigger] hb[i]),
        forall|i: int| 0 <= i < name.len() ==> crate::encode::is_unreserved(#[trigger] name[i]),
        carries_param(dv, name),
    ensures
        lookup_raw_param(token_bytes(hb, params_bytes(dv)), name) is Some,
{
    let pb = params_bytes(dv);
    let w = choose|i: int| 0 <= i < dv.len() && #[trigger] encode_utf8(dv[i].0) == name;
    assert(pb[w] == (encode_utf8(dv[w].0), encode_utf8(dv[w].1)));
    assert(pb[w].0 == name);
    lemma_token_param_present(hb, pb, name);
}

/// A token's text is determined by its bytes: two tokens with the same
/// byte encoding are the same text.  Since the generator's contract
/// makes the token bytes a function of host, region, credentials,
/// expiry and signing instant alone, re-invocation with identical
/// inputs at the same instant mints the very same token — each mint is
/// independently valid, and minting never invalidates an earlier token.
pub proof fn lemma_token_text_determined(t1: Seq<char>, t2: Seq<char>)
    requires
        encode_utf8(t1) == encode_utf8(t2),
    ensures
        t1 == t2,
{
    vstd::utf8::encode_utf8_decode_utf8(t1);
    vstd::utf8::encode_utf8_decode_utf8(t2);
}

} // verus!
