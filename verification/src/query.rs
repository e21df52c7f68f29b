//! The query layout of a minted token, and decoding a token's expiry.
//!
//! A token reads `host/?Action=DbConnectSuperuser&name=value&...`: the
//! fixed action pair first, then each signing parameter, names and values
//! in encoded form.  Since encoding never produces `?`, `&` or `=`, the
//! token splits back unambiguously, and the `X-Amz-Expires` parameter can
//! be recovered exactly.

use vstd::prelude::*;
use vstd::string::StrSliceExecFns;
use vstd::string::StringSliceAdditionalSpecFns;
use vstd::utf8::encode_utf8;
use crate::encode::{
    form_encoded,
    is_unreserved,
    is_encoded_output,
    lemma_form_encoded_alphabet,
    lemma_form_encoded_identity,
    lemma_form_encoded_unreserved_source,
};

verus! {

/// The byte `&`, separating query pairs.
pub const AMP: u8 = 38;

/// The byte `=`, separating a name from its value.
pub const EQS: u8 = 61;

/// The byte `?`, separating the path from the query.
pub const QMARK: u8 = 63;

/// The bytes of `Action=DbConnectSuperuser`, the fixed first query pair
/// naming the privileged connect action the token authorizes.
pub open spec fn action_query() -> Seq<u8> {
    seq![
        65u8,
        99,
        116,
        105,
        111,
        110,
        61,
        68,
        98,
        67,
        111,
        110,
        110,
        101,
        99,
        116,
        83,
        117,
        112,
        101,
        114,
        117,
        115,
        101,
        114,
    ]
}

/// The bytes of `/?Action=DbConnectSuperuser`, standing between the host
/// and the signing parameters.
pub open spec fn path_query_prefix() -> Seq<u8> {
    seq![47u8, 63] + action_query()
}

/// The bytes of `X-Amz-Expires`, the signing parameter carrying the
/// token's lifetime in seconds.
pub open spec fn expires_param_name() -> Seq<u8> {
    seq![88u8, 45, 65, 109, 122, 45, 69, 120, 112, 105, 114, 101, 115]
}

/// The bytes of `X-Amz-Date`, the signing parameter carrying the
/// formatted signing instant.
pub open spec fn date_param_name() -> Seq<u8> {
    seq![88u8, 45, 65, 109, 122, 45, 68, 97, 116, 101]
}

/// The bytes of `X-Amz-Signature`.
pub open spec fn signature_param_name() -> Seq<u8> {
    seq![88u8, 45, 65, 109, 122, 45, 83, 105, 103, 110, 97, 116, 117, 114, 101]
}

/// The bytes of `X-Amz-Credential`, the credential-scope parameter.
pub open spec fn credential_param_name() -> Seq<u8> {
    seq![88u8, 45, 65, 109, 122, 45, 67, 114, 101, 100, 101, 110, 116, 105, 97, 108]
}

/// The bytes of `X-Amz-Algorithm`.
pub open spec fn algorithm_param_name() -> Seq<u8> {
    seq![88u8, 45, 65, 109, 122, 45, 65, 108, 103, 111, 114, 105, 116, 104, 109]
}

/// The bytes of `X-Amz-SignedHeaders`.
pub open spec fn signed_headers_param_name() -> Seq<u8> {
    seq![88u8, 45, 65, 109, 122, 45, 83, 105, 103, 110, 101, 100, 72, 101, 97, 100, 101, 114, 115]
}

/// The bytes of `X-Amz-Security-Token`, present exactly when the
/// credentials carry a session token.
pub open spec fn security_token_param_name() -> Seq<u8> {
    seq![88u8, 45, 65, 109, 122, 45, 83, 101, 99, 117, 114, 105, 116, 121, 45, 84, 111, 107, 101, 110]
}

/// One encoded `name=value` pair.
pub open spec fn encoded_pair(p: (Seq<u8>, Seq<u8>)) -> Seq<u8> {
    form_encoded(p.0) + seq![EQS] + form_encoded(p.1)
}

/// The encoded signing parameters, each preceded by `&`.
pub open spec fn encoded_params(ps: Seq<(Seq<u8>, Seq<u8>)>) -> Seq<u8>
    decreases ps.len(),
{
    if ps.len() == 0 {
        Seq::<u8>::empty()
    } else {
        seq![AMP] + encoded_pair(ps.first()) + encoded_params(ps.drop_first())
    }
}

/// The full token: the bare host, the fixed action query, and the encoded
/// signing parameters.  No scheme prefix is part of it.
pub open spec fn token_bytes(host: Seq<u8>, ps: Seq<(Seq<u8>, Seq<u8>)>) -> Seq<u8> {
    host + path_query_prefix() + encoded_params(ps)
}

/// Splits `s` at every occurrence of `sep`; the result always has one
/// more part than `s` has separators.
pub open spec fn split_on(s: Seq<u8>, sep: u8) -> Seq<Seq<u8>>
    decreases s.len(),
{
    if s.len() == 0 {
        seq![Seq::<u8>::empty()]
    } else if s.first() == sep {
        seq![Seq::<u8>::empty()] + split_on(s.drop_first(), sep)
    } else {
        let r = split_on(s.drop_first(), sep);
        seq![seq![s.first()] + r.first()] + r.drop_first()
    }
}

/// `s` contains no occurrence of `sep`.
pub open spec fn sep_free(s: Seq<u8>, sep: u8) -> bool {
    forall|i: int| 0 <= i < s.len() ==> s[i] != sep
}

/// An ASCII digit.
pub open spec fn is_digit(b: u8) -> bool {
    48 <= b <= 57
}

/// All bytes of `s` are ASCII digits.
pub open spec fn all_digits(s: Seq<u8>) -> bool {
    forall|i: int| 0 <= i < s.len() ==> is_digit(#[trigger] s[i])
}

/// The number the digit string `s` denotes.
pub open spec fn digits_val(s: Seq<u8>) -> int
    decreases s.len(),
{
    if s.len() == 0 {
        0
    } else {
        digits_val(s.drop_last()) * 10 + s.last() - 48
    }
}

/// The decimal digit string of `n`, without leading zeros.
pub open spec fn dec_digits(n: nat) -> Seq<u8>
    decreases n,
{
    if n < 10 {
        seq![(48 + n) as u8]
    } else {
        dec_digits(n / 10) + seq![(48 + n % 10) as u8]
    }
}

/// Reading a non-empty, all-digit string below `u64::MAX` back as a
/// number; anything else reads as `None`.
pub open spec fn parse_u64(s: Seq<u8>) -> Option<u64> {
    if s.len() > 0 && all_digits(s) && digits_val(s) <= u64::MAX {
        Some(digits_val(s) as u64)
    } else {
        None
    }
}

/// Scans query pieces in order; the first piece of the shape
/// `name=value` with the given name decides the result, yielding its raw
/// (still encoded) value bytes.
pub open spec fn scan_raw(pieces: Seq<Seq<u8>>, name: Seq<u8>) -> Option<Seq<u8>>
    decreases pieces.len(),
{
    if pieces.len() == 0 {
        None
    } else {
        let kv = split_on(pieces.first(), EQS);
        if kv.len() == 2 && kv[0] == name {
            Some(kv[1])
        } else {
            scan_raw(pieces.drop_first(), name)
        }
    }
}

/// The raw value of the first query parameter with the given name,
/// provided the token has exactly one `?`.
pub open spec fn lookup_raw_param(s: Seq<u8>, name: Seq<u8>) -> Option<Seq<u8>> {
    let parts = split_on(s, QMARK);
    if parts.len() != 2 {
        None
    } else {
        scan_raw(split_on(parts[1], AMP), name)
    }
}

/// What a token's expiry decodes to: the value of its first
/// `X-Amz-Expires` parameter, read as decimal seconds.
pub open spec fn spec_decode_expiry(s: Seq<u8>) -> Option<u64> {
    match lookup_raw_param(s, expires_param_name()) {
        Some(v) => parse_u64(v),
        None => None,
    }
}

/// A split always yields at least one part.
pub proof fn lemma_split_len(s: Seq<u8>, sep: u8)
    ensures
        split_on(s, sep).len() >= 1,
    decreases s.len(),
{
    if s.len() > 0 {
        lemma_split_len(s.drop_first(), sep)
    }
}

/// A separator-free string splits into itself alone.
pub proof fn lemma_split_sep_free(s: Seq<u8>, sep: u8)
    requires
        sep_free(s, sep),
    ensures
        split_on(s, sep) == seq![s],
    decreases s.len(),
{
    if s.len() == 0 {
        assert(s =~= Seq::<u8>::empty());
        assert(split_on(s, sep) =~~= seq![s]);
    } else {
        lemma_split_sep_free(s.drop_first(), sep);
        lemma_split_len(s.drop_first(), sep);
        assert(split_on(s.drop_first(), sep).first() == s.drop_first());
        assert(seq![s.first()] + s.drop_first() =~= s);
        assert(split_on(s, sep) =~~= seq![s]);
    }
}

/// Splitting around the first separator: the separator-free part before
/// it becomes the first part.
pub proof fn lemma_split_concat(a: Seq<u8>, b: Seq<u8>, sep: u8)
    requires
        sep_free(a, sep),
    ensures
        split_on(a + seq![sep] + b, sep) == seq![a] + split_on(b, sep),
    decreases a.len(),
{
    let s = a + seq![sep] + b;
    if a.len() == 0 {
        assert(a =~= Seq::<u8>::empty());
        assert(s =~= seq![sep] + b);
        assert(s.first() == sep);
        assert(s.drop_first() =~= b);
        assert(split_on(s, sep) =~~= seq![a] + split_on(b, sep));
    } else {
        assert(s.first() == a.first());
        assert(s.first() != sep);
        assert(s.drop_first() =~= a.drop_first() + seq![sep] + b);
        lemma_split_concat(a.drop_first(), b, sep);
        let r = split_on(s.drop_first(), sep);
        assert(r == seq![a.drop_first()] + split_on(b, sep));
        assert(r.first() == a.drop_first());
        assert(seq![s.first()] + r.first() =~= a);
        assert(r.drop_first() =~= split_on(b, sep));
        assert(split_on(s, sep) =~~= seq![a] + split_on(b, sep));
    }
}

/// A string containing a separator splits into at least two parts.
pub proof fn lemma_split_contains(s: Seq<u8>, sep: u8)
    requires
        exists|i: int| 0 <= i < s.len() && s[i] == sep,
    ensures
        split_on(s, sep).len() >= 2,
    decreases s.len(),
{
    if s.first() == sep {
        lemma_split_len(s.drop_first(), sep);
    } else {
        let i = choose|i: int| 0 <= i < s.len() && s[i] == sep;
        assert(s.drop_first()[i - 1] == sep);
        lemma_split_contains(s.drop_first(), sep);
    }
}

/// The digit string of a number is non-empty, all digits, and reads back
/// to the number itself.
pub proof fn lemma_digits_roundtrip(n: nat)
    ensures
        dec_digits(n).len() > 0,
        all_digits(dec_digits(n)),
        digits_val(dec_digits(n)) == n,
    decreases n,
{
    if n < 10 {
        let s = dec_digits(n);
        assert(s.len() == 1);
        assert(s.last() == 48 + n);
        assert(s.drop_last() =~= Seq::<u8>::empty());
        assert(digits_val(Seq::<u8>::empty()) == 0);
        assert(digits_val(s) == n);
    } else {
        lemma_digits_roundtrip(n / 10);
        let s = dec_digits(n);
        let d = (48 + n % 10) as u8;
        assert(s =~= dec_digits(n / 10) + seq![d]);
        assert(s.drop_last() =~= dec_digits(n / 10));
        assert(s.last() == d);
        assert(digits_val(s) == (n / 10) * 10 + n % 10) by {
            assert(digits_val(s) == digits_val(dec_digits(n / 10)) * 10 + d - 48);
        }
        assert((n / 10) * 10 + n % 10 == n) by {
            vstd::arithmetic::div_mod::lemma_fundamental_div_mod(n as int, 10);
        }
        assert(forall|i: int| 0 <= i < s.len() ==> is_digit(#[trigger] s[i])) by {
            assert(forall|i: int|
                0 <= i < s.len() - 1 ==> s[i] == #[trigger] dec_digits(n / 10)[i]);
        }
    }
}

/// The value of a digit string never shrinks when digits are appended.
pub proof fn lemma_digits_val_prefix(s: Seq<u8>, i: int)
    requires
        all_digits(s),
        0 <= i <= s.len(),
    ensures
        digits_val(s.take(i)) >= 0,
        digits_val(s) >= digits_val(s.take(i)),
    decreases s.len() - i,
{
    lemma_digits_val_nonneg(s.take(i));
    if i < s.len() {
        lemma_digits_val_prefix(s, i + 1);
        assert(s.take(i + 1).drop_last() =~= s.take(i));
        assert(is_digit(s[i]));
        assert(digits_val(s.take(i + 1)) == digits_val(s.take(i)) * 10 + s.take(i + 1).last()
            - 48);
        lemma_digits_val_nonneg(s.take(i));
    } else {
        assert(s.take(i) =~= s);
    }
}

/// Unfolds the encoded parameters one pair from the right.
pub proof fn lemma_encoded_params_snoc(ps: Seq<(Seq<u8>, Seq<u8>)>)
    requires
        ps.len() > 0,
    ensures
        encoded_params(ps) == encoded_params(ps.drop_last()) + seq![AMP] + encoded_pair(ps.last()),
    decreases ps.len(),
{
    if ps.len() == 1 {
        assert(ps.drop_first() =~= Seq::<(Seq<u8>, Seq<u8>)>::empty());
        assert(ps.drop_last() =~= Seq::<(Seq<u8>, Seq<u8>)>::empty());
        assert(encoded_params(Seq::<(Seq<u8>, Seq<u8>)>::empty()) =~= Seq::<u8>::empty());
        assert(ps.first() == ps.last());
        assert(encoded_params(ps) =~= encoded_params(ps.drop_last()) + seq![AMP] + encoded_pair(
            ps.last(),
        ));
    } else {
        lemma_encoded_params_snoc(ps.drop_first());
        assert(ps.drop_first().drop_last() =~= ps.drop_last().drop_first());
        assert(ps.drop_first().last() == ps.last());
        assert(ps.drop_last().len() > 0);
        assert(ps.drop_last().first() == ps.first());
        assert(encoded_params(ps) =~= encoded_params(ps.drop_last()) + seq![AMP] + encoded_pair(
            ps.last(),
        ));
    }
}

/// Every byte of an encoded pair is `=` or encoded output; in particular
/// pairs are free of `&` and `?`.
pub proof fn lemma_encoded_pair_alphabet(p: (Seq<u8>, Seq<u8>))
    ensures
        forall|i: int|
            0 <= i < encoded_pair(p).len() ==> (#[trigger] encoded_pair(p)[i] == EQS
                || is_encoded_output(encoded_pair(p)[i])),
{
    lemma_form_encoded_alphabet(p.0);
    lemma_form_encoded_alphabet(p.1);
    let s = encoded_pair(p);
    let a = form_encoded(p.0);
    let b = form_encoded(p.1);
    assert(forall|i: int|
        0 <= i < s.len() ==> #[trigger] s[i] == if i < a.len() {
            a[i]
        } else if i == a.len() {
            EQS
        } else {
            b[i - a.len() - 1]
        });
}

/// Every byte of the encoded parameters is `&`, `=` or encoded output.
pub proof fn lemma_encoded_params_alphabet(ps: Seq<(Seq<u8>, Seq<u8>)>)
    ensures
        forall|i: int|
            0 <= i < encoded_params(ps).len() ==> (#[trigger] encoded_params(ps)[i] == AMP
                || encoded_params(ps)[i] == EQS || is_encoded_output(encoded_params(ps)[i])),
    decreases ps.len(),
{
    if ps.len() > 0 {
        lemma_encoded_pair_alphabet(ps.first());
        lemma_encoded_params_alphabet(ps.drop_first());
        let s = encoded_params(ps);
        let a = encoded_pair(ps.first());
        let b = encoded_params(ps.drop_first());
        assert(forall|i: int|
            0 <= i < s.len() ==> #[trigger] s[i] == if i == 0 {
                AMP
            } else if i <= a.len() {
                a[i - 1]
            } else {
                b[i - a.len() - 1]
            });
    }
}

/// Splitting the query on `&`: the leading pair stays first, and each
/// signing parameter becomes one piece.
pub proof fn lemma_split_query(x: Seq<u8>, ps: Seq<(Seq<u8>, Seq<u8>)>)
    requires
        sep_free(x, AMP),
    ensures
        split_on(x + encoded_params(ps), AMP) == seq![x] + ps.map_values(
            |p: (Seq<u8>, Seq<u8>)| encoded_pair(p),
        ),
    decreases ps.len(),
{
    let f = |p: (Seq<u8>, Seq<u8>)| encoded_pair(p);
    if ps.len() == 0 {
        assert(x + encoded_params(ps) =~= x);
        lemma_split_sep_free(x, AMP);
        assert(split_on(x + encoded_params(ps), AMP) =~~= seq![x] + ps.map_values(f));
    } else {
        let head = encoded_pair(ps.first());
        let rest = encoded_params(ps.drop_first());
        assert(x + encoded_params(ps) =~= x + seq![AMP] + (head + rest));
        lemma_split_concat(x, head + rest, AMP);
        assert(sep_free(head, AMP)) by {
            lemma_encoded_pair_alphabet(ps.first());
        }
        lemma_split_query(head, ps.drop_first());
        assert(split_on(x + encoded_params(ps), AMP) == seq![x] + (seq![head]
            + ps.drop_first().map_values(f)));
        assert(seq![x] + (seq![head] + ps.drop_first().map_values(f)) =~~= seq![x]
            + ps.map_values(f));
    }
}

/// The name of an encoded pair matches a plain, unreserved name exactly
/// when the pair's own name is that name.
pub proof fn lemma_encoded_name_match(n: Seq<u8>, name: Seq<u8>)
    requires
        forall|i: int| 0 <= i < name.len() ==> is_unreserved(#[trigger] name[i]),
    ensures
        form_encoded(n) == name <==> n == name,
{
    if n == name {
        lemma_form_encoded_identity(name);
    }
    if form_encoded(n) == name {
        lemma_form_encoded_unreserved_source(n);
    }
}

/// Every byte of `X-Amz-Expires` is unreserved.
pub proof fn lemma_expires_name_unreserved()
    ensures
        forall|i: int|
            0 <= i < expires_param_name().len() ==> is_unreserved(
                #[trigger] expires_param_name()[i],
            ),
{
}

/// Scanning the encoded signing parameters finds a named value: if some
/// parameter carries `name` and every parameter so named carries
/// `value`, the scan yields the encoded value.
pub proof fn lemma_scan_raw_value(ps: Seq<(Seq<u8>, Seq<u8>)>, name: Seq<u8>, value: Seq<u8>)
    requires
        forall|i: int| 0 <= i < name.len() ==> is_unreserved(#[trigger] name[i]),
        exists|i: int| 0 <= i < ps.len() && #[trigger] ps[i].0 == name && ps[i].1 == value,
        forall|i: int| 0 <= i < ps.len() && #[trigger] ps[i].0 == name ==> ps[i].1 == value,
    ensures
        scan_raw(ps.map_values(|p: (Seq<u8>, Seq<u8>)| encoded_pair(p)), name) == Some(
            form_encoded(value),
        ),
    decreases ps.len(),
{
    let f = |p: (Seq<u8>, Seq<u8>)| encoded_pair(p);
    let pieces = ps.map_values(f);
    let p = ps.first();
    assert(pieces.first() == encoded_pair(p));
    let kv = lemma_encoded_pair_split(p);
    lemma_encoded_name_match(p.0, name);
    if p.0 == name {
        assert(kv[1] == form_encoded(value));
    } else {
        assert(kv[0] != name);
        let w = choose|i: int| 0 <= i < ps.len() && #[trigger] ps[i].0 == name && ps[i].1 == value;
        assert(w >= 1);
        assert(ps.drop_first()[w - 1].0 == name && ps.drop_first()[w - 1].1 == value);
        lemma_scan_raw_value(ps.drop_first(), name, value);
        assert(pieces.drop_first() =~~= ps.drop_first().map_values(f));
        assert(scan_raw(pieces, name) == scan_raw(pieces.drop_first(), name));
    }
}

/// Scanning the encoded signing parameters finds some value whenever a
/// parameter carries the name.
pub proof fn lemma_scan_raw_present(ps: Seq<(Seq<u8>, Seq<u8>)>, name: Seq<u8>)
    requires
        forall|i: int| 0 <= i < name.len() ==> is_unreserved(#[trigger] name[i]),
        exists|i: int| 0 <= i < ps.len() && #[trigger] ps[i].0 == name,
    ensures
        scan_raw(ps.map_values(|p: (Seq<u8>, Seq<u8>)| encoded_pair(p)), name) is Some,
    decreases ps.len(),
{
    let f = |p: (Seq<u8>, Seq<u8>)| encoded_pair(p);
    let pieces = ps.map_values(f);
    let p = ps.first();
    assert(pieces.first() == encoded_pair(p));
    let kv = lemma_encoded_pair_split(p);
    lemma_encoded_name_match(p.0, name);
    if p.0 != name {
        assert(kv[0] != name);
        let w = choose|i: int| 0 <= i < ps.len() && #[trigger] ps[i].0 == name;
        assert(w >= 1);
        assert(ps.drop_first()[w - 1].0 == name);
        lemma_scan_raw_present(ps.drop_first(), name);
        assert(pieces.drop_first() =~~= ps.drop_first().map_values(f));
        assert(scan_raw(pieces, name) == scan_raw(pieces.drop_first(), name));
    }
}

/// An encoded pair splits on `=` into its encoded name and value.
proof fn lemma_encoded_pair_split(p: (Seq<u8>, Seq<u8>)) -> (kv: Seq<Seq<u8>>)
    ensures
        kv == split_on(encoded_pair(p), EQS),
        kv == seq![form_encoded(p.0), form_encoded(p.1)],
{
    let a = form_encoded(p.0);
    let b = form_encoded(p.1);
    assert(sep_free(a, EQS) && sep_free(b, EQS)) by {
        lemma_form_encoded_alphabet(p.0);
        lemma_form_encoded_alphabet(p.1);
    }
    lemma_split_concat(a, b, EQS);
    lemma_split_sep_free(b, EQS);
    let kv = split_on(encoded_pair(p), EQS);
    assert(kv =~~= seq![a, b]);
    kv
}

/// How an assembled token splits: exactly one `?`, behind it the fixed
/// action pair and then each signing parameter as one piece, and the
/// action pair's name is `Action`.
proof fn lemma_token_query_pieces(host: Seq<u8>, ps: Seq<(Seq<u8>, Seq<u8>)>)
    requires
        host.len() > 0,
        forall|i: int| 0 <= i < host.len() ==> crate::auth::is_host_byte(#[trigger] host[i]),
    ensures
        split_on(token_bytes(host, ps), QMARK).len() == 2,
        split_on(token_bytes(host, ps), QMARK)[1] == action_query() + encoded_params(ps),
        split_on(action_query() + encoded_params(ps), AMP) == seq![action_query()]
            + ps.map_values(|p: (Seq<u8>, Seq<u8>)| encoded_pair(p)),
        split_on(action_query(), EQS).len() == 2,
        split_on(action_query(), EQS)[0] == seq![65u8, 99, 116, 105, 111, 110],
{
    let pre = host + seq![47u8];
    let query = action_query() + encoded_params(ps);
    assert(token_bytes(host, ps) =~= pre + seq![QMARK] + query);
    assert(sep_free(pre, QMARK));
    assert(sep_free(query, QMARK)) by {
        lemma_encoded_params_alphabet(ps);
        assert(forall|i: int|
            0 <= i < query.len() ==> #[trigger] query[i] == if i < action_query().len() {
                action_query()[i]
            } else {
                encoded_params(ps)[i - action_query().len()]
            });
    }
    lemma_split_concat(pre, query, QMARK);
    lemma_split_sep_free(query, QMARK);
    let parts = split_on(token_bytes(host, ps), QMARK);
    assert(parts =~~= seq![pre, query]);
    assert(sep_free(action_query(), AMP));
    lemma_split_query(action_query(), ps);
    let an = seq![65u8, 99, 116, 105, 111, 110];
    let av = seq![68u8, 98, 67, 111, 110, 110, 101, 99, 116, 83, 117, 112, 101, 114, 117, 115, 101, 114];
    assert(action_query() =~= an + seq![EQS] + av);
    assert(sep_free(an, EQS));
    assert(sep_free(av, EQS));
    lemma_split_concat(an, av, EQS);
    lemma_split_sep_free(av, EQS);
    assert(split_on(action_query(), EQS) =~~= seq![an, av]);
}

/// Decoding a freshly assembled token recovers its expiry: the token of
/// a well-formed host and signing parameters that carry the decimal
/// digits of `e` under the `X-Amz-Expires` name decodes to `e`.
pub proof fn lemma_token_expiry_decodes(host: Seq<u8>, ps: Seq<(Seq<u8>, Seq<u8>)>, e: u64)
    requires
        host.len() > 0,
        forall|i: int| 0 <= i < host.len() ==> crate::auth::is_host_byte(#[trigger] host[i]),
        exists|i: int|
            0 <= i < ps.len() && #[trigger] ps[i].0 == expires_param_name() && ps[i].1
                == dec_digits(e as nat),
        forall|i: int|
            0 <= i < ps.len() && #[trigger] ps[i].0 == expires_param_name() ==> ps[i].1
                == dec_digits(e as nat),
    ensures
        spec_decode_expiry(token_bytes(host, ps)) == Some(e),
{
    lemma_token_query_pieces(host, ps);
    let f = |p: (Seq<u8>, Seq<u8>)| encoded_pair(p);
    let pieces = seq![action_query()] + ps.map_values(f);
    assert(split_on(action_query(), EQS)[0] != expires_param_name());
    lemma_expires_name_unreserved();
    lemma_digits_roundtrip(e as nat);
    lemma_scan_raw_value(ps, expires_param_name(), dec_digits(e as nat));
    assert(pieces.drop_first() =~~= ps.map_values(f));
    assert(scan_raw(pieces, expires_param_name()) == Some(form_encoded(dec_digits(e as nat))));
    assert(forall|i: int|
        0 <= i < dec_digits(e as nat).len() ==> is_unreserved(#[trigger] dec_digits(e as nat)[i]));
    lemma_form_encoded_identity(dec_digits(e as nat));
    assert(parse_u64(dec_digits(e as nat)) == Some(e));
}

/// A token carries every signing parameter it was assembled from: if
/// some parameter bears the (unreserved) name, looking the name up in
/// the token finds a value.
pub proof fn lemma_token_param_present(host: Seq<u8>, ps: Seq<(Seq<u8>, Seq<u8>)>, name: Seq<u8>)
    requires
        host.len() > 0,
        forall|i: int| 0 <= i < host.len() ==> crate::auth::is_host_byte(#[trigger] host[i]),
        forall|i: int| 0 <= i < name.len() ==> is_unreserved(#[trigger] name[i]),
        exists|i: int| 0 <= i < ps.len() && #[trigger] ps[i].0 == name,
    ensures
        lookup_raw_param(token_bytes(host, ps), name) is Some,
{
    lemma_token_query_pieces(host, ps);
    let f = |p: (Seq<u8>, Seq<u8>)| encoded_pair(p);
    let pieces = seq![action_query()] + ps.map_values(f);
    assert(pieces.drop_first() =~~= ps.map_values(f));
    if split_on(action_query(), EQS)[0] != name {
        lemma_scan_raw_present(ps, name);
        assert(scan_raw(pieces, name) == scan_raw(pieces.drop_first(), name));
    }
}

/// A digit string denotes a non-negative number.
pub proof fn lemma_digits_val_nonneg(s: Seq<u8>)
    requires
        all_digits(s),
    ensures
        digits_val(s) >= 0,
    decreases s.len(),
{
    if s.len() > 0 {
        assert(all_digits(s.drop_last())) by {
            assert(forall|i: int|
                0 <= i < s.len() - 1 ==> s.drop_last()[i] == #[trigger] s[i]);
        }
        lemma_digits_val_nonneg(s.drop_last());
        assert(is_digit(s.last()));
    }
}

/// Finds the first occurrence of `b` in `v[from..to]`.
fn find_byte(v: &Vec<u8>, from: usize, to: usize, b: u8) -> (r: Option<usize>)
    requires
        from <= to && to <= v.len(),
    ensures
        match r {
            Some(j) => from <= j < to && v@[j as int] == b && (forall|k: int|
                from <= k < j ==> v@[k] != b),
            None => forall|k: int| from <= k < to ==> v@[k] != b,
        },
{
    let mut i: usize = from;
    while i < to
        invariant
            from <= i <= to && to <= v.len(),
            forall|k: int| from <= k < i ==> v@[k] != b,
        decreases to - i,
    {
        if v[i] == b {
            return Some(i);
        }
        i = i + 1;
    }
    None
}

/// Copies `v[from..to]` out.
fn subvec(v: &Vec<u8>, from: usize, to: usize) -> (r: Vec<u8>)
    requires
        from <= to && to <= v.len(),
    ensures
        r@ == v@.subrange(from as int, to as int),
{
    let mut r: Vec<u8> = Vec::new();
    let mut i: usize = from;
    while i < to
        invariant
            from <= i <= to && to <= v.len(),
            r@ =~= v@.subrange(from as int, i as int),
        decreases to - i,
    {
        r.push(v[i]);
        assert(r@ =~= v@.subrange(from as int, i + 1));
        i = i + 1;
    }
    r
}

/// Compares two byte strings.
fn bytes_equal(a: &Vec<u8>, b: &Vec<u8>) -> (r: bool)
    ensures
        r == (a@ == b@),
{
    if a.len() != b.len() {
        return false;
    }
    let mut i: usize = 0;
    while i < a.len()
        invariant
            i <= a.len() && a.len() == b.len(),
            forall|k: int| 0 <= k < i ==> a@[k] == b@[k],
        decreases a.len() - i,
    {
        if a[i] != b[i] {
            return false;
        }
        i = i + 1;
    }
    assert(a@ =~= b@);
    true
}

/// The bytes of `X-Amz-Expires`.
fn expires_name_vec() -> (r: Vec<u8>)
    ensures
        r@ == expires_param_name(),
{
    let r: Vec<u8> = vec![88, 45, 65, 109, 122, 45, 69, 120, 112, 105, 114, 101, 115];
    proof {
        assert(r@ =~= expires_param_name());
    }
    r
}

/// Reads a decimal `u64`, exactly as [`parse_u64`] describes.
pub fn parse_u64_digits(v: &Vec<u8>) -> (r: Option<u64>)
    ensures
        r == parse_u64(v@),
{
    if v.len() == 0 {
        return None;
    }
    let mut acc: u64 = 0;
    let mut i: usize = 0;
    while i < v.len()
        invariant
            i <= v.len(),
            v.len() > 0,
            all_digits(v@.take(i as int)),
            acc == digits_val(v@.take(i as int)),
        decreases v.len() - i,
    {
        let b = v[i];
        if b < 48 || b > 57 {
            assert(!is_digit(v@[i as int]));
            return None;
        }
        let d = (b - 48) as u64;
        proof {
            assert(v@.take(i + 1).drop_last() =~= v@.take(i as int));
            assert(v@.take(i + 1).last() == v@[i as int]);
            assert(digits_val(v@.take(i + 1)) == digits_val(v@.take(i as int)) * 10 + d);
        }
        if acc > (u64::MAX - d) / 10 {
            proof {
                vstd::arithmetic::div_mod::lemma_fundamental_div_mod(
                    (u64::MAX - d) as int,
                    10,
                );
                assert(acc * 10 + d > u64::MAX) by (nonlinear_arith)
                    requires
                        acc > ((u64::MAX - d) as int) / 10,
                        0 <= d < 10,
                        (u64::MAX - d) as int == 10 * (((u64::MAX - d) as int) / 10) + (
                        (u64::MAX - d) as int) % 10,
                        0 <= ((u64::MAX - d) as int) % 10 < 10,
                ;
                if all_digits(v@) {
                    lemma_digits_val_prefix(v@, i + 1);
                    assert(digits_val(v@) > u64::MAX);
                }
            }
            return None;
        }
        proof {
            vstd::arithmetic::div_mod::lemma_fundamental_div_mod((u64::MAX - d) as int, 10);
            assert(acc * 10 + d <= u64::MAX) by (nonlinear_arith)
                requires
                    acc <= ((u64::MAX - d) as int) / 10,
                    0 <= d < 10,
                    acc >= 0,
                    (u64::MAX - d) as int == 10 * (((u64::MAX - d) as int) / 10) + ((u64::MAX
                        - d) as int) % 10,
                    0 <= ((u64::MAX - d) as int) % 10 < 10,
            ;
        }
        acc = acc * 10 + d;
        i = i + 1;
    }
    assert(v@.take(v@.len() as int) =~= v@);
    Some(acc)
}

/// Decodes the expiry parameter of a token given as bytes, exactly as
/// [`spec_decode_expiry`] describes.
pub fn decode_expiry_bytes(v: &Vec<u8>) -> (r: Option<u64>)
    ensures
        r == spec_decode_expiry(v@),
{
    let n = v.len();
    let qi = match find_byte(v, 0, n, QMARK) {
        None => {
            proof {
                lemma_split_sep_free(v@, QMARK);
            }
            return None;
        },
        Some(qi) => qi,
    };
    proof {
        assert(v@ =~= v@.subrange(0, qi as int) + seq![QMARK] + v@.subrange(qi + 1, n as int));
        lemma_split_concat(v@.subrange(0, qi as int), v@.subrange(qi + 1, n as int), QMARK);
    }
    if let Some(q2) = find_byte(v, qi + 1, n, QMARK) {
        proof {
            assert(v@.subrange(qi + 1, n as int)[q2 - qi - 1] == QMARK);
            lemma_split_contains(v@.subrange(qi + 1, n as int), QMARK);
        }
        return None;
    }
    proof {
        lemma_split_sep_free(v@.subrange(qi + 1, n as int), QMARK);
        assert(split_on(v@, QMARK).len() == 2);
        assert(split_on(v@, QMARK)[1] == v@.subrange(qi + 1, n as int));
    }
    let expires = expires_name_vec();
    let mut i: usize = qi + 1;
    loop
        invariant
            qi + 1 <= i <= n && n == v.len(),
            expires@ == expires_param_name(),
            spec_decode_expiry(v@) == (match scan_raw(
                split_on(v@.subrange(i as int, n as int), AMP),
                expires_param_name(),
            ) {
                Some(val) => parse_u64(val),
                None => None,
            }),
        decreases n - i,
    {
        let piece_end = match find_byte(v, i, n, AMP) {
            Some(j) => j,
            None => n,
        };
        proof {
            let rem = v@.subrange(i as int, n as int);
            let piece = v@.subrange(i as int, piece_end as int);
            if piece_end < n {
                assert(rem =~= piece + seq![AMP] + v@.subrange(piece_end + 1, n as int));
                lemma_split_concat(piece, v@.subrange(piece_end + 1, n as int), AMP);
            } else {
                assert(rem =~= piece);
                lemma_split_sep_free(piece, AMP);
            }
        }
        let matched = scan_piece(v, i, piece_end, &expires);
        match matched {
            PieceOutcome::Found(value) => {
                return parse_u64_digits(&value);
            },
            PieceOutcome::Skip => {
                proof {
                    let piece = v@.subrange(i as int, piece_end as int);
                    if piece_end < n {
                        let rest = split_on(v@.subrange(piece_end + 1, n as int), AMP);
                        assert((seq![piece] + rest).drop_first() =~~= rest);
                    } else {
                        assert(scan_raw(seq![piece].drop_first(), expires_param_name()) is None);
                    }
                }
                if piece_end == n {
                    return None;
                }
                i = piece_end + 1;
            },
        }
    }
}

/// Decodes the expiry parameter a token carries: the value of its first
/// `X-Amz-Expires` query parameter, read as decimal seconds.
pub fn decode_expiry(token: &str) -> (r: Option<u64>)
    ensures
        r == spec_decode_expiry(encode_utf8(token@)),
{
    let bs = token.as_bytes_vec();
    decode_expiry_bytes(&bs)
}

/// What scanning one query piece yields.
enum PieceOutcome {
    /// The piece is `X-Amz-Expires=value`; its raw value bytes.
    Found(Vec<u8>),
    /// The piece has another name or is not a single `name=value` pair.
    Skip,
}

/// Scans the piece `v[from..to]` for the shape `X-Amz-Expires=value`.
fn scan_piece(v: &Vec<u8>, from: usize, to: usize, expires: &Vec<u8>) -> (r: PieceOutcome)
    requires
        from <= to && to <= v.len(),
        expires@ == expires_param_name(),
    ensures
        ({
            let kv = split_on(v@.subrange(from as int, to as int), EQS);
            match r {
                PieceOutcome::Found(value) => kv.len() == 2 && kv[0] == expires_param_name()
                    && value@ == kv[1],
                PieceOutcome::Skip => !(kv.len() == 2 && kv[0] == expires_param_name()),
            }
        }),
{
    let piece_len = to - from;
    let ei = match find_byte(v, from, to, EQS) {
        None => {
            proof {
                lemma_split_sep_free(v@.subrange(from as int, to as int), EQS);
            }
            return PieceOutcome::Skip;
        },
        Some(ei) => ei,
    };
    proof {
        assert(v@.subrange(from as int, to as int) =~= v@.subrange(from as int, ei as int)
            + seq![EQS] + v@.subrange(ei + 1, to as int));
        lemma_split_concat(v@.subrange(from as int, ei as int), v@.subrange(ei + 1, to as int), EQS);
    }
    if let Some(e2) = find_byte(v, ei + 1, to, EQS) {
        proof {
            assert(v@.subrange(ei + 1, to as int)[e2 - ei - 1] == EQS);
            lemma_split_contains(v@.subrange(ei + 1, to as int), EQS);
        }
        return PieceOutcome::Skip;
    }
    proof {
        lemma_split_sep_free(v@.subrange(ei + 1, to as int), EQS);
    }
    let name = subvec(v, from, ei);
    if bytes_equal(&name, expires) {
        let value = subvec(v, ei + 1, to);
        PieceOutcome::Found(value)
    } else {
        PieceOutcome::Skip
    }
}

} // verus!
