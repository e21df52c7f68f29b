use dsql_auth::decode_expiry;
use dsql_auth::encode::append_encoded;

fn encoded(input: &str) -> String {
    let mut out: Vec<u8> = Vec::new();
    let bytes: Vec<u8> = input.as_bytes().to_vec();
    append_encoded(&mut out, &bytes);
    String::from_utf8(out).unwrap()
}

#[test]
fn encoding_matches_the_form_urlencoded_reference() {
    let samples = [
        "",
        "abc",
        "hello world",
        "a/b&c=d?e#f",
        "X-Amz-Credential",
        "AKIA/20240101/us-east-1/xanadu/aws4_request",
        "100%",
        "*-._ ~!@#$^&()+",
        "h\u{e9}llo w\u{f6}rld \u{2603}",
    ];
    for sample in samples {
        let reference: String =
            url::form_urlencoded::byte_serialize(sample.as_bytes()).collect();
        assert_eq!(encoded(sample), reference, "encoding of {sample:?}");
    }
}

#[test]
fn encoding_keeps_unreserved_bytes() {
    let s = "abcXYZ019*-._";
    assert_eq!(encoded(s), s);
}

#[test]
fn encoding_escapes_with_uppercase_hex() {
    assert_eq!(encoded("/"), "%2F");
    assert_eq!(encoded("="), "%3D");
    assert_eq!(encoded("&"), "%26");
    assert_eq!(encoded(" "), "+");
}

#[test]
fn decode_expiry_needs_a_query() {
    assert_eq!(decode_expiry("example.on.aws"), None);
    assert_eq!(decode_expiry(""), None);
}

#[test]
fn decode_expiry_needs_the_expires_parameter() {
    assert_eq!(decode_expiry("example.on.aws/?Action=DbConnectSuperuser"), None);
    assert_eq!(decode_expiry("example.on.aws/?Action=DbConnectSuperuser&X-Amz-Date=20240101"), None);
}

#[test]
fn decode_expiry_reads_the_first_expires_parameter() {
    assert_eq!(
        decode_expiry("example.on.aws/?Action=DbConnectSuperuser&X-Amz-Expires=900&X-Amz-Date=x"),
        Some(900),
    );
    assert_eq!(
        decode_expiry("h/?X-Amz-Expires=1&X-Amz-Expires=2"),
        Some(1),
    );
}

#[test]
fn decode_expiry_rejects_malformed_values() {
    assert_eq!(decode_expiry("h/?X-Amz-Expires="), None);
    assert_eq!(decode_expiry("h/?X-Amz-Expires=12a"), None);
    assert_eq!(decode_expiry("h/?X-Amz-Expires=18446744073709551615"), Some(u64::MAX));
    assert_eq!(decode_expiry("h/?X-Amz-Expires=18446744073709551616"), None);
    assert_eq!(decode_expiry("h/?a?b&X-Amz-Expires=1"), None);
}
