use dsql_auth::auth::DEFAULT_EXPIRY_SECS;
use dsql_auth::decode_expiry;
use dsql_auth::generate_db_auth_token;
use dsql_auth::AuthError;
use dsql_auth::Credentials;
use dsql_auth::SigningRequest;

fn sample_credentials() -> Credentials {
    Credentials::new(
        String::from("SECRET-REDACTED"),
        String::from("wJalrXUtnFEMI/K7MDENG/bPxRfiCYEXAMPLEKEY"),
        None,
    )
}

fn sample_request(expiry: Option<u64>) -> SigningRequest {
    SigningRequest::new(
        String::from("example-cluster.dsql.us-east-1.on.aws"),
        String::from("us-east-1"),
        expiry,
    )
}

#[test]
fn mint_token_has_no_scheme_and_is_nonempty() {
    let creds = sample_credentials();
    let token = generate_db_auth_token(&sample_request(None), Some(&creds), 1_700_000_000)
        .expect("minting with valid inputs succeeds");
    assert!(!token.is_empty());
    assert!(!token.starts_with("https://"));
    assert!(!token.starts_with("http://"));
    assert!(token.starts_with("example-cluster.dsql.us-east-1.on.aws/?Action=DbConnectSuperuser"));
    assert!(token.contains("X-Amz-Signature="));
}

#[test]
fn default_expiry_is_900_seconds() {
    let request = sample_request(None);
    assert_eq!(request.expiry_secs, 900);
    assert_eq!(DEFAULT_EXPIRY_SECS, 900);
    let creds = sample_credentials();
    let token = generate_db_auth_token(&request, Some(&creds), 1_700_000_000).unwrap();
    assert_eq!(decode_expiry(&token), Some(900));
}

#[test]
fn minted_token_decodes_to_its_expiry() {
    let creds = sample_credentials();
    let token = generate_db_auth_token(&sample_request(Some(1234)), Some(&creds), 1_700_000_000)
        .unwrap();
    assert_eq!(decode_expiry(&token), Some(1234));
    assert!(token.contains("X-Amz-Expires=1234"));
}

#[test]
fn session_token_is_carried_and_expiry_still_decodes() {
    let creds = Credentials::new(
        String::from("SECRET-REDACTED"),
        String::from("wJalrXUtnFEMI/K7MDENG/bPxRfiCYEXAMPLEKEY"),
        Some(String::from("AQoDYXdzEJr...<remainder of security token>")),
    );
    let token = generate_db_auth_token(&sample_request(None), Some(&creds), 1_700_000_000)
        .unwrap();
    assert!(token.contains("X-Amz-Security-Token="));
    assert_eq!(decode_expiry(&token), Some(900));
}

#[test]
fn missing_credentials_fail_as_unavailable() {
    let r = generate_db_auth_token(&sample_request(None), None, 1_700_000_000);
    assert_eq!(r, Err(AuthError::CredentialUnavailable));
}

#[test]
fn empty_region_is_a_signing_error() {
    let creds = sample_credentials();
    let request = SigningRequest::new(
        String::from("example-cluster.dsql.us-east-1.on.aws"),
        String::new(),
        None,
    );
    let r = generate_db_auth_token(&request, Some(&creds), 1_700_000_000);
    assert_eq!(r, Err(AuthError::SigningError));
}

#[test]
fn empty_host_is_a_signing_error() {
    let creds = sample_credentials();
    let request = SigningRequest::new(String::new(), String::from("us-east-1"), None);
    let r = generate_db_auth_token(&request, Some(&creds), 1_700_000_000);
    assert_eq!(r, Err(AuthError::SigningError));
}

#[test]
fn uppercase_host_is_accepted_and_folded() {
    let creds = sample_credentials();
    let request = SigningRequest::new(
        String::from("Example-Cluster.DSQL.us-east-1.on.AWS"),
        String::from("us-east-1"),
        None,
    );
    let token = generate_db_auth_token(&request, Some(&creds), 1_700_000_000).unwrap();
    assert!(token.starts_with("example-cluster.dsql.us-east-1.on.aws/?Action=DbConnectSuperuser"));
    assert_eq!(decode_expiry(&token), Some(900));
}

#[test]
fn underscore_host_is_accepted() {
    let creds = sample_credentials();
    let request = SigningRequest::new(
        String::from("local_test.on.aws"),
        String::from("us-east-1"),
        None,
    );
    let token = generate_db_auth_token(&request, Some(&creds), 1_700_000_000).unwrap();
    assert!(token.starts_with("local_test.on.aws/?Action=DbConnectSuperuser"));
}

#[test]
fn minted_token_carries_the_signing_parameters() {
    let creds = sample_credentials();
    let token = generate_db_auth_token(&sample_request(None), Some(&creds), 1_700_000_000)
        .unwrap();
    assert!(token.contains("X-Amz-Algorithm="));
    assert!(token.contains("X-Amz-Credential="));
    assert!(token.contains("X-Amz-Date="));
    assert!(token.contains("X-Amz-SignedHeaders="));
    assert!(token.contains("X-Amz-Signature="));
    assert!(!token.contains("X-Amz-Security-Token="));
}

#[test]
fn host_with_separators_is_a_signing_error() {
    let creds = sample_credentials();
    for host in ["https://example.on.aws", "example.on.aws/path", "example.on.aws:5432", "a b"] {
        let request = SigningRequest::new(String::from(host), String::from("us-east-1"), None);
        let r = generate_db_auth_token(&request, Some(&creds), 1_700_000_000);
        assert_eq!(r, Err(AuthError::SigningError));
    }
}

#[test]
fn host_length_is_capped_at_the_dns_limit() {
    let creds = sample_credentials();
    let at_limit = "a".repeat(255);
    let request = SigningRequest::new(at_limit.clone(), String::from("us-east-1"), None);
    let token = generate_db_auth_token(&request, Some(&creds), 1_700_000_000).unwrap();
    assert!(token.starts_with(&at_limit));

    let over_limit = "a".repeat(256);
    let request = SigningRequest::new(over_limit, String::from("us-east-1"), None);
    let r = generate_db_auth_token(&request, Some(&creds), 1_700_000_000);
    assert_eq!(r, Err(AuthError::SigningError));
}

#[test]
fn reprefixing_the_scheme_yields_a_parseable_url() {
    let creds = sample_credentials();
    let token = generate_db_auth_token(&sample_request(None), Some(&creds), 1_700_000_000)
        .unwrap();
    let url = url::Url::parse(&format!("https://{token}")).expect("the token is a URL minus its scheme");
    assert_eq!(url.host_str(), Some("example-cluster.dsql.us-east-1.on.aws"));
    assert_eq!(url.path(), "/");
    assert!(url.query().is_some());
}

#[test]
fn zero_expiry_is_a_signing_error() {
    let creds = sample_credentials();
    let r = generate_db_auth_token(&sample_request(Some(0)), Some(&creds), 1_700_000_000);
    assert_eq!(r, Err(AuthError::SigningError));
}

#[test]
fn same_inputs_at_same_instant_mint_the_same_token() {
    let creds = sample_credentials();
    let request = sample_request(None);
    let t1 = generate_db_auth_token(&request, Some(&creds), 1_700_000_000).unwrap();
    let t2 = generate_db_auth_token(&request, Some(&creds), 1_700_000_000).unwrap();
    assert_eq!(t1, t2);
    assert_eq!(decode_expiry(&t1), Some(900));
    assert_eq!(decode_expiry(&t2), Some(900));
}

#[test]
fn rapid_mints_are_each_independently_decodable() {
    let creds = sample_credentials();
    let request = sample_request(None);
    let t1 = generate_db_auth_token(&request, Some(&creds), 1_700_000_000).unwrap();
    let t2 = generate_db_auth_token(&request, Some(&creds), 1_700_000_001).unwrap();
    assert_eq!(decode_expiry(&t1), Some(900));
    assert_eq!(decode_expiry(&t2), Some(900));
    assert!(!t1.is_empty() && !t2.is_empty());
}
