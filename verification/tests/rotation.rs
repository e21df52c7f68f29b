use dsql_auth::decode_expiry;
use dsql_auth::generate_db_auth_token;
use dsql_auth::AuthError;
use dsql_auth::Credentials;
use dsql_auth::RotationConfig;
use dsql_auth::RotationState;
use dsql_auth::SigningRequest;
use dsql_auth::TickOutcome;

fn sample_credentials() -> Credentials {
    Credentials::new(
        String::from("SECRET-REDACTED"),
        String::from("wJalrXUtnFEMI/K7MDENG/bPxRfiCYEXAMPLEKEY"),
        None,
    )
}

fn sample_request() -> SigningRequest {
    SigningRequest::new(
        String::from("example-cluster.dsql.us-east-1.on.aws"),
        String::from("us-east-1"),
        Some(900),
    )
}

#[test]
fn config_requires_refresh_strictly_below_expiry() {
    assert!(RotationConfig::new(600, 900).is_some());
    assert!(RotationConfig::new(899, 900).is_some());
    assert!(RotationConfig::new(900, 900).is_none());
    assert!(RotationConfig::new(901, 900).is_none());
    assert!(RotationConfig::new(0, 900).is_none());
    assert!(RotationConfig::new(0, 0).is_none());
}

#[test]
fn three_ticks_keep_the_slot_fresh() {
    let config = RotationConfig::new(600, 900).expect("a valid configuration");
    let mut state = RotationState::new(config);
    let creds = sample_credentials();
    let request = sample_request();
    let start: u64 = 1_700_000_000;

    // The first connection request mints the initial token.
    let first = generate_db_auth_token(&request, Some(&creds), start).unwrap();
    state.apply_tick(Ok(first), start);

    // Three rotation ticks, one refresh interval apart.
    let mut refreshes: u32 = 0;
    let mut previous_token = state.slot.as_ref().unwrap().token.clone();
    for tick in 1..=3u64 {
        let now = start + tick * 600;
        // Just before the tick the installed token is younger than its
        // expiry.
        let minted_at = state.slot.as_ref().unwrap().minted_at_secs;
        assert!(now - minted_at <= 900);
        let mint = generate_db_auth_token(&request, Some(&creds), now);
        let outcome = state.apply_tick(mint, now);
        assert_eq!(outcome, TickOutcome::Refreshed);
        refreshes += 1;
        let slot = state.slot.as_ref().unwrap();
        assert_eq!(slot.minted_at_secs, now);
        // The slot really was updated: the fresh token differs from the
        // previous one, since the signing instant moved.
        assert_ne!(slot.token, previous_token);
        previous_token = slot.token.clone();
        assert_eq!(decode_expiry(&slot.token), Some(900));
    }
    assert!(refreshes >= 2);
}

#[test]
fn failed_tick_retains_previous_token_and_rotation_resumes() {
    let config = RotationConfig::new(600, 900).expect("a valid configuration");
    let mut state = RotationState::new(config);
    let creds = sample_credentials();
    let request = sample_request();
    let start: u64 = 1_700_000_000;

    // Tick 1 succeeds.
    let t1 = start + 600;
    let mint1 = generate_db_auth_token(&request, Some(&creds), t1);
    assert_eq!(state.apply_tick(mint1, t1), TickOutcome::Refreshed);
    let tick1_token = state.slot.as_ref().unwrap().token.clone();

    // Tick 2: the credential source fails; the mint fails, the slot
    // keeps tick 1's token, and nothing aborts.
    let t2 = start + 1200;
    let mint2 = generate_db_auth_token(&request, None, t2);
    assert_eq!(mint2, Err(AuthError::CredentialUnavailable));
    assert_eq!(state.apply_tick(mint2, t2), TickOutcome::TickFailed);
    assert_eq!(state.slot.as_ref().unwrap().token, tick1_token);
    assert_eq!(state.slot.as_ref().unwrap().minted_at_secs, t1);

    // Tick 3 resumes normally.
    let t3 = start + 1800;
    let mint3 = generate_db_auth_token(&request, Some(&creds), t3);
    assert_eq!(state.apply_tick(mint3, t3), TickOutcome::Refreshed);
    let slot = state.slot.as_ref().unwrap();
    assert_eq!(slot.minted_at_secs, t3);
    assert_ne!(slot.token, tick1_token);
}

#[test]
fn empty_slot_before_first_mint() {
    let config = RotationConfig::new(600, 900).unwrap();
    let state = RotationState::new(config);
    assert!(state.slot.is_none());
    assert_eq!(state.config.refresh_interval_secs, 600);
    assert_eq!(state.config.token_expiry_secs, 900);
}
