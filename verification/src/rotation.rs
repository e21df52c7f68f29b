//! Keeping a connection pool's credential fresh.
//!
//! A background task re-mints the token on a fixed interval and swaps it
//! into the pool's credential slot; connections already open are
//! unaffected, and new connections read the slot.  A failed mint leaves
//! the previous token installed and is retried at the next tick, never
//! more eagerly.  The refresh interval must be strictly shorter than the
//! token's expiry, so the installed token is always replaced before it
//! can expire.

use vstd::prelude::*;
use crate::auth::AuthError;

verus! {

/// How often the token is re-minted, against how long each token lives.
#[derive(Clone, Copy, Debug, PartialEq, Eq, Structural)]
pub struct RotationConfig {
    pub refresh_interval_secs: u64,
    pub token_expiry_secs: u64,
}

impl RotationConfig {
    /// The rotation invariant: the refresh interval is positive and
    /// strictly shorter than the token expiry, so a token is refreshed
    /// with time to spare.
    pub open spec fn wf(self) -> bool {
        0 < self.refresh_interval_secs < self.token_expiry_secs
    }

    /// Accepts a configuration exactly when the refresh interval is
    /// positive and strictly shorter than the expiry; anything else is
    /// rejected before rotation starts.
    pub fn new(refresh_interval_secs: u64, token_expiry_secs: u64) -> (r: Option<RotationConfig>)
        ensures
            r is Some <==> 0 < refresh_interval_secs < token_expiry_secs,
            r matches Some(c) ==> c == (RotationConfig { refresh_interval_secs, token_expiry_secs })
                && c.wf(),
    {
        if 0 < refresh_interval_secs && refresh_interval_secs < token_expiry_secs {
            Some(RotationConfig { refresh_interval_secs, token_expiry_secs })
        } else {
            None
        }
    }
}

/// A token together with the instant it was minted at.
pub struct MintedToken {
    pub token: String,
    pub minted_at_secs: u64,
}

impl MintedToken {
    /// A token is valid from its mint until `expiry_secs` later —
    /// regardless of any token minted before or since.
    pub open spec fn valid_at(self, expiry_secs: u64, at_secs: u64) -> bool {
        self.minted_at_secs <= at_secs <= self.minted_at_secs + expiry_secs
    }
}

/// The rotation supplier's state: the configuration and the pool's
/// credential slot.  Only the rotation task writes the slot; new
/// connections read whatever token is installed.
pub struct RotationState {
    pub config: RotationConfig,
    pub slot: Option<MintedToken>,
}

/// What one rotation tick did.
#[derive(Clone, Copy, Debug, PartialEq, Eq, Structural)]
pub enum TickOutcome {
    /// The mint succeeded and the slot now holds the fresh token.
    Refreshed,
    /// The mint failed; the previous token, if any, stays installed and
    /// the next attempt waits for the next tick.
    TickFailed,
}

impl RotationState {
    /// A supplier starts with an empty slot.
    pub fn new(config: RotationConfig) -> (r: RotationState)
        ensures
            r.config == config,
            r.slot is None,
    {
        RotationState { config, slot: None }
    }

    /// The slot's token, if one is installed, has not outlived the
    /// expiry by `at_secs`.
    pub open spec fn slot_fresh_at(self, at_secs: u64) -> bool {
        match self.slot {
            Some(m) => at_secs - m.minted_at_secs <= self.config.token_expiry_secs,
            None => true,
        }
    }

    /// Applies the result of one tick's mint to the slot.
    ///
    /// A successful mint installs the fresh token; a failed mint leaves
    /// the state exactly as it was, so the pool retains the previous
    /// token and rotation simply resumes at the next tick.
    pub fn apply_tick(&mut self, mint: Result<String, AuthError>, now_secs: u64) -> (o:
        TickOutcome)
        ensures
            match mint {
                Ok(t) => o == TickOutcome::Refreshed && final(self).config == old(self).config
                    && final(self).slot == Some(
                    MintedToken { token: t, minted_at_secs: now_secs },
                ),
                Err(_) => o == TickOutcome::TickFailed && *final(self) == *old(self),
            },
    {
        match mint {
            Ok(token) => {
                self.slot = Some(MintedToken { token, minted_at_secs: now_secs });
                TickOutcome::Refreshed
            },
            Err(_) => TickOutcome::TickFailed,
        }
    }
}

/// The safety margin of a well-formed configuration: a token refreshed
/// no later than one refresh interval after its mint is still strictly
/// inside its lifetime, valid, and fresh in the slot that holds it.
pub proof fn lemma_refresh_margin(s: RotationState, now_secs: u64)
    requires
        s.config.wf(),
        s.slot matches Some(m) && m.minted_at_secs <= now_secs <= m.minted_at_secs
            + s.config.refresh_interval_secs,
    ensures
        now_secs - s.slot->Some_0.minted_at_secs < s.config.token_expiry_secs,
        s.slot_fresh_at(now_secs),
        s.slot->Some_0.valid_at(s.config.token_expiry_secs, now_secs),
{
}

/// Validity is independent between mints: a token minted at `first_secs`
/// and one minted at `second_secs` shortly after are each valid through
/// their own windows, so both are valid together from the second mint
/// until the first token's expiry.  Minting again never invalidates an
/// earlier token.
pub proof fn lemma_rapid_mints_both_valid(
    first: MintedToken,
    second: MintedToken,
    expiry_secs: u64,
    at_secs: u64,
)
    requires
        first.minted_at_secs <= second.minted_at_secs,
        second.minted_at_secs <= at_secs <= first.minted_at_secs + expiry_secs,
    ensures
        first.valid_at(expiry_secs, at_secs),
        second.valid_at(expiry_secs, at_secs),
{
}

} // verus!
