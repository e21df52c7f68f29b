//! Minting and rotation of short-lived, signed database authentication
//! tokens.
//!
//! The library builds the token string that a SQL client presents as its
//! password when connecting to a managed distributed-SQL cluster: a
//! URL-shaped value carrying SigV4 query parameters (signature, expiry,
//! credential scope) with the scheme prefix stripped.  It also provides the
//! state machine that keeps a connection pool's credential slot fresh by
//! re-minting the token on a fixed interval strictly shorter than the
//! token's lifetime.

pub mod arn;
pub mod auth;
pub mod encode;
pub mod query;
pub mod rotation;
pub mod token;

pub use arn::cluster_id_from_arn;
pub use auth::AuthError;
pub use auth::Credentials;
pub use auth::SigningRequest;
pub use query::decode_expiry;
pub use rotation::MintedToken;
pub use rotation::RotationConfig;
pub use rotation::RotationState;
pub use rotation::TickOutcome;
pub use token::generate_db_auth_token;
