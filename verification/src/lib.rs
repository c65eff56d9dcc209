//! Stateless authenticated-session library for posting status updates to a
//! federated social-network instance.
//!
//! The whole of a user's state (instance identity, OAuth client credentials,
//! an optional access token, and posting preferences) lives in one session
//! record that round-trips through every request inside an integrity-checked
//! token; nothing is kept on the server between requests.  The modules below
//! cover the record itself, its token codec, the OAuth registration and
//! authorization-code exchange steps, preference updates, and the composition
//! of status posts.

pub mod codec;
pub mod oauth;
pub mod prefs;
pub mod publish;
pub mod session;
pub mod text;
pub mod wire;
