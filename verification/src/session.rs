//! Persistence of which session each bot message belongs to.
use vstd::prelude::*;

verus! {

/// `anyhow::Error`, the error of a storage operation.
#[verifier::external_type_specification]
#[verifier::external_body]
pub struct ExAnyhowError(anyhow::Error);

/// A store linking bot messages to opencode sessions.
pub trait SessionStore {
    /// Link a bot message to a session.
    fn link_message(&self, chat_id: i64, msg_id: i64, session_id: &str) -> Result<(), anyhow::Error>;

    /// Look up which session a bot message belongs to.
    fn get_by_message(&self, chat_id: i64, msg_id: i64) -> Result<Option<String>, anyhow::Error>;

    /// Get the most recently linked session for a chat.
    fn get_latest_session(&self, chat_id: i64) -> Result<Option<String>, anyhow::Error>;
}

} // verus!
