//! Game sessions.
use vstd::prelude::*;

verus! {

/// The tokens of a new game session.
#[derive(Debug)]
pub struct SessionTokens {
    pub session_token: String,
    pub identity_token: String,
    pub expires_at: Option<String>,
}

/// The address that creates game sessions.
pub fn session_url() -> (res: &'static str)
    ensures
        res@ == "https://sessions.hytale.com/game-session/new"@,
{
    "https://sessions.hytale.com/game-session/new"
}

} // verus!
