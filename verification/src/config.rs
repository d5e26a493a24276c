use vstd::prelude::*;

verus! {

/// Connection settings for the surrounding application: credentials, the
/// username of the peer all dispatches target, where the session is stored,
/// and the default number of seconds a dispatched request waits for a reply.
pub struct GrokConfig {
    pub api_id: i32,
    pub api_hash: String,
    pub bot_username: String,
    pub session_path: String,
    pub response_timeout: u64,
}

impl GrokConfig {
    /// Builds a configuration with the default response timeout of 30 seconds.
    pub fn new(api_id: i32, api_hash: String, bot_username: String, session_path: String) -> (c: Self)
        ensures
            c.api_id == api_id,
            c.api_hash == api_hash,
            c.bot_username == bot_username,
            c.session_path == session_path,
            c.response_timeout == 30,
    {
        GrokConfig {
            api_id,
            api_hash,
            bot_username,
            session_path,
            response_timeout: 30,
        }
    }
}

} // verus!
