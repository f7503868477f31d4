//! Application configuration as plain values. The hosting process reads its
//! environment, fills one of these in, and hands it to whatever needs it;
//! nothing here reaches for global state.

use vstd::prelude::*;

verus! {

/// The bot's configuration.
pub struct AppConfig {
    pub discord_token: String,
    pub github_token: String,
    pub data_dir: String,
    pub nixpkgs_channel: String,
}

/// The directory the bot keeps its data files under.
pub fn get_data_dir(config: &AppConfig) -> (r: String)
    ensures
        r@ == config.data_dir@,
{
    config.data_dir.clone()
}

} // verus!
