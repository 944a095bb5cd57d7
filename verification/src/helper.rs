//! The client's command line and its peer id.
use crate::managers::client_manager::FissureClientOptions;
use rand::distributions::Alphanumeric;
use rand::{thread_rng, Rng};
use vstd::prelude::*;

verus! {

/// The command line of the client.
#[derive(Debug)]
pub struct ClientEnv {
    /// The path of the settings file.
    pub settings_yaml: String,
}

impl Default for ClientEnv {
    /// The settings file is `settings.yaml` unless the command line names another.
    fn default() -> (r: Self)
        ensures
            r.settings_yaml@ == "settings.yaml"@,
    {
        ClientEnv { settings_yaml: String::from_str("settings.yaml") }
    }
}

/// Whether `c` is an ASCII letter or digit.
pub open spec fn is_ascii_alphanumeric(c: char) -> bool {
    ('0' <= c <= '9') || ('A' <= c <= 'Z') || ('a' <= c <= 'z')
}

/// Calls `rand::thread_rng().sample_iter(&Alphanumeric)` and takes `n`
/// samples as characters. The `Alphanumeric` distribution yields ASCII
/// letters and digits; which ones is left to chance.
#[verifier::external_body]
fn random_alphanumeric(n: usize) -> (r: String)
    ensures
        r@.len() == n,
        forall|i: int| 0 <= i < n ==> is_ascii_alphanumeric(#[trigger] r@[i]),
{
    thread_rng().sample_iter(&Alphanumeric).take(n).map(char::from).collect()
}

/// Our peer id: `FS`, the client's version, then 14 random ASCII letters
/// and digits (20 characters with a 4-character version).
pub fn generate_peer_id(client_env: &FissureClientOptions) -> (r: String)
    ensures
        r@.len() == 16 + client_env.version@.len(),
        r@.subrange(0, 2) == "FS"@,
        r@.subrange(2, 2 + client_env.version@.len() as int) == client_env.version@,
        forall|i: int|
            2 + client_env.version@.len() <= i < r@.len() ==> is_ascii_alphanumeric(#[trigger] r@[i]),
{
    let rand_string = random_alphanumeric(14);
    let mut id = String::from_str("FS");
    id.append(client_env.version.as_str());
    id.append(rand_string.as_str());
    proof {
        reveal_strlit("FS");
        let v = client_env.version@.len();
        assert(id@.subrange(0, 2) =~= "FS"@);
        assert(id@.subrange(2, 2 + v as int) =~= client_env.version@);
        assert forall|i: int| 2 + v <= i < id@.len() implies is_ascii_alphanumeric(#[trigger] id@[i]) by {
            assert(id@[i] == rand_string@[i - 2 - v]);
        }
    }
    id
}

} // verus!
