//! The command-line surface as plain data, and the small pure helpers
//! the command handlers compute with.  Argument parsing, prompting,
//! HTTP and printing stay with the caller; this module only decides
//! values: which API base URL a run uses, how a stored key is masked
//! for display, and how a base URL is normalized before use.

use vstd::prelude::*;

use crate::config::Config;

verus! {

/// A parsed invocation: one command and the optional API base URL
/// override from the flag or the environment.
pub struct Cli {
    pub command: Commands,
    pub api_url: Option<String>,
}

/// The top-level commands.
pub enum Commands {
    /// Save a link; missing fields may be prompted for by the shell.
    Save { url: Option<String>, title: Option<String>, description: Option<String> },
    /// List links, at most `limit` of them.
    List { limit: Option<usize> },
    /// Fetch one link by its identifier.
    Get { id: String },
    /// Authentication commands.
    Auth(AuthCommands),
    /// Configuration commands.
    Config(ConfigCommands),
}

/// The authentication subcommands.
pub enum AuthCommands {
    /// Register a new account by email.
    Register { email: String },
    /// Store an API key as the credential.
    Login { api_key: String },
    /// Remove the stored credential.
    Logout,
    /// Show the current user.
    Me,
    /// Show whether a credential is stored.
    Status,
}

/// The configuration subcommands.
pub enum ConfigCommands {
    /// Write one configuration value at a dotted key path.
    SetValue { key: String, value: String },
    /// Read one configuration value.
    Get { key: String },
}

impl Cli {
    /// The API base URL a run uses: the command-line override first,
    /// then the configured `api.url`, then the built-in default.
    pub fn resolve_api_url(cli_api_url: Option<String>, config: &Config) -> (r: String)
        ensures
            cli_api_url matches Some(u) ==> r == u,
            cli_api_url is None ==> (config.api_url matches Some(u) ==> r@ == u@),
            cli_api_url is None && config.api_url is None ==> r@ == "http://localhost:8000"@,
    {
        match cli_api_url {
            Some(u) => u,
            None => match &config.api_url {
                Some(u) => u.clone(),
                None => "http://localhost:8000".to_owned(),
            },
        }
    }
}

/// A stored key as shown to the user: at most the first eight and the
/// last four characters, an ellipsis between.
pub open spec fn spec_mask(k: Seq<char>) -> Seq<char> {
    let p: int = if k.len() < 8 {
        k.len() as int
    } else {
        8
    };
    let s: int = if k.len() < 4 {
        k.len() as int
    } else {
        4
    };
    k.take(p) + "..."@ + k.skip(k.len() - s)
}

/// Mask a stored key for display, keeping only its ends.
pub fn mask_api_key(key: &str) -> (r: String)
    ensures
        r@ == spec_mask(key@),
{
    let n = key.unicode_len();
    let p: usize = if n < 8 {
        n
    } else {
        8
    };
    let s: usize = if n < 4 {
        n
    } else {
        4
    };
    let mut out = key.substring_char(0, p).to_owned();
    out.append("...");
    out.append(key.substring_char(n - s, n));
    proof {
        assert(out@ =~= spec_mask(key@));
    }
    out
}

/// A base URL with every trailing slash removed.
pub open spec fn spec_trim_slashes(s: Seq<char>) -> Seq<char>
    decreases s.len(),
{
    if s.len() > 0 && s[s.len() - 1] == '/' {
        spec_trim_slashes(s.drop_last())
    } else {
        s
    }
}

/// Normalize an API base URL before requests are built on it: trailing
/// slashes are dropped so paths can be appended uniformly.
pub fn normalize_base_url(s: &str) -> (r: String)
    ensures
        r@ == spec_trim_slashes(s@),
{
    let n = s.unicode_len();
    let mut e: usize = n;
    proof {
        assert(s@.take(n as int) =~= s@);
    }
    while e > 0 && s.get_char(e - 1) == '/'
        invariant
            e <= n,
            n == s@.len(),
            spec_trim_slashes(s@) == spec_trim_slashes(s@.take(e as int)),
        decreases e,
    {
        proof {
            assert(s@.take(e as int).drop_last() =~= s@.take(e as int - 1));
        }
        e -= 1;
    }
    let r = s.substring_char(0, e).to_owned();
    proof {
        assert(spec_trim_slashes(s@.take(e as int)) == s@.take(e as int));
    }
    r
}

} // verus!
