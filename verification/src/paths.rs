//! Where the application keeps its files under the configuration directory.
use vstd::prelude::*;
use crate::text::{chars_of, extend_str, string_from};

verus! {

/// `PathBuf::from(base).join(comp)` for a relative component: the component
/// alone under an empty base, else separated from the base by one `/`.
pub open spec fn join_path(base: Seq<char>, comp: Seq<char>) -> Seq<char> {
    if base.len() == 0 {
        comp
    } else if base.last() == '/' {
        base + comp
    } else {
        base.push('/') + comp
    }
}

/// Join a relative component onto a directory path.
pub fn join(base: &str, comp: &str) -> (r: String)
    requires
        comp@.len() == 0 || comp@[0] != '/',
    ensures
        r@ == join_path(base@, comp@),
{
    let mut v = chars_of(base);
    if v.len() > 0 && v[v.len() - 1] != '/' {
        v.push('/');
    }
    extend_str(&mut v, comp);
    string_from(v.as_slice())
}

pub open spec fn config_subdir(home: Seq<char>) -> Seq<char> {
    join_path(join_path(home, ".config"@), "eve-remap"@)
}

/// `~/.config/eve-remap` for the given home directory.
pub fn token_dir(home: &str) -> (r: String)
    ensures
        r@ == config_subdir(home@),
{
    proof {
        reveal_strlit(".config");
        reveal_strlit("eve-remap");
    }
    let a = join(home, ".config");
    join(a.as_str(), "eve-remap")
}

/// `~/.config/eve-remap/tokens.json` for the given home directory.
pub fn token_path(home: &str) -> (r: String)
    ensures
        r@ == join_path(config_subdir(home@), "tokens.json"@),
{
    proof {
        reveal_strlit("tokens.json");
    }
    let d = token_dir(home);
    join(d.as_str(), "tokens.json")
}

/// `accounts.json` in the given configuration directory.
pub fn accounts_path(config_dir: &str) -> (r: String)
    ensures
        r@ == join_path(config_dir@, "accounts.json"@),
{
    proof {
        reveal_strlit("accounts.json");
    }
    join(config_dir, "accounts.json")
}

/// The CA certificate, server certificate and server key kept for the HTTPS
/// callback in the given configuration directory.
pub fn tls_paths(config_dir: &str) -> (r: (String, String, String))
    ensures
        r.0@ == join_path(config_dir@, "ca.pem"@),
        r.1@ == join_path(config_dir@, "server.der"@),
        r.2@ == join_path(config_dir@, "server-key.der"@),
{
    proof {
        reveal_strlit("ca.pem");
        reveal_strlit("server.der");
        reveal_strlit("server-key.der");
    }
    (join(config_dir, "ca.pem"), join(config_dir, "server.der"), join(config_dir, "server-key.der"))
}

} // verus!
