//! Final node configuration and the placeholder processing applied to
//! configured paths before any service starts.

use vstd::prelude::*;
use vstd::string::StringExecFns;

use crate::cache;
use crate::cache::file::FileFormat;
use crate::storage;

verus! {

/// Format in which the descriptor storage file is written.
pub const STORAGE_FORMAT: FileFormat = FileFormat::Yaml;

/// Format in which the cache file is written.
pub const CACHE_FORMAT: FileFormat = FileFormat::Yaml;

/// What `str::replace` returns: the subject with every occurrence of the
/// pattern replaced.
pub uninterp spec fn replace_of(s: Seq<char>, from: Seq<char>, to: Seq<char>) -> Seq<char>;

/// Relies on str::replace: replaces every match of `from` in `s` with
/// `to`; the result depends on the three arguments alone.
#[verifier::external_body]
fn replace_all(s: &String, from: &str, to: &str) -> (r: String)
    ensures
        r@ == replace_of(s@, from@, to@),
{
    s.replace(from, to)
}

/// Relies on shellexpand::tilde: a path that does not begin with a tilde
/// is returned unchanged; one that does may get the tilde replaced by
/// the running user's home directory, which depends on the environment.
#[verifier::external_body]
fn expand_tilde(s: &String) -> (r: String)
    ensures
        (s@.len() > 0 && s@[0] == '~') || r@ == s@,
{
    String::from(shellexpand::tilde(s.as_str()))
}

/// A path with the placeholders the runtime understands substituted:
/// the data directory, the network name, and the default instance id.
pub open spec fn dir_processed(p: Seq<char>, data_dir: Seq<char>, network: Seq<char>) -> Seq<
    char,
> {
    replace_of(
        replace_of(replace_of(p, "{data_dir}"@, data_dir), "{network}"@, network),
        "{id}"@,
        "default"@,
    )
}

/// A ZMQ service endpoint as configuration processing reads it: only
/// filesystem (IPC) endpoints carry a path that placeholder processing
/// rewrites.
#[derive(Clone, PartialEq, Debug)]
pub enum ServiceEndpoint {
    /// A socket bound to a filesystem path.
    Ipc(String),
    /// Any non-filesystem transport; nothing in it is rewritten.
    Remote,
}

/// Final configuration resulting from data contained in the config file,
/// environment variables and command-line options.
#[derive(Clone, PartialEq, Debug)]
pub struct Config {
    /// Name of the bitcoin blockchain to use (mainnet, testnet, ...).
    pub chain: String,
    /// ZMQ socket for the RPC API.
    pub rpc_endpoint: ServiceEndpoint,
    /// RGB20 ZMQ RPC API endpoint.
    pub rgb20_endpoint: ServiceEndpoint,
    /// Whether to run an embedded RGB node.
    pub rgb_embedded: bool,
    /// Data location.
    pub data_dir: String,
    /// Verbosity level.
    pub verbose: u8,
    /// Electrum server connection string.
    pub electrum_server: String,
}

/// Substitutes the runtime's placeholders in one path against the given
/// data directory and network name, then expands a leading tilde.
fn substitute_dir(path: &mut String, data_dir: &String, network: &String)
    ensures
        ({
            let p = dir_processed(old(path)@, data_dir@, network@);
            (p.len() > 0 && p[0] == '~') || final(path)@ == p
        }),
{
    let mut p = replace_all(path, "{data_dir}", data_dir.as_str());
    p = replace_all(&p, "{network}", network.as_str());
    p = replace_all(&p, "{id}", "default");
    *path = expand_tilde(&p);
}

fn clone_string(s: &String) -> (r: String)
    ensures
        r@ == s@,
{
    String::from_str(s.as_str())
}

impl Config {
    /// Configuration of the descriptor storage file.
    pub fn storage_conf(&self) -> (r: storage::FileConfig)
        ensures
            r.location@ == self.data_dir@,
            r.format == STORAGE_FORMAT,
    {
        storage::FileConfig { location: clone_string(&self.data_dir), format: STORAGE_FORMAT }
    }

    /// Configuration of the cache file.
    pub fn cache_conf(&self) -> (r: cache::FileConfig)
        ensures
            r.location@ == self.data_dir@,
            r.format == CACHE_FORMAT,
    {
        cache::FileConfig { location: clone_string(&self.data_dir), format: CACHE_FORMAT }
    }

    /// Substitutes the runtime's placeholders in one configured path and
    /// expands a leading tilde.
    pub fn process_dir(&self, path: &mut String)
        ensures
            ({
                let p = dir_processed(old(path)@, self.data_dir@, self.chain@);
                (p.len() > 0 && p[0] == '~') || final(path)@ == p
            }),
    {
        substitute_dir(path, &self.data_dir, &self.chain);
    }

    /// Normalizes the configuration before services start: expands and
    /// substitutes the data directory, then rewrites every IPC endpoint
    /// path against the data directory as it stood before its own
    /// substitution.  The caller creates the data directory afterwards.
    pub fn process(&mut self)
        ensures
            final(self).chain == old(self).chain,
            final(self).rgb_embedded == old(self).rgb_embedded,
            final(self).verbose == old(self).verbose,
            final(self).electrum_server == old(self).electrum_server,
            ({
                let d0 = old(self).data_dir@;
                (d0.len() > 0 && d0[0] == '~') || ({
                    let d1 = dir_processed(d0, d0, old(self).chain@);
                    (d1.len() > 0 && d1[0] == '~') || final(self).data_dir@ == d1
                })
            }),
            match old(self).rpc_endpoint {
                ServiceEndpoint::Ipc(p) => match final(self).rpc_endpoint {
                    ServiceEndpoint::Ipc(q) => ({
                        let d0 = old(self).data_dir@;
                        (d0.len() > 0 && d0[0] == '~') || ({
                            let t = dir_processed(p@, d0, old(self).chain@);
                            (t.len() > 0 && t[0] == '~') || q@ == t
                        })
                    }),
                    ServiceEndpoint::Remote => false,
                },
                ServiceEndpoint::Remote => final(self).rpc_endpoint == ServiceEndpoint::Remote,
            },
            match old(self).rgb20_endpoint {
                ServiceEndpoint::Ipc(p) => match final(self).rgb20_endpoint {
                    ServiceEndpoint::Ipc(q) => ({
                        let d0 = old(self).data_dir@;
                        (d0.len() > 0 && d0[0] == '~') || ({
                            let t = dir_processed(p@, d0, old(self).chain@);
                            (t.len() > 0 && t[0] == '~') || q@ == t
                        })
                    }),
                    ServiceEndpoint::Remote => false,
                },
                ServiceEndpoint::Remote => final(self).rgb20_endpoint == ServiceEndpoint::Remote,
            },
    {
        self.data_dir = expand_tilde(&self.data_dir);
        let base = clone_string(&self.data_dir);

        let mut dir = clone_string(&self.data_dir);
        self.process_dir(&mut dir);
        self.data_dir = dir;

        let rpc = match &self.rpc_endpoint {
            ServiceEndpoint::Ipc(p) => Some(clone_string(p)),
            ServiceEndpoint::Remote => None,
        };
        if let Some(mut p) = rpc {
            substitute_dir(&mut p, &base, &self.chain);
            self.rpc_endpoint = ServiceEndpoint::Ipc(p);
        }

        let rgb20 = match &self.rgb20_endpoint {
            ServiceEndpoint::Ipc(p) => Some(clone_string(p)),
            ServiceEndpoint::Remote => None,
        };
        if let Some(mut p) = rgb20 {
            substitute_dir(&mut p, &base, &self.chain);
            self.rgb20_endpoint = ServiceEndpoint::Ipc(p);
        }
    }
}

} // verus!
