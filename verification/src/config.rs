//! Settings that the preprocessing passes and the cache codec read.

use vstd::prelude::*;

verus! {

/// Which tag keys select a record and which are carried along with it.
#[derive(Debug, Clone)]
pub struct Filters {
    /// Keys whose presence on a record includes it in the output.
    pub primary_keys: Vec<String>,
    /// Keys whose values are kept on included records.
    pub attribute_keys: Vec<String>,
}

/// Where the compressed cache lives and how hard it is compressed.
#[derive(Debug, Clone)]
pub struct Storage {
    /// Directory that holds the cache file, as text.
    pub cache_dir: String,
    /// Compression level used when writing the cache.
    pub zstd_level: u32,
}

/// Address the HTTP endpoint binds to.
#[derive(Debug, Clone)]
pub struct Server {
    pub host: String,
    pub port: u16,
}

/// CPU sampling profiler settings.
#[derive(Debug, Clone)]
pub struct Profiling {
    pub enabled: bool,
    /// Output file for the flamegraph.
    pub out: String,
    /// Samples per second.
    pub frequency: u64,
}

/// Memory/runtime trade-offs.
#[derive(Debug, Clone)]
pub struct Runtime {
    /// Release the string-to-id side of the interner once the data is loaded;
    /// id-to-string lookups keep working from the pool.
    pub drop_interner_map: bool,
}

/// The complete configuration.
#[derive(Debug, Clone)]
pub struct Config {
    pub filters: Filters,
    pub storage: Storage,
    pub server: Server,
    pub profiling: Profiling,
    pub runtime: Runtime,
}

/// Default for `Runtime::drop_interner_map`.
pub fn default_drop_interner_map() -> (b: bool)
    ensures
        b,
{
    true
}

/// Default for `Storage::zstd_level`.
pub fn default_zstd_level() -> (level: u32)
    ensures
        level == 3,
{
    3
}

/// Default for `Profiling::enabled`.
pub fn default_profiling_enabled() -> (b: bool)
    ensures
        !b,
{
    false
}

/// Default for `Profiling::out`.
pub fn default_profiling_out() -> (out: String)
    ensures
        out@ == "profile.svg"@,
{
    String::from_str("profile.svg")
}

/// Default for `Profiling::frequency`.
pub fn default_profiling_freq() -> (freq: u64)
    ensures
        freq == 100,
{
    100
}

impl Default for Runtime {
    /// The map is dropped unless the configuration says otherwise.
    fn default() -> (r: Runtime)
        ensures
            r.drop_interner_map,
    {
        Runtime { drop_interner_map: default_drop_interner_map() }
    }
}

} // verus!
