//! The settings of the two services and what they are where a file names none.

use vstd::prelude::*;
use vstd::string::*;

verus! {

/// Where blobs live.
#[derive(Debug, Clone)]
pub struct S3Config {
    /// The bucket that holds the blobs.
    pub bucket: String,
    /// The endpoint of a store other than AWS.
    pub endpoint_url: Option<String>,
    /// The region; absent is `us-east-1`, which compatible stores accept.
    pub region: Option<String>,
    /// Path-style addressing.
    pub path_style: bool,
    /// Set both credentials or neither.
    pub access_key_id: Option<String>,
    /// See [`S3Config::access_key_id`].
    pub secret_access_key: Option<String>,
    /// Deadline in seconds for one whole operation.
    pub operation_timeout_secs: u64,
}

/// One trusted issuer of tokens, and whom it may let in.
#[derive(Debug, Clone)]
pub struct IssuerConfig {
    /// Issuer URL, matched exactly against the token's.
    pub issuer: String,
    /// The audience that a token must name.
    pub audience: String,
    /// The public client that people log in with; only the issuer for people
    /// has one.
    pub client_id: Option<String>,
    /// A URL of keys, or a path to a file of them, in place of discovery.
    pub jwks_url: Option<String>,
    /// GitHub only: the immutable number of the owner.
    pub github_owner_id: Option<String>,
    /// GitHub only: the refs that may push, with a `*` at the end for any.
    pub ref_patterns: Vec<String>,
    /// Whether the ref must be protected, or must not.
    pub ref_protected: Option<bool>,
    /// The immutable numbers of the repositories that may push.
    pub repository_ids: Vec<String>,
    /// The events that may push.
    pub event_names: Vec<String>,
    /// The workflow files that may push, with a `*` at the end for any.
    pub job_workflow_refs: Vec<String>,
    /// The groups of which a subject must be in one.
    pub allowed_groups: Vec<String>,
}

/// What bounds the memory that uploads take.
#[derive(Debug, Clone, Copy, PartialEq, Eq, Structural)]
pub struct Limits {
    /// Uploads admitted at once.
    pub max_concurrent_uploads: usize,
    /// Bytes buffered over all uploads.
    pub max_in_flight_bytes: u64,
    /// Bytes of a part, and of the largest body stored in one request.
    pub part_size: usize,
    /// Parts of one upload on their way at once.
    pub max_parts_in_flight: usize,
}

impl Default for Limits {
    fn default() -> (r: Self)
        ensures
            r.max_concurrent_uploads == 32,
            r.max_in_flight_bytes == 2147483648,
            r.part_size == 67108864,
            r.max_parts_in_flight == 4,
    {
        Limits {
            max_concurrent_uploads: max_concurrent_uploads(),
            max_in_flight_bytes: max_in_flight_bytes(),
            part_size: part_size(),
            max_parts_in_flight: max_parts_in_flight(),
        }
    }
}

/// The settings of the service that serves the cache.
#[derive(Debug)]
pub struct PullerConfig {
    /// Listen address.
    pub listen: String,
    /// Path of the catalogue, the same file that the receiving service writes.
    pub db_path: String,
    /// Where blobs live.
    pub s3: S3Config,
    /// The store directory that the cache announces.
    pub store_dir: String,
    /// Seconds for which a link to a blob is valid.
    pub presign_ttl_secs: u64,
    /// Listen address of the metrics.
    pub metrics_listen: String,
    /// The issuer for browsing; without one there is no browsing.
    pub browse_oidc: Option<IssuerConfig>,
    /// Seconds within which a second access is not recorded.
    pub bump_debounce_secs: i64,
    /// Seconds to wait at the start for the catalogue to appear.
    pub db_wait_timeout_secs: u64,
    /// Milliseconds for a lookup before it counts as a miss.
    pub db_read_budget_ms: u64,
    /// Milliseconds for making a link before it counts as a miss.
    pub presign_budget_ms: u64,
}

/// Path-style addressing is on.
pub fn yes() -> (r: bool)
    ensures
        r,
{
    true
}

/// The default store directory.
pub fn store_dir() -> (r: String)
    ensures
        r@ == "/nix/store"@,
{
    "/nix/store".to_owned()
}

/// The default address of the receiving service.
pub fn pusher_listen() -> (r: String)
    ensures
        r@ == "127.0.0.1:8080"@,
{
    "127.0.0.1:8080".to_owned()
}

/// The default address of the serving service.
pub fn puller_listen() -> (r: String)
    ensures
        r@ == "127.0.0.1:8081"@,
{
    "127.0.0.1:8081".to_owned()
}

/// The default address of the receiving service's metrics.
pub fn pusher_metrics_listen() -> (r: String)
    ensures
        r@ == "127.0.0.1:9091"@,
{
    "127.0.0.1:9091".to_owned()
}

/// The default address of the serving service's metrics.
pub fn puller_metrics_listen() -> (r: String)
    ensures
        r@ == "127.0.0.1:9092"@,
{
    "127.0.0.1:9092".to_owned()
}

/// Uploads admitted at once.
pub fn max_concurrent_uploads() -> (r: usize)
    ensures
        r == 32,
{
    32
}

/// Bytes buffered over all uploads: 2 GiB.
pub fn max_in_flight_bytes() -> (r: u64)
    ensures
        r == 2147483648,
{
    2147483648
}

/// Bytes of a part: 64 MiB.
pub fn part_size() -> (r: usize)
    ensures
        r == 67108864,
{
    67108864
}

/// Parts of one upload on their way at once.
pub fn max_parts_in_flight() -> (r: usize)
    ensures
        r == 4,
{
    4
}

/// Seconds between two checks of usage.
pub fn gc_interval() -> (r: u64)
    ensures
        r == 300,
{
    300
}

/// Seconds that a blob without a row must have been there to be removed: a day.
pub fn orphan_grace() -> (r: u64)
    ensures
        r == 86400,
{
    86400
}

/// Seconds to wait for the catalogue.
pub fn db_wait_timeout() -> (r: u64)
    ensures
        r == 300,
{
    300
}

/// Seconds within which a second access is not recorded: a day.
pub fn bump_debounce() -> (r: i64)
    ensures
        r == 86400,
{
    86400
}

/// Seconds for which a link to a blob is valid.
pub fn presign_ttl() -> (r: u64)
    ensures
        r == 3600,
{
    3600
}

/// Milliseconds for a step of serving a path before it counts as a miss.
pub fn pull_budget() -> (r: u64)
    ensures
        r == 250,
{
    250
}

/// Seconds for one whole storage operation.
pub fn operation_timeout() -> (r: u64)
    ensures
        r == 60,
{
    60
}

} // verus!
