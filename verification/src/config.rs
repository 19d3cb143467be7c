//! Run configuration.
//!
//! Plain values only: flag parsing and environment loading belong to the
//! surrounding binary, which fills this struct and hands it in. `Default`
//! pins the documented default of every knob.

use vstd::prelude::*;

verus! {

/// Every knob of one measurement run.
pub struct Config {
    /// How many ranked entries to display.
    pub count: usize,
    /// Latency-probe concurrency cap.
    pub threads: usize,
    /// How many latency survivors get a bandwidth test.
    pub speed_count: usize,
    /// Service port probed on every candidate.
    pub port: u16,
    /// Per-connection-attempt timeout, in milliseconds.
    pub timeout_ms: u64,
    /// Average-latency ceiling, in milliseconds.
    pub latency_limit_ms: u64,
    /// Connection attempts per candidate.
    pub ping_times: usize,
    /// Requested download size for the bandwidth test, in bytes.
    pub download_size: usize,
    /// Download endpoint the bandwidth test requests.
    pub test_url: String,
    /// Path the tabular results are also written to, if any.
    pub output: Option<String>,
    /// Whether IPv6 ranges are sampled too.
    pub ipv6: bool,
    /// Credential for the record-publishing collaborator, if set.
    pub cloudflare_api_token: Option<String>,
    /// Zone for the record-publishing collaborator, if set.
    pub cloudflare_zone_id: Option<String>,
    /// Record name for the record-publishing collaborator, if set.
    pub cloudflare_record_name: Option<String>,
    /// Record type for the record-publishing collaborator, if set.
    pub cloudflare_record_type: Option<String>,
    /// Whether the published record is proxied, if set.
    pub cloudflare_proxied: Option<bool>,
    /// Skip interactive confirmation before publishing.
    pub quiet: bool,
}

impl Default for Config {
    /// The documented defaults of every knob.
    fn default() -> (c: Config)
        ensures
            c.count == 10,
            c.threads == 200,
            c.speed_count == 10,
            c.port == 443,
            c.timeout_ms == 1000,
            c.latency_limit_ms == 300,
            c.ping_times == 10,
            c.download_size == 10_485_760,
            c.test_url@ == "https://speed.cloudflare.com/__down"@,
            c.output is None,
            !c.ipv6,
            c.cloudflare_api_token is None,
            c.cloudflare_zone_id is None,
            c.cloudflare_record_name is None,
            c.cloudflare_record_type is None,
            c.cloudflare_proxied is None,
            !c.quiet,
    {
        proof {
            broadcast use vstd::string::to_string_from_display_ensures_for_str;

        }
        Config {
            count: 10,
            threads: 200,
            speed_count: 10,
            port: 443,
            timeout_ms: 1000,
            latency_limit_ms: 300,
            ping_times: 10,
            download_size: 10_485_760,
            test_url: "https://speed.cloudflare.com/__down".to_string(),
            output: None,
            ipv6: false,
            cloudflare_api_token: None,
            cloudflare_zone_id: None,
            cloudflare_record_name: None,
            cloudflare_record_type: None,
            cloudflare_proxied: None,
            quiet: false,
        }
    }
}

} // verus!
