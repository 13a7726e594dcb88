//! The options of the compaction test tool.

use vstd::prelude::*;
use vstd::string::StringExecFns;

verus! {

/// Command-line arguments for the compaction test node.
#[derive(Clone, Debug)]
pub struct CompactionTestOpts {
    pub host: String,
    /// Optional, the host address is used if not specified.
    pub client_address: Option<String>,
    pub state_store: String,
    pub prometheus_listener_addr: String,
    pub metrics_level: u32,
    pub meta_address: String,
    /// No given `config_path` means to use default config.
    pub config_path: String,
    pub compaction_trigger_frequency: u32,
}

impl Default for CompactionTestOpts {
    fn default() -> (opts: CompactionTestOpts)
        ensures
            opts.host@ == "127.0.0.1:6660"@,
            opts.client_address is None,
            opts.state_store@ == "hummock+s3://siyuanw-test-bucket"@,
            opts.prometheus_listener_addr@ == "127.0.0.1:1260"@,
            opts.metrics_level == 0,
            opts.meta_address@ == "http://127.0.0.1:5690"@,
            opts.config_path@ == ""@,
            opts.compaction_trigger_frequency == 16,
    {
        CompactionTestOpts {
            host: String::from_str("127.0.0.1:6660"),
            client_address: None,
            state_store: String::from_str("hummock+s3://siyuanw-test-bucket"),
            prometheus_listener_addr: String::from_str("127.0.0.1:1260"),
            metrics_level: 0,
            meta_address: String::from_str("http://127.0.0.1:5690"),
            config_path: String::from_str(""),
            compaction_trigger_frequency: 16,
        }
    }
}

impl CompactionTestOpts {
    /// The address that clients are told: the client address, or the host
    /// address where none is specified.
    pub open spec fn spec_client_address(&self) -> String {
        match self.client_address {
            Some(address) => address,
            None => self.host,
        }
    }

    /// Whether the client address falls back to the host address.
    pub fn client_address_defaults_to_host(&self) -> (defaults: bool)
        ensures
            defaults == (self.client_address is None),
    {
        self.client_address.is_none()
    }

    /// The address that clients are told.
    pub fn client_address(&self) -> (address: &String)
        ensures
            *address == self.spec_client_address(),
    {
        match &self.client_address {
            Some(address) => address,
            None => &self.host,
        }
    }
}

} // verus!
