//! Node configuration: its sections, the defaults and the sanity checks.
use vstd::prelude::*;
use vstd::string::StringExecFns;

verus! {

/// Networking settings.
#[derive(Debug, Clone)]
pub struct NetworkConfig {
    pub listen_addr: String,
    pub rpc_addr: String,
    pub enable_mdns: bool,
    pub enable_dht: bool,
    pub bootstrap_peers: Vec<String>,
    pub max_peers: usize,
}

/// Block synchronisation settings.
#[derive(Debug, Clone)]
pub struct SyncConfig {
    pub periodic_check_interval: u64,
    pub max_pending_requests: usize,
    pub block_request_timeout: u64,
    pub max_batch_size: usize,
    pub state: StateSyncConfig,
}

/// State synchronisation settings.
#[derive(Debug, Clone)]
pub struct StateSyncConfig {
    pub enable_fast_sync: bool,
    pub snapshot_interval: u64,
    pub max_snapshot_size: u64,
}

/// Smart-contract settings.
#[derive(Debug, Clone)]
pub struct ContractConfig {
    pub db_path: String,
    pub max_bytecode_size: u64,
    pub enable_caching: bool,
    pub cache_size: usize,
}

/// Consensus settings.
#[derive(Debug, Clone)]
pub struct ConsensusConfig {
    pub block_interval: u64,
    pub confirmation_depth: usize,
    pub blue_set_size: usize,
}

/// Mempool settings.
#[derive(Debug, Clone)]
pub struct MempoolConfig {
    pub max_size: usize,
    pub min_gas_price: u64,
}

/// Block storage settings.
#[derive(Debug, Clone)]
pub struct StorageConfig {
    pub db_path: String,
    pub pruning: PruningConfig,
}

/// Pruning settings.
#[derive(Debug, Clone)]
pub struct PruningConfig {
    pub enabled: bool,
    pub prune_height: u64,
    pub window_size: u64,
    pub check_interval: u64,
}

/// Logging settings.
#[derive(Debug, Clone)]
pub struct LoggingConfig {
    pub level: String,
    pub structured: bool,
}

/// Settings of the node itself.
#[derive(Debug, Clone)]
pub struct NodeSettings {
    pub node_id: String,
    pub data_dir: String,
    pub node_name: String,
    pub enable_rpc: bool,
}

/// The whole node configuration.
#[derive(Debug, Clone)]
pub struct NodeConfig {
    pub network: NetworkConfig,
    pub sync: SyncConfig,
    pub contracts: ContractConfig,
    pub consensus: ConsensusConfig,
    pub mempool: MempoolConfig,
    pub storage: StorageConfig,
    pub logging: LoggingConfig,
    pub node: NodeSettings,
}

/// The complaints `validate` makes about `c`, in order.
pub open spec fn config_errors(c: NodeConfig) -> Seq<Seq<char>> {
    (if c.consensus.block_interval == 0 { seq!["block_interval must be > 0"@] } else { Seq::empty() })
    + (if c.mempool.max_size == 0 { seq!["mempool.max_size must be > 0"@] } else { Seq::empty() })
    + (if c.consensus.confirmation_depth == 0 { seq!["confirmation_depth must be > 0"@] } else { Seq::empty() })
    + (if c.network.max_peers == 0 { seq!["network.max_peers must be > 0"@] } else { Seq::empty() })
    + (if c.sync.max_pending_requests == 0 { seq!["sync.max_pending_requests must be > 0"@] } else { Seq::empty() })
}

/// The texts of a list of strings.
pub open spec fn texts(v: Seq<String>) -> Seq<Seq<char>> {
    v.map_values(|s: String| s@)
}

impl Default for NodeConfig {
    /// The built-in defaults.
    fn default() -> (r: NodeConfig)
        ensures
            r.network.listen_addr@ == "/ip4/0.0.0.0/tcp/30333"@,
            r.network.rpc_addr@ == "127.0.0.1:8080"@,
            r.network.enable_mdns,
            !r.network.enable_dht,
            r.network.bootstrap_peers@.len() == 0,
            r.network.max_peers == 100,
            r.sync.periodic_check_interval == 60,
            r.sync.max_pending_requests == 1000,
            r.sync.block_request_timeout == 30,
            r.sync.max_batch_size == 100,
            r.sync.state.enable_fast_sync,
            r.sync.state.snapshot_interval == 300,
            r.sync.state.max_snapshot_size == 500 * 1024 * 1024,
            r.contracts.db_path@ == "./data/contracts.db"@,
            r.contracts.max_bytecode_size == 1024 * 1024,
            r.contracts.enable_caching,
            r.contracts.cache_size == 1000,
            r.consensus.block_interval == 5000,
            r.consensus.confirmation_depth == 10,
            r.consensus.blue_set_size == 2,
            r.mempool.max_size == 10000,
            r.mempool.min_gas_price == 1,
            r.storage.db_path@ == "./data/blocks.db"@,
            r.storage.pruning.enabled,
            r.storage.pruning.prune_height == 200000,
            r.storage.pruning.window_size == 100000,
            r.storage.pruning.check_interval == 3600,
            r.logging.level@ == "info"@,
            !r.logging.structured,
            r.node.node_id@ == Seq::<char>::empty(),
            r.node.data_dir@ == "./data"@,
            r.node.node_name@ == "cytah-node"@,
            r.node.enable_rpc,
    {
        NodeConfig {
            network: NetworkConfig {
                listen_addr: String::from_str("/ip4/0.0.0.0/tcp/30333"),
                rpc_addr: String::from_str("127.0.0.1:8080"),
                enable_mdns: true,
                enable_dht: false,
                bootstrap_peers: Vec::new(),
                max_peers: 100,
            },
            sync: SyncConfig {
                periodic_check_interval: 60,
                max_pending_requests: 1000,
                block_request_timeout: 30,
                max_batch_size: 100,
                state: StateSyncConfig {
                    enable_fast_sync: true,
                    snapshot_interval: 300,
                    max_snapshot_size: 500 * 1024 * 1024,
                },
            },
            contracts: ContractConfig {
                db_path: String::from_str("./data/contracts.db"),
                max_bytecode_size: 1024 * 1024,
                enable_caching: true,
                cache_size: 1000,
            },
            consensus: ConsensusConfig { block_interval: 5000, confirmation_depth: 10, blue_set_size: 2 },
            mempool: MempoolConfig { max_size: 10000, min_gas_price: 1 },
            storage: StorageConfig {
                db_path: String::from_str("./data/blocks.db"),
                pruning: PruningConfig { enabled: true, prune_height: 200000, window_size: 100000, check_interval: 3600 },
            },
            logging: LoggingConfig { level: String::from_str("info"), structured: false },
            node: NodeSettings {
                node_id: String::new(),
                data_dir: String::from_str("./data"),
                node_name: String::from_str("cytah-node"),
                enable_rpc: true,
            },
        }
    }
}

impl NodeConfig {
    /// The configuration file to read: the one named on the command line,
    /// else `config.toml`.
    pub fn config_path_for(cli_config: Option<&str>) -> (r: String)
        ensures
            r@ == (match cli_config {
                Some(p) => p@,
                None => "config.toml"@,
            }),
    {
        match cli_config {
            Some(p) => String::from_str(p),
            None => String::from_str("config.toml"),
        }
    }

    /// Checks the settings that must be positive; lists every violated one.
    pub fn validate(&self) -> (r: Result<(), Vec<String>>)
        ensures
            r is Ok <==> config_errors(*self).len() == 0,
            r matches Err(es) ==> texts(es@) == config_errors(*self),
    {
        let mut errors: Vec<String> = Vec::new();
        if self.consensus.block_interval == 0 {
            errors.push(String::from_str("block_interval must be > 0"));
        }
        let ghost e1 = texts(errors@);
        if self.mempool.max_size == 0 {
            errors.push(String::from_str("mempool.max_size must be > 0"));
        }
        let ghost e2 = texts(errors@);
        if self.consensus.confirmation_depth == 0 {
            errors.push(String::from_str("confirmation_depth must be > 0"));
        }
        let ghost e3 = texts(errors@);
        if self.network.max_peers == 0 {
            errors.push(String::from_str("network.max_peers must be > 0"));
        }
        let ghost e4 = texts(errors@);
        if self.sync.max_pending_requests == 0 {
            errors.push(String::from_str("sync.max_pending_requests must be > 0"));
        }
        proof {
            let c = *self;
            assert(e1 =~= (if c.consensus.block_interval == 0 { seq!["block_interval must be > 0"@] } else { Seq::empty() }));
            assert(e2 =~= e1 + (if c.mempool.max_size == 0 { seq!["mempool.max_size must be > 0"@] } else { Seq::empty() }));
            assert(e3 =~= e2 + (if c.consensus.confirmation_depth == 0 { seq!["confirmation_depth must be > 0"@] } else { Seq::empty() }));
            assert(e4 =~= e3 + (if c.network.max_peers == 0 { seq!["network.max_peers must be > 0"@] } else { Seq::empty() }));
            assert(texts(errors@) =~= e4 + (if c.sync.max_pending_requests == 0 { seq!["sync.max_pending_requests must be > 0"@] } else { Seq::empty() }));
            assert(texts(errors@) =~= config_errors(c));
        }
        if errors.len() == 0 {
            Ok(())
        } else {
            Err(errors)
        }
    }
}

} // verus!
