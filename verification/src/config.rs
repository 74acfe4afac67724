//! Configuration of the node.
use vstd::prelude::*;

use crate::forwarder::BackendConfig;
use crate::network::SentryNetworkConfig;
use crate::ws_server::WsConfig;

verus! {

/// The network part of the configuration.
#[derive(Debug, Clone, Copy)]
pub struct NetworkConfigFile {
    pub chain_id: u64,
    pub max_peers: u32,
    pub p2p_port: u16,
    pub discovery_port: u16,
    pub block_cache_size: usize,
}

impl Default for NetworkConfigFile {
    fn default() -> (r: Self)
        ensures
            r.chain_id == 1,
            r.max_peers == 50,
            r.p2p_port == 30303,
            r.discovery_port == 30303,
            r.block_cache_size == 256,
    {
        let network = SentryNetworkConfig::default();
        NetworkConfigFile {
            chain_id: network.chain_id,
            max_peers: network.max_peers,
            p2p_port: network.p2p_port,
            discovery_port: network.discovery_port,
            block_cache_size: network.block_cache_size,
        }
    }
}

impl NetworkConfigFile {
    /// The configuration of the network.
    pub fn network_config(&self) -> (r: SentryNetworkConfig)
        ensures
            r.chain_id == self.chain_id,
            r.max_peers == self.max_peers,
            r.p2p_port == self.p2p_port,
            r.discovery_port == self.discovery_port,
            r.block_cache_size == self.block_cache_size,
    {
        SentryNetworkConfig {
            chain_id: self.chain_id,
            max_peers: self.max_peers,
            p2p_port: self.p2p_port,
            discovery_port: self.discovery_port,
            block_cache_size: self.block_cache_size,
        }
    }
}

/// The configuration of the node.
#[derive(Debug)]
pub struct SentryConfig {
    pub network: NetworkConfigFile,
    pub backend: BackendConfig,
    pub websocket: WsConfig,
}

/// What can be configured on the command line.
#[derive(Debug)]
pub struct Options {
    pub port: u16,
    pub max_peers: u32,
    pub chain_id: u64,
    pub backends: Vec<String>,
    pub ws_port: u16,
    pub no_ws: bool,
}

impl SentryConfig {
    /// The configuration for the options of a command line. One port serves both
    /// peers and discovery, and there are no backends but those named.
    pub fn from_options(options: Options) -> (r: Self)
        ensures
            r.network.chain_id == options.chain_id,
            r.network.max_peers == options.max_peers,
            r.network.p2p_port == options.port,
            r.network.discovery_port == options.port,
            r.network.block_cache_size == 256,
            r.backend.endpoints == options.backends,
            r.backend.max_concurrent == 64,
            r.backend.buffer_size == 4096,
            r.backend.dedup.cache_size == 100_000,
            r.backend.dedup.log_interval == 1000,
            r.websocket.enabled == !options.no_ws,
            r.websocket.addr@ == "0.0.0.0"@,
            r.websocket.port == options.ws_port,
            r.websocket.capacity == 4096,
    {
        let network = NetworkConfigFile::default();
        let backend = BackendConfig::default();
        let websocket = WsConfig::default();
        SentryConfig {
            network: NetworkConfigFile {
                chain_id: options.chain_id,
                max_peers: options.max_peers,
                p2p_port: options.port,
                discovery_port: options.port,
                block_cache_size: network.block_cache_size,
            },
            backend: BackendConfig {
                endpoints: options.backends,
                max_concurrent: backend.max_concurrent,
                buffer_size: backend.buffer_size,
                dedup: backend.dedup,
            },
            websocket: WsConfig {
                enabled: !options.no_ws,
                addr: websocket.addr,
                port: options.ws_port,
                capacity: websocket.capacity,
            },
        }
    }
}

} // verus!
