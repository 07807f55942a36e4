//! Client configuration and its defaults.

use vstd::prelude::*;

verus! {

/// Network-related configuration.
#[derive(Debug, Clone)]
pub struct NetworkConfig {
    /// Port to listen on for incoming peer connections.
    pub listen_port: u16,
    /// Maximum number of simultaneous peer connections.
    pub max_peers: usize,
    /// Timeout in seconds when connecting to a peer.
    pub connection_timeout_secs: u64,
}

/// Download behavior configuration.
#[derive(Debug, Clone)]
pub struct DownloadConfig {
    /// Max pieces being downloaded at the same time across all peers.
    pub max_concurrent_pieces: usize,
    /// Block size in bytes.
    pub block_size: usize,
    /// Directory to save downloaded files, as a path text.
    pub download_dir: String,
    /// Maximum number of outstanding requests per peer.
    pub max_backlog: usize,
}

/// Dashboard configuration.
#[derive(Debug, Clone)]
pub struct TuiConfig {
    /// Refresh interval for the dashboard in milliseconds.
    pub refresh_rate_ms: u64,
}

/// Top-level configuration.
#[derive(Debug, Clone)]
pub struct RustyConfig {
    pub network: NetworkConfig,
    pub download: DownloadConfig,
    pub tui: TuiConfig,
}

impl Default for RustyConfig {
    /// Port 6881, 50 peers, 5 s connection timeout; 10 pieces at a time,
    /// 16 KiB blocks into `./downloads`, 5 requests per peer; a 250 ms
    /// refresh.
    fn default() -> (r: Self)
        ensures
            r.network.listen_port == 6881,
            r.network.max_peers == 50,
            r.network.connection_timeout_secs == 5,
            r.download.max_concurrent_pieces == 10,
            r.download.block_size == 16384,
            r.download.download_dir@ == "./downloads"@,
            r.download.max_backlog == 5,
            r.tui.refresh_rate_ms == 250,
    {
        RustyConfig {
            network: NetworkConfig { listen_port: 6881, max_peers: 50, connection_timeout_secs: 5 },
            download: DownloadConfig {
                max_concurrent_pieces: 10,
                block_size: 16384,
                download_dir: "./downloads".to_owned(),
                max_backlog: 5,
            },
            tui: TuiConfig { refresh_rate_ms: 250 },
        }
    }
}

} // verus!
