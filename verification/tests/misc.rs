use rusty_torrent::config::RustyConfig;
use rusty_torrent::text::truncate;

#[test]
fn default_config() {
    let c = RustyConfig::default();
    assert_eq!(c.network.listen_port, 6881);
    assert_eq!(c.network.max_peers, 50);
    assert_eq!(c.network.connection_timeout_secs, 5);
    assert_eq!(c.download.max_concurrent_pieces, 10);
    assert_eq!(c.download.block_size, 16384);
    assert_eq!(c.download.download_dir, "./downloads");
    assert_eq!(c.download.max_backlog, 5);
    assert_eq!(c.tui.refresh_rate_ms, 250);
}

#[test]
fn truncate_text() {
    assert_eq!(truncate("short", 40), "short");
    assert_eq!(truncate("abcdefghij", 8), "abcde...");
    assert_eq!(truncate("abcdefgh", 8), "abcdefgh");
}
