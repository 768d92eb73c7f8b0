use rzbridge::auth::{load_auth_file, AuthFile, TokenStore, TokenWatcher};
use rzbridge::config::{worker_count, Config};
use rzbridge::error::RZError;
use rzbridge::http::{is_success, HttpReply};
use rzbridge::resolver::{ResolveStep, RzPointResolver};
use rzbridge::rzid::{NodesResponse, RzidClient};
use rzbridge::text::{
    char_is_white_space, characters, copy_texts, decimal_text, hex_byte_text, joined, lists_text,
    part, same_text, starts_with, trim, trim_end_slashes, trim_prefixes,
};

fn config(worker_threads: usize) -> Config {
    Config {
        zone_id: "zone1".to_string(),
        shard_id: "shard1".to_string(),
        bridge_id: "bridge-test".to_string(),
        rzid_addr: "172.20.0.41:8080".to_string(),
        rzpoint_addr: "172.20.0.40:9090".to_string(),
        roomzin_api_port: 8080,
        roomzin_tcp_port: 7777,
        rzid_heartbeat_interval_secs: 10,
        listen_host: "127.0.0.1".to_string(),
        listen_port: 9000,
        conn_per_roomzin_node: 1,
        max_active_conns: 10000,
        max_connections: 10000,
        timeout_sec: 2,
        http_timeout_sec: 2,
        keep_alive_sec: 30,
        node_probe_interval_sec: 2,
        worker_threads,
    }
}

fn replied<T>(code: u16, status: &str, text: &str, parsed: Result<T, &str>) -> HttpReply<T> {
    HttpReply::Replied {
        code,
        status: status.to_string(),
        text: text.to_string(),
        parsed: parsed.map_err(|e| e.to_string()),
    }
}

fn body(text: &str) -> Result<String, &str> {
    Ok(text.to_string())
}

fn message<T>(outcome: Result<T, RZError>) -> String {
    match outcome {
        Ok(_) => panic!("an error was expected"),
        Err(e) => e.message(),
    }
}

#[test]
fn server_address() {
    assert_eq!(config(0).listen_addr(), "127.0.0.1:9000");
    let mut other = config(0);
    other.listen_host = "0.0.0.0".to_string();
    other.listen_port = 65535;
    assert_eq!(other.listen_addr(), "0.0.0.0:65535");
    other.listen_port = 0;
    assert_eq!(other.listen_addr(), "0.0.0.0:0");
}

#[test]
fn workers_by_setting_or_cores() {
    assert_eq!(worker_count(7, 4), 7);
    assert_eq!(worker_count(0, 4), 12);
    assert_eq!(worker_count(0, 1), 3);
    assert_eq!(worker_count(0, 0), 3);
    assert_eq!(worker_count(0, usize::MAX), usize::MAX);
    assert_eq!(config(5).effective_workers(), 5);
    let automatic = config(0).effective_workers();
    assert!(automatic >= 3);
    assert_eq!(automatic % 3, 0);
}

#[test]
fn white_space_is_that_of_unicode() {
    for n in 0..=0x10FFFFu32 {
        if let Some(c) = char::from_u32(n) {
            assert_eq!(char_is_white_space(c), c.is_whitespace(), "{:x}", n);
        }
    }
}

#[test]
fn texts_are_trimmed() {
    for text in ["", " ", "\t\n ", "a", " a b\u{3000}\n", "\u{85}x\u{a0}", "host-1\r\n"] {
        assert_eq!(trim(text), text.trim());
    }
    for text in ["", "/", "///", "a/", "a//", "/a", "http://x/"] {
        assert_eq!(trim_end_slashes(text), text.trim_end_matches('/'));
    }
    for text in ["", "https://", "https://h", "https://https://h", "http://h", "xhttps://"] {
        assert_eq!(trim_prefixes(text, "https://"), text.trim_start_matches("https://"));
    }
}

#[test]
fn texts_are_taken_apart_and_joined() {
    assert!(starts_with("http://a", "http://"));
    assert!(!starts_with("http:/", "http://"));
    assert!(starts_with("é", ""));
    assert_eq!(joined("é", "𝄞"), "é𝄞");
    assert_eq!(part("é𝄞x", 1, 3), "𝄞x");
    assert_eq!(characters("é𝄞"), vec!['é', '𝄞']);
    assert!(same_text("ab", "ab"));
    assert!(!same_text("ab", "aB"));
    let list = vec!["a".to_string(), "b".to_string()];
    assert_eq!(copy_texts(&list), list);
    assert!(lists_text(&list, &"b".to_string()));
    assert!(!lists_text(&list, &"c".to_string()));
}

#[test]
fn numbers_as_text() {
    for n in [0u64, 9, 10, 99, 100, 65535, 1234567890, u64::MAX] {
        assert_eq!(decimal_text(n), n.to_string());
    }
    for b in 0..=255u8 {
        assert_eq!(hex_byte_text(b), format!("{:02x}", b));
    }
}

#[test]
fn errors_are_told() {
    let text = || "why".to_string();
    assert_eq!(RZError::Cancelled.message(), "Operation cancelled");
    assert_eq!(RZError::Auth(text()).message(), "Authentication error: why");
    assert_eq!(RZError::Config(text()).message(), "Config error: why");
    assert_eq!(RZError::Validation(text()).message(), "Validation error: why");
    assert_eq!(RZError::ParseError(text()).message(), "Parse error: why");
    assert_eq!(RZError::System(text()).message(), "Internal error: why");
    assert_eq!(RZError::RoomzinUnreachable(text()).message(), "roomzin node unreachable: why");
    assert_eq!(RZError::NoLeaderAvailable.message(), "no leader found in cluster");
    assert_eq!(
        RZError::NoFollowerNodeAvailable.message(),
        "no follower node found in cluster"
    );
    assert_eq!(RZError::Http(text()).message(), "HTTP error: why");
    assert_eq!(RZError::Resolver(text()).message(), "Identity resolution error: why");
    assert_eq!(RZError::Timeout.message(), "Request timeout");
    assert_eq!(RZError::Request(text()).message(), "request failed: why");
    assert_eq!(RZError::Io(text()).message(), "internal error: why");
}

#[test]
fn codes_of_success() {
    for code in [200u16, 201, 299] {
        assert!(is_success(code));
    }
    for code in [0u16, 199, 300, 404, 500] {
        assert!(!is_success(code));
    }
}

#[test]
fn rzpoint_addresses() {
    let base = |address: &str| RzPointResolver::new(address, "s").base_url;
    assert_eq!(base("rzpoint:9090"), "http://rzpoint:9090");
    assert_eq!(base("rzpoint:9090//"), "http://rzpoint:9090");
    assert_eq!(base("http://rzpoint/"), "http://rzpoint");
    assert_eq!(base("https://rzpoint///"), "https://rzpoint");
    assert_eq!(base("http://"), "http:");
    assert_eq!(base(""), "http://");
}

#[test]
fn rzid_addresses() {
    let base = |address: &str| RzidClient::new(address, "b", "s", "z").base_url;
    assert_eq!(base("rzid:8080"), "http://rzid:8080");
    assert_eq!(base("rzid:8080/"), "http://rzid:8080");
    assert_eq!(base("http://rzid/"), "http://rzid");
    assert_eq!(base("https://rzid//"), "http://rzid");
    assert_eq!(base("https://https://rzid"), "http://rzid");
    assert_eq!(base("https://http://rzid"), "http://http://rzid");
    assert_eq!(base("http://http://rzid"), "http://http://rzid");
}

#[test]
fn hostname_is_the_trimmed_body() {
    let resolver = RzPointResolver::new("rzpoint", "shard1");
    let mut resolution = resolver.resolve("node-1");
    assert_eq!(resolution.url, "http://rzpoint/shards/shard1/nodes/node-1");
    match resolution.replied(replied(200, "200 OK", "", body(" host-1\n"))) {
        ResolveStep::Done(Ok(host)) => assert_eq!(host, "host-1"),
        _ => panic!("a hostname was expected"),
    }
}

#[test]
fn resolving_is_tried_three_times() {
    let resolver = RzPointResolver::new("rzpoint", "shard1");
    let mut resolution = resolver.resolve("node-1");
    let down = || HttpReply::Failed("no route".to_string());
    assert!(matches!(resolution.replied(down()), ResolveStep::RetryAfter(100)));
    let busy = replied(503, "503 Service Unavailable", "", body(""));
    assert!(matches!(resolution.replied(busy), ResolveStep::RetryAfter(200)));
    match resolution.replied(down()) {
        ResolveStep::Done(Err(RZError::Resolver(why))) => {
            assert_eq!(why, "Request failed: no route")
        }
        _ => panic!("an error was expected"),
    }
    let mut resolution = resolver.resolve("node-1");
    resolution.replied(down());
    resolution.replied(down());
    match resolution.replied(replied(500, "500 Internal Server Error", "", body("x"))) {
        ResolveStep::Done(Err(RZError::Resolver(why))) => {
            assert_eq!(why, "HTTP status: 500 Internal Server Error")
        }
        _ => panic!("an error was expected"),
    }
}

#[test]
fn late_success_resolves() {
    let mut resolution = RzPointResolver::new("rzpoint", "shard1").resolve("node-1");
    let down = || HttpReply::Failed("no route".to_string());
    resolution.replied(down());
    resolution.replied(down());
    match resolution.replied(replied(200, "200 OK", "", body("h"))) {
        ResolveStep::Done(Ok(host)) => assert_eq!(host, "h"),
        _ => panic!("a hostname was expected"),
    }
}

#[test]
fn unknown_and_unreadable_nodes_are_not_tried_again() {
    let resolver = RzPointResolver::new("rzpoint", "shard1");
    match resolver.resolve("node-1").replied(replied(404, "404 Not Found", "", body(""))) {
        ResolveStep::Done(Err(RZError::Resolver(why))) => {
            assert_eq!(why, "Node node-1 not found")
        }
        _ => panic!("an error was expected"),
    }
    match resolver.resolve("node-1").replied(replied(200, "200 OK", "", Err("cut off"))) {
        ResolveStep::Done(Err(RZError::Resolver(why))) => {
            assert_eq!(why, "Failed to read response: cut off")
        }
        _ => panic!("an error was expected"),
    }
}

#[test]
fn heartbeat_names_the_bridge() {
    let client = RzidClient::new("rzid:8080", "bridge-1", "shard1", "zone1");
    assert_eq!(client.register_url(), "http://rzid:8080/register");
    let request = client.register_request();
    assert_eq!(request.kind, "bridge");
    assert_eq!(request.id, "bridge-1");
    assert_eq!(request.zone, "zone1");
    assert_eq!(request.shard, Some("shard1".to_string()));
}

#[test]
fn heartbeat_replies() {
    let client = RzidClient::new("rzid", "bridge-1", "shard1", "zone1");
    assert!(client.send_heartbeat(replied(204, "204 No Content", "", Ok(()))).is_ok());
    assert_eq!(
        message(client.send_heartbeat(replied(400, "400 Bad Request", "who?", Ok(())))),
        "HTTP error: RZID heartbeat returned 400 Bad Request: who?"
    );
    assert_eq!(
        message(client.send_heartbeat(HttpReply::Failed("refused".to_string()))),
        "HTTP error: Failed to send heartbeat to RZID: refused"
    );
}

#[test]
fn shard_nodes_replies() {
    let client = RzidClient::new("rzid", "bridge-1", "shard1", "zone1");
    assert_eq!(client.nodes_url(), "http://rzid/shards/shard1/nodes");
    let nodes = || NodesResponse { nodes: vec!["n1".to_string(), "n2".to_string()] };
    match client.fetch_shard_nodes(replied(200, "200 OK", "", Ok(nodes()))) {
        Ok(ids) => assert_eq!(ids, vec!["n1".to_string(), "n2".to_string()]),
        Err(e) => panic!("{}", e.message()),
    }
    assert_eq!(
        message(client.fetch_shard_nodes(replied(404, "404 Not Found", "none", Ok(nodes())))),
        "HTTP error: RZID nodes query returned 404 Not Found: none"
    );
    assert_eq!(
        message(client.fetch_shard_nodes(replied(200, "200 OK", "", Err("no json")))),
        "HTTP error: Failed to parse nodes response: no json"
    );
    assert_eq!(
        message(client.fetch_shard_nodes(HttpReply::Failed("refused".to_string()))),
        "HTTP error: Failed to fetch shard nodes from RZID: refused"
    );
}

#[test]
fn token_is_loaded_once_and_reloaded() {
    let mut store = TokenStore::new();
    assert_eq!(store.debug_token(), None);
    assert_eq!(
        store.reload_token("x".to_string()),
        Err("Auth token not initialized".to_string())
    );
    assert_eq!(store.init_token("first".to_string()), Ok(()));
    assert_eq!(store.get_roomzin_token(), "first");
    assert_eq!(
        store.init_token("second".to_string()),
        Err("Token already loaded".to_string())
    );
    assert_eq!(store.get_roomzin_token(), "first");
    assert_eq!(store.reload_token("third".to_string()), Ok(()));
    assert_eq!(store.get_roomzin_token(), "third");
    assert_eq!(store.debug_token(), Some("roomzin_token: third".to_string()));
}

#[test]
fn auth_file_outcomes() {
    assert_eq!(
        load_auth_file(AuthFile::Unreadable("gone".to_string())),
        Err("Failed to read auth file: gone".to_string())
    );
    assert_eq!(
        load_auth_file(AuthFile::Unparsed("bad".to_string())),
        Err("Failed to parse auth file: bad".to_string())
    );
    assert_eq!(load_auth_file(AuthFile::Token("t".to_string())), Ok("t".to_string()));
}

#[test]
fn changed_file_is_read_until_it_loads() {
    let mut watcher = TokenWatcher::new(100);
    assert!(!watcher.is_stale(99));
    assert!(!watcher.is_stale(100));
    assert!(watcher.is_stale(101));
    watcher.reloaded(101, false);
    assert!(watcher.is_stale(101));
    watcher.reloaded(101, true);
    assert!(!watcher.is_stale(101));
}
