use bytes::Bytes;
use rzbridge::cluster_handler::{ClusterHandler, NodeConns};
use rzbridge::config::Config;
use rzbridge::error::RZError;
use rzbridge::execution::{AttemptStart, Execution, Failure, Retry};
use rzbridge::pool::{Connection, FollowerPool};
use rzbridge::protocol::prepend_header;

fn config(conn_per_roomzin_node: usize) -> Config {
    Config {
        zone_id: "zone1".to_string(),
        shard_id: "shard1".to_string(),
        bridge_id: "bridge-1".to_string(),
        rzid_addr: "rzid".to_string(),
        rzpoint_addr: "rzpoint".to_string(),
        roomzin_api_port: 8080,
        roomzin_tcp_port: 7777,
        rzid_heartbeat_interval_secs: 10,
        listen_host: "0.0.0.0".to_string(),
        listen_port: 9000,
        conn_per_roomzin_node,
        max_active_conns: 10000,
        max_connections: 10000,
        timeout_sec: 2,
        http_timeout_sec: 2,
        keep_alive_sec: 30,
        node_probe_interval_sec: 2,
        worker_threads: 0,
    }
}

fn open(id: u64) -> Connection {
    Connection { id, closed: false }
}

fn node(name: &str, ids: &[u64]) -> NodeConns {
    NodeConns { name: name.to_string(), conns: ids.iter().map(|id| open(*id)).collect() }
}

fn read(handler: &mut ClusterHandler) -> Option<u64> {
    handler.next_conn(false).conn.map(|c| c.id)
}

fn write(handler: &mut ClusterHandler) -> Option<u64> {
    handler.next_conn(true).conn.map(|c| c.id)
}

fn names(list: &[&str]) -> Vec<String> {
    list.iter().map(|n| n.to_string()).collect()
}

fn sync(handler: &mut ClusterHandler, topology: &[&str], new_conns: &Vec<NodeConns>) {
    handler.sync_followers(&names(topology), new_conns);
}

fn plan(handler: &ClusterHandler, topology: &[&str]) -> Vec<(String, u32)> {
    let mut plan = handler.required_conns(&names(topology));
    plan.sort();
    plan
}

#[test]
fn new_handler_serves_nobody() {
    let mut handler = ClusterHandler::new(&config(2));
    assert_eq!(write(&mut handler), None);
    assert_eq!(read(&mut handler), None);
    assert!(handler.needs_sync());
}

#[test]
fn leader_connections_take_turns() {
    let mut handler = ClusterHandler::new(&config(3));
    assert_eq!(handler.sync_leader("lead".to_string()), vec![0, 1, 2]);
    for i in 0..3 {
        handler.leader_connected("lead".to_string(), i, open(10 + i as u64));
    }
    let picks: Vec<Option<u64>> = (0..6).map(|_| write(&mut handler)).collect();
    assert_eq!(
        picks,
        vec![Some(11), Some(12), Some(10), Some(11), Some(12), Some(10)]
    );
}

#[test]
fn closed_leader_connections_are_passed_over() {
    let mut handler = ClusterHandler::new(&config(3));
    handler.sync_leader("lead".to_string());
    for i in 0..3 {
        handler.leader_connected("lead".to_string(), i, open(10 + i as u64));
    }
    handler.observe_closed(&vec![11]);
    let pick = handler.next_leader_conn();
    assert_eq!(pick.conn.map(|c| c.id), Some(12));
    assert_eq!(pick.closed.iter().map(|c| c.id).collect::<Vec<u64>>(), vec![11]);
    assert_eq!(handler.sync_leader("lead".to_string()), vec![1]);
    handler.observe_closed(&vec![10, 12]);
    let pick = handler.next_leader_conn();
    assert!(pick.conn.is_none());
    assert_eq!(pick.closed.iter().map(|c| c.id).collect::<Vec<u64>>(), vec![10, 11, 12]);
    assert_eq!(handler.sync_leader("lead".to_string()), vec![0, 1, 2]);
}

#[test]
fn new_leader_has_no_connections() {
    let mut handler = ClusterHandler::new(&config(2));
    handler.sync_leader("a".to_string());
    handler.leader_connected("a".to_string(), 0, open(1));
    handler.leader_connected("a".to_string(), 1, open(2));
    assert_eq!(handler.sync_leader("a".to_string()), Vec::<usize>::new());
    assert_eq!(write(&mut handler), Some(2));
    assert_eq!(handler.sync_leader("b".to_string()), vec![0, 1]);
    assert_eq!(write(&mut handler), None);
}

#[test]
fn followers_and_their_connections_take_turns() {
    let mut handler = ClusterHandler::new(&config(2));
    assert_eq!(
        plan(&handler, &["a", "b"]),
        vec![("a".to_string(), 2), ("b".to_string(), 2)]
    );
    sync(&mut handler, &["a", "b"], &vec![node("a", &[1, 2]), node("b", &[3, 4])]);
    // The first node that is placed gets the last number.
    let picks: Vec<Option<u64>> = (0..8).map(|_| read(&mut handler)).collect();
    assert_eq!(
        picks,
        vec![
            Some(1),
            Some(3),
            Some(2),
            Some(4),
            Some(1),
            Some(3),
            Some(2),
            Some(4)
        ]
    );
    assert!(plan(&handler, &["a", "b"]).is_empty());
}

#[test]
fn closed_follower_connections_leave() {
    let mut handler = ClusterHandler::new(&config(2));
    sync(&mut handler, &["a", "b"], &vec![node("a", &[1, 2]), node("b", &[3, 4])]);
    handler.observe_closed(&vec![1]);
    let pick = handler.next_follower_conn();
    assert_eq!(pick.conn.map(|c| c.id), Some(2));
    assert_eq!(pick.closed.iter().map(|c| c.id).collect::<Vec<u64>>(), vec![1]);
    assert_eq!(plan(&handler, &["a", "b"]), vec![("a".to_string(), 1)]);
    sync(&mut handler, &["a", "b"], &vec![node("a", &[9])]);
    assert_eq!(read(&mut handler), Some(3));
    assert_eq!(read(&mut handler), Some(9));
    assert_eq!(read(&mut handler), Some(4));
    assert_eq!(read(&mut handler), Some(2));
}

#[test]
fn reads_go_on_while_one_follower_is_down() {
    let mut handler = ClusterHandler::new(&config(1));
    sync(&mut handler, &["a", "b", "c"], &vec![node("a", &[1]), node("b", &[2]), node("c", &[3])]);
    handler.observe_closed(&vec![1, 3]);
    for _ in 0..5 {
        assert_eq!(read(&mut handler), Some(2));
    }
    handler.observe_closed(&vec![2]);
    let pick = handler.next_follower_conn();
    assert!(pick.conn.is_none());
    assert_eq!(pick.closed.len(), 1);
    assert_eq!(pick.closed[0].id, 2);
}

#[test]
fn known_node_keeps_its_number() {
    let mut handler = ClusterHandler::new(&config(1));
    sync(&mut handler, &["a", "b"], &vec![node("a", &[1]), node("b", &[2])]);
    handler.observe_closed(&vec![1]);
    assert_eq!(read(&mut handler), Some(2));
    assert_eq!(read(&mut handler), Some(2));
    assert_eq!(plan(&handler, &["a", "b"]), vec![("a".to_string(), 1)]);
    sync(&mut handler, &["a", "b"], &vec![node("a", &[7])]);
    assert_eq!(read(&mut handler), Some(7));
    assert_eq!(read(&mut handler), Some(2));
}

#[test]
fn connections_to_unlisted_hosts_are_dropped() {
    let mut handler = ClusterHandler::new(&config(1));
    sync(&mut handler, &["a"], &vec![node("a", &[1]), node("b", &[2])]);
    assert_eq!(read(&mut handler), Some(1));
    assert_eq!(read(&mut handler), Some(1));
    assert!(!handler.holds(2));
    assert_eq!(plan(&handler, &["a", "b"]), vec![("b".to_string(), 1)]);
}

#[test]
fn one_reachable_follower_is_enough() {
    let mut handler = ClusterHandler::new(&config(1));
    sync(&mut handler, &["a", "b"], &vec![node("a", &[1])]);
    assert_eq!(read(&mut handler), Some(1));
    assert_eq!(read(&mut handler), Some(1));
    let mut handler = ClusterHandler::new(&config(1));
    sync(&mut handler, &["a", "b", "c"], &vec![node("a", &[1])]);
    assert_eq!(read(&mut handler), Some(1));
    sync(&mut handler, &["a", "b", "c"], &vec![node("b", &[2]), node("c", &[3])]);
    let mut picks: Vec<Option<u64>> = (0..3).map(|_| read(&mut handler)).collect();
    picks.sort();
    assert_eq!(picks, vec![Some(1), Some(2), Some(3)]);
}

#[test]
fn host_that_left_the_topology_leaves_the_pool() {
    let mut handler = ClusterHandler::new(&config(2));
    sync(&mut handler, &["a", "b"], &vec![node("a", &[1, 2]), node("b", &[3])]);
    assert_eq!(plan(&handler, &["b", "c"]), vec![("b".to_string(), 1), ("c".to_string(), 2)]);
    sync(&mut handler, &["b", "c"], &vec![node("c", &[5, 6])]);
    assert!(!handler.holds(1));
    assert!(!handler.holds(2));
    assert!(handler.holds(3));
    let mut picks: Vec<u64> = (0..6).filter_map(|_| read(&mut handler)).collect();
    picks.sort();
    picks.dedup();
    assert_eq!(picks, vec![3, 5, 6]);
    sync(&mut handler, &[], &vec![]);
    assert_eq!(read(&mut handler), None);
    assert!(!handler.holds(3));
}

#[test]
fn freed_number_serves_a_new_host() {
    let mut handler = ClusterHandler::new(&config(1));
    sync(&mut handler, &["a", "b"], &vec![node("a", &[1]), node("b", &[2])]);
    handler.observe_closed(&vec![1]);
    assert_eq!(read(&mut handler), Some(2));
    sync(&mut handler, &["b", "c"], &vec![node("c", &[3])]);
    let mut picks: Vec<Option<u64>> = (0..2).map(|_| read(&mut handler)).collect();
    picks.sort();
    assert_eq!(picks, vec![Some(2), Some(3)]);
    sync(&mut handler, &["a", "b", "c"], &vec![node("a", &[4])]);
    let mut picks: Vec<Option<u64>> = (0..3).map(|_| read(&mut handler)).collect();
    picks.sort();
    assert_eq!(picks, vec![Some(2), Some(3), Some(4)]);
}

#[test]
fn lost_follower_is_connected_again() {
    let mut handler = ClusterHandler::new(&config(1));
    sync(&mut handler, &["a"], &vec![node("a", &[1])]);
    assert!(plan(&handler, &["a"]).is_empty());
    handler.observe_closed(&vec![1]);
    assert!(handler.needs_sync());
    assert_eq!(handler.missing_conns(&"a".to_string()), 1);
    assert_eq!(plan(&handler, &["a"]), vec![("a".to_string(), 1)]);
    sync(&mut handler, &["a"], &vec![node("a", &[2])]);
    assert!(!handler.holds(1));
    assert_eq!(read(&mut handler), Some(2));
    let mut handler = ClusterHandler::new(&config(3));
    sync(&mut handler, &["a"], &vec![node("a", &[1, 2, 3])]);
    handler.observe_closed(&vec![2]);
    assert_eq!(plan(&handler, &["a"]), vec![("a".to_string(), 1)]);
}

#[test]
fn full_turn_takes_each_connection_once() {
    let mut handler = ClusterHandler::new(&config(3));
    let news = vec![node("a", &[10, 11, 12]), node("b", &[20, 21, 22])];
    sync(&mut handler, &["a", "b"], &news);
    read(&mut handler);
    let picks: Vec<u64> = (0..6).filter_map(|_| read(&mut handler)).collect();
    for pair in picks.windows(2) {
        assert_ne!(pair[0] / 10, pair[1] / 10);
    }
    let mut sorted = picks.clone();
    sorted.sort();
    assert_eq!(sorted, vec![10, 11, 12, 20, 21, 22]);
}

#[test]
fn rotation_goes_by_number() {
    // The first host that is placed gets the highest free number, and the
    // first read goes behind number 0.
    let mut handler = ClusterHandler::new(&config(1));
    let news = vec![node("a", &[1]), node("b", &[2]), node("c", &[3])];
    sync(&mut handler, &["a", "b", "c"], &news);
    let picks: Vec<Option<u64>> = (0..4).map(|_| read(&mut handler)).collect();
    assert_eq!(picks, vec![Some(2), Some(1), Some(3), Some(2)]);
}

#[test]
fn sync_is_needed_without_a_leader_or_a_follower() {
    let mut handler = ClusterHandler::new(&config(1));
    handler.sync_leader("l".to_string());
    handler.leader_connected("l".to_string(), 0, open(1));
    assert!(handler.needs_sync());
    sync(&mut handler, &["a"], &vec![node("a", &[2])]);
    assert!(!handler.needs_sync());
    handler.observe_closed(&vec![2]);
    assert!(handler.needs_sync());
    sync(&mut handler, &["a"], &vec![node("a", &[3])]);
    assert!(!handler.needs_sync());
    handler.observe_closed(&vec![1]);
    assert!(handler.needs_sync());
}

#[test]
fn held_connections() {
    let mut handler = ClusterHandler::new(&config(1));
    handler.sync_leader("l".to_string());
    handler.leader_connected("l".to_string(), 0, open(1));
    sync(&mut handler, &["a"], &vec![node("a", &[2]), node("b", &[3])]);
    assert!(handler.holds(1));
    assert!(handler.holds(2));
    assert!(!handler.holds(3));
    assert_eq!(handler.missing_conns(&"a".to_string()), 0);
    assert_eq!(handler.missing_conns(&"b".to_string()), 1);
    handler.sync_leader("m".to_string());
    assert!(!handler.holds(1));
    handler.observe_closed(&vec![2]);
    assert!(handler.holds(2));
    read(&mut handler);
    assert!(!handler.holds(2));
}

#[test]
fn attempts_take_the_right_connection() {
    let mut handler = ClusterHandler::new(&config(1));
    handler.sync_leader("l".to_string());
    handler.leader_connected("l".to_string(), 0, open(1));
    sync(&mut handler, &["a"], &vec![node("a", &[2])]);
    let mut run = started(true, prepend_header(1, &[]));
    match handler.next_attempt(&mut run) {
        (AttemptStart::Send(conn), closed) => {
            assert_eq!(conn.id, 1);
            assert!(closed.is_empty());
            assert_eq!(run.attempts, 0);
        }
        _ => panic!("a connection was expected"),
    }
    handler.observe_closed(&vec![2]);
    let mut run = started(false, prepend_header(1, &[]));
    match handler.next_attempt(&mut run) {
        (AttemptStart::Failed(Retry::After(100)), closed) => {
            assert_eq!(closed.len(), 1);
            assert_eq!(closed[0].id, 2);
            assert_eq!(run.attempts, 1);
        }
        _ => panic!("another attempt was expected"),
    }
    assert!(matches!(
        handler.next_attempt(&mut run).0,
        AttemptStart::Failed(Retry::After(150))
    ));
    assert!(matches!(
        handler.next_attempt(&mut run).0,
        AttemptStart::Failed(Retry::GiveUp(RZError::NoFollowerNodeAvailable))
    ));
}

#[test]
fn one_sync_at_a_time() {
    let mut handler = ClusterHandler::new(&config(1));
    assert!(handler.begin_sync());
    assert!(!handler.begin_sync());
    handler.end_sync();
    assert!(handler.begin_sync());
}

#[test]
fn handler_without_slots() {
    let mut handler = ClusterHandler::new(&config(0));
    assert_eq!(handler.sync_leader("l".to_string()), Vec::<usize>::new());
    assert!(plan(&handler, &["a"]).is_empty());
    assert_eq!(write(&mut handler), None);
    assert_eq!(read(&mut handler), None);
}

#[test]
fn pool_keeps_one_connection_for_each_slot() {
    let mut pool = FollowerPool::new();
    let (a, b) = ("a".to_string(), "b".to_string());
    assert!(!pool.any_open());
    pool.insert(&a, 0, open(1));
    pool.insert(&a, 1, open(2));
    pool.insert(&b, 0, open(3));
    pool.insert(&a, 0, open(4));
    assert_eq!(pool.get(&a, 0).map(|c| c.id), Some(4));
    assert_eq!(pool.get(&a, 1).map(|c| c.id), Some(2));
    assert_eq!(pool.get(&b, 0).map(|c| c.id), Some(3));
    assert!(pool.get(&b, 1).is_none());
    assert!(pool.holds(3));
    pool.remove(&b, 0);
    pool.remove(&b, 7);
    assert!(!pool.holds(3));
    assert!(pool.get(&b, 0).is_none());
    assert!(pool.any_open());
    pool.observe_closed(&vec![2, 4]);
    assert!(!pool.any_open());
    assert!(pool.get(&a, 1).map(|c| c.is_closed()).unwrap_or(false));
    pool.insert(&b, 0, open(5));
    pool.keep_hosts(&names(&["b", "c"]));
    assert!(pool.get(&a, 0).is_none());
    assert!(pool.get(&a, 1).is_none());
    assert_eq!(pool.get(&b, 0).map(|c| c.id), Some(5));
}

fn started(is_write: bool, frame: Vec<u8>) -> Execution {
    let handler = ClusterHandler::new(&config(1));
    match handler.execute(is_write, frame) {
        Ok(run) => run,
        Err(e) => panic!("{}", e.message()),
    }
}

#[test]
fn requests_must_be_shard_frames() {
    let handler = ClusterHandler::new(&config(1));
    for frame in [vec![], vec![0xFF; 8], vec![0xFE; 9]] {
        match handler.execute(true, frame) {
            Err(RZError::Validation(what)) => assert_eq!(what, "invalid shard frame"),
            _ => panic!("a validation error was expected"),
        }
    }
    assert!(handler.execute(true, vec![0xFF; 9]).is_ok());
}

#[test]
fn requests_travel_under_the_bridges_ids() {
    let frame = prepend_header(0x01020304, &[7, 8]);
    let mut run = started(true, frame.clone());
    assert_eq!(run.original_clrid, 0x01020304);
    assert_eq!(run.under(0xAABBCCDD), prepend_header(0xAABBCCDD, &[7, 8]));
    assert_eq!(run.under(5), prepend_header(5, &[7, 8]));
    let back = run.finish(Bytes::from(prepend_header(5, &[7, 8])));
    assert_eq!(back.to_vec(), frame);
}

#[test]
fn responses_come_back_under_the_requests_id() {
    let run = started(false, prepend_header(0x0A0B0C0D, &[1]));
    let response = prepend_header(99, &[2, b'O', b'K', 0, 0]);
    let back = run.finish(Bytes::from(response));
    assert_eq!(back.to_vec(), prepend_header(0x0A0B0C0D, &[2, b'O', b'K', 0, 0]));
    let short = run.finish(Bytes::from(vec![0xFF, 1, 2, 3, 4, 5, 6, 7]));
    assert_eq!(short.to_vec(), vec![0xFF, 1, 2, 3, 4, 5, 6, 7]);
}

#[test]
fn three_failures_end_a_request() {
    let give_up = |is_write: bool, last: Failure| {
        let mut run = started(is_write, prepend_header(1, &[]));
        assert!(matches!(run.failed(Failure::NoResponse), Retry::After(100)));
        assert!(matches!(run.failed(Failure::SendFailed), Retry::After(150)));
        match run.failed(last) {
            Retry::GiveUp(e) => e,
            _ => panic!("the end was expected"),
        }
    };
    assert!(matches!(give_up(true, Failure::NoConnection), RZError::NoLeaderAvailable));
    assert!(matches!(give_up(false, Failure::NoConnection), RZError::NoFollowerNodeAvailable));
    assert!(matches!(give_up(true, Failure::SendFailed), RZError::Timeout));
    assert!(matches!(give_up(false, Failure::NoResponse), RZError::Timeout));
}
