use bytes::{Bytes, BytesMut};
use rzbridge::config::Config;
use rzbridge::error::RZError;
use rzbridge::metrics::BridgeMetrics;
use rzbridge::protocol::{build_error_response, prepend_header};
use rzbridge::tcp_server::{
    after_read, answer, next_step, Answer, ConnectionLimits, ReadOutcome, RouterLink, StreamStep,
    TcpServer,
};

const LIMITS: ConnectionLimits = ConnectionLimits {
    max_buffer_size: 1000,
    max_frame_size: 200,
    frame_timeout_nanos: 5000,
};

fn config(max_connections: usize) -> Config {
    Config {
        zone_id: "zone1".to_string(),
        shard_id: "shard1".to_string(),
        bridge_id: "bridge-1".to_string(),
        rzid_addr: "rzid".to_string(),
        rzpoint_addr: "rzpoint".to_string(),
        roomzin_api_port: 8080,
        roomzin_tcp_port: 7777,
        rzid_heartbeat_interval_secs: 10,
        listen_host: "0.0.0.0".to_string(),
        listen_port: 9000,
        conn_per_roomzin_node: 1,
        max_active_conns: 10000,
        max_connections,
        timeout_sec: 2,
        http_timeout_sec: 2,
        keep_alive_sec: 30,
        node_probe_interval_sec: 2,
        worker_threads: 0,
    }
}

fn router_frame(segment: &[u8], flag: u8, shard: &[u8]) -> Vec<u8> {
    let len = 2 + segment.len() + shard.len();
    let mut out = vec![0xFE];
    out.extend_from_slice(&(len as u32).to_le_bytes());
    out.push(segment.len() as u8);
    out.extend_from_slice(segment);
    out.push(flag);
    out.extend_from_slice(shard);
    out
}

fn counted(counts: &BridgeMetrics) -> Vec<(&'static str, u64)> {
    let named = counts.counters();
    named
        .into_iter()
        .filter(|(_, n)| *n > 0)
        .map(|(name, n)| (name, n))
        .collect()
}

#[test]
fn connections_up_to_the_limit() {
    let mut server = TcpServer::new(config(2));
    assert_eq!(server.active_connections, 0);
    assert!(server.accept());
    assert!(server.accept());
    assert!(!server.accept());
    assert_eq!(server.active_connections, 2);
    server.release();
    assert_eq!(server.active_connections, 1);
    assert!(server.accept());
    assert!(!server.accept());
    assert_eq!(server.config.max_connections, 2);
}

#[test]
fn limit_of_zero_takes_none() {
    let mut server = TcpServer::new(config(0));
    assert!(!server.accept());
    assert_eq!(server.active_connections, 0);
}

#[test]
fn reads_decide_on_the_connection() {
    let (lives, counts) = after_read(ReadOutcome::Received(17));
    assert!(lives);
    assert_eq!(counted(&counts), vec![("rzbridge_bytes_received_total", 17)]);
    let (lives, counts) = after_read(ReadOutcome::Received(0));
    assert!(!lives);
    assert!(counted(&counts).is_empty());
    let (lives, counts) = after_read(ReadOutcome::Failed);
    assert!(!lives);
    assert!(counted(&counts).is_empty());
    let (lives, counts) = after_read(ReadOutcome::IdleTimeout);
    assert!(!lives);
    assert_eq!(counted(&counts), vec![("rzbridge_timeouts_total", 1)]);
}

#[test]
fn requests_are_executed_in_order() {
    let first = prepend_header(1, &[1]);
    let second = prepend_header(2, &[2, 2]);
    let mut buf = BytesMut::new();
    buf.extend_from_slice(&router_frame(b"hotels", 1, &first));
    buf.extend_from_slice(&router_frame(b"hotels", 0, &second));
    match next_step(&mut buf, &LIMITS, 0) {
        (StreamStep::Execute { is_write, shard_frame, original_clrid }, counts) => {
            assert!(is_write);
            assert_eq!(shard_frame, first);
            assert_eq!(original_clrid, 1);
            assert_eq!(counted(&counts), vec![("rzbridge_frames_received_total", 1)]);
        }
        _ => panic!("a request was expected"),
    }
    match next_step(&mut buf, &LIMITS, 0) {
        (StreamStep::Execute { is_write, shard_frame, original_clrid }, _) => {
            assert!(!is_write);
            assert_eq!(shard_frame, second);
            assert_eq!(original_clrid, 2);
        }
        _ => panic!("a request was expected"),
    }
    assert!(buf.is_empty());
    assert!(matches!(next_step(&mut buf, &LIMITS, 0).0, StreamStep::ReadMore));
}

#[test]
fn requests_arrive_byte_by_byte() {
    let mut sent = router_frame(b"__keepalive__", 0, &[0xFF, 0, 0, 0, 0]);
    sent.extend_from_slice(&router_frame(b"hotels", 1, &prepend_header(1, &[1])));
    sent.extend_from_slice(&router_frame(b"hotels", 0, &prepend_header(2, &[])));
    let mut buf = BytesMut::new();
    let mut taken = Vec::new();
    for byte in sent {
        buf.extend_from_slice(&[byte]);
        let before = buf.to_vec();
        match next_step(&mut buf, &LIMITS, 0).0 {
            StreamStep::ReadMore => assert_eq!(buf.to_vec(), before),
            StreamStep::Keepalive => taken.push((0, false)),
            StreamStep::Execute { is_write, original_clrid, .. } => {
                taken.push((original_clrid, is_write))
            }
            _ => panic!("a request or a wait was expected"),
        }
    }
    assert!(buf.is_empty());
    assert_eq!(taken, vec![(0, false), (1, true), (2, false)]);
}

#[test]
fn keepalives_are_taken() {
    let mut buf = BytesMut::new();
    buf.extend_from_slice(&router_frame(b"__keepalive__", 0, &[0xFF, 0, 0, 0, 0]));
    buf.extend_from_slice(&[0xFE]);
    let (step, counts) = next_step(&mut buf, &LIMITS, 0);
    assert!(matches!(step, StreamStep::Keepalive));
    assert_eq!(
        counted(&counts),
        vec![
            ("rzbridge_frames_received_total", 1),
            ("rzbridge_keepalives_received_total", 1)
        ]
    );
    assert_eq!(buf.to_vec(), vec![0xFE]);
}

#[test]
fn slow_frames_close_the_connection() {
    let mut buf = BytesMut::from(&[0xFEu8, 9][..]);
    assert!(matches!(next_step(&mut buf, &LIMITS, 5000).0, StreamStep::ReadMore));
    let (step, counts) = next_step(&mut buf, &LIMITS, 5001);
    assert!(matches!(step, StreamStep::Close));
    assert_eq!(counted(&counts), vec![("rzbridge_timeouts_total", 1)]);
    assert_eq!(buf.len(), 2);
}

#[test]
fn frames_restart_the_wait() {
    let mut link = RouterLink::new(LIMITS, 100);
    let mut buf = BytesMut::new();
    assert!(matches!(link.step(&mut buf, 5100).0, StreamStep::ReadMore));
    assert_eq!(link.last_frame_nanos, 100);
    buf.extend_from_slice(&router_frame(b"__keepalive__", 0, &[0xFF, 0, 0, 0, 0]));
    assert!(matches!(link.step(&mut buf, 9000).0, StreamStep::Keepalive));
    assert_eq!(link.last_frame_nanos, 9000);
    assert!(matches!(link.step(&mut buf, 14000).0, StreamStep::ReadMore));
    buf.extend_from_slice(&router_frame(b"s", 0, &prepend_header(1, &[])));
    assert!(matches!(link.step(&mut buf, 14001).0, StreamStep::Execute { .. }));
    assert_eq!(link.last_frame_nanos, 14001);
    assert!(matches!(link.step(&mut buf, 19002).0, StreamStep::Close));
    assert!(matches!(link.step(&mut buf, 0).0, StreamStep::ReadMore));
}

#[test]
fn large_buffers_and_frames_close_the_connection() {
    let mut buf = BytesMut::from(&[0u8; 1001][..]);
    let (step, counts) = next_step(&mut buf, &LIMITS, 0);
    assert!(matches!(step, StreamStep::Close));
    assert_eq!(counted(&counts), vec![("rzbridge_client_errors_total", 1)]);
    let fitting = router_frame(b"", 0, &prepend_header(1, &[7; 184]));
    assert_eq!(fitting.len(), 200);
    let mut buf = BytesMut::from(&fitting[..]);
    assert!(matches!(next_step(&mut buf, &LIMITS, 0).0, StreamStep::Execute { .. }));
    let large = router_frame(b"", 0, &prepend_header(1, &[7; 185]));
    let mut buf = BytesMut::from(&large[..]);
    let (step, counts) = next_step(&mut buf, &LIMITS, 0);
    assert!(matches!(step, StreamStep::Close));
    assert_eq!(counted(&counts), vec![("rzbridge_client_errors_total", 1)]);
    assert_eq!(buf.len(), 201);
}

#[test]
fn garbage_before_a_frame_is_skipped() {
    let frame = router_frame(b"s", 1, &prepend_header(5, &[]));
    let mut buf = BytesMut::new();
    buf.extend_from_slice(&[1, 2, 3]);
    buf.extend_from_slice(&frame);
    let (step, counts) = next_step(&mut buf, &LIMITS, 0);
    assert!(matches!(step, StreamStep::Resynced));
    assert_eq!(
        counted(&counts),
        vec![("rzbridge_client_errors_total", 1), ("rzbridge_resyncs_total", 1)]
    );
    assert_eq!(buf.to_vec(), frame);
    assert!(matches!(next_step(&mut buf, &LIMITS, 0).0, StreamStep::Execute { .. }));
}

#[test]
fn garbage_without_a_frame_is_cut() {
    let mut buf = BytesMut::from(&[7u8; 65][..]);
    assert!(matches!(next_step(&mut buf, &LIMITS, 0).0, StreamStep::ReadMore));
    assert_eq!(buf.len(), 64);
    let mut long: Vec<u8> = (0..66).collect();
    let mut buf = BytesMut::from(&long[..]);
    assert!(matches!(next_step(&mut buf, &LIMITS, 0).0, StreamStep::ReadMore));
    assert_eq!(buf.to_vec(), long.split_off(58));
}

#[test]
fn bad_frame_gives_way_to_the_next() {
    let good = router_frame(b"s", 0, &prepend_header(5, &[]));
    let mut buf = BytesMut::new();
    buf.extend_from_slice(&[0xFE, 0, 0, 0, 0]);
    buf.extend_from_slice(&good);
    assert!(matches!(next_step(&mut buf, &LIMITS, 0).0, StreamStep::Resynced));
    assert_eq!(buf.to_vec(), good);
}

#[test]
fn responses_go_back_as_they_are() {
    let response = Bytes::from(vec![0xFF, 1, 2, 3]);
    match answer(9, Ok(response)) {
        (Answer::Response(bytes), counts) => {
            assert_eq!(bytes.to_vec(), vec![0xFF, 1, 2, 3]);
            assert_eq!(
                counted(&counts),
                vec![("rzbridge_frames_executed_total", 1), ("rzbridge_bytes_sent_total", 4)]
            );
        }
        _ => panic!("a response was expected"),
    }
}

#[test]
fn failed_requests_are_told() {
    match answer(9, Err(RZError::Timeout)) {
        (Answer::Failure(frame), counts) => {
            assert_eq!(frame, build_error_response(9, 4));
            assert_eq!(counted(&counts), vec![("rzbridge_execute_errors_total", 1)]);
        }
        _ => panic!("a failure was expected"),
    }
}

#[test]
fn counts_of_a_connection_add_up() {
    let mut link = RouterLink::new(LIMITS, 0);
    let mut buf = BytesMut::new();
    let mut sent = vec![1, 2, 3];
    sent.extend_from_slice(&router_frame(b"__keepalive__", 0, &[0xFF, 0, 0, 0, 0]));
    sent.extend_from_slice(&router_frame(b"s", 0, &prepend_header(1, &[])));
    sent.extend_from_slice(&router_frame(b"s", 1, &prepend_header(2, &[])));
    let mut total = after_read(ReadOutcome::Received(sent.len())).1.counters();
    buf.extend_from_slice(&sent);
    let mut add = |counts: &BridgeMetrics| {
        for (sum, (_, n)) in total.iter_mut().zip(counts.counters()) {
            sum.1 += n;
        }
    };
    loop {
        let (step, counts) = link.step(&mut buf, 0);
        add(&counts);
        match step {
            StreamStep::Execute { original_clrid: 1, .. } => {
                add(&answer(1, Ok(Bytes::from(vec![7; 12]))).1)
            }
            StreamStep::Execute { .. } => add(&answer(2, Err(RZError::Timeout)).1),
            StreamStep::ReadMore => break,
            _ => {}
        }
    }
    let of = |name: &str| total.iter().find(|(n, _)| *n == name).map(|(_, v)| *v);
    assert_eq!(of("rzbridge_bytes_received_total"), Some(sent.len() as u64));
    assert_eq!(of("rzbridge_frames_received_total"), Some(3));
    assert_eq!(of("rzbridge_keepalives_received_total"), Some(1));
    assert_eq!(of("rzbridge_frames_executed_total"), Some(1));
    assert_eq!(of("rzbridge_execute_errors_total"), Some(1));
    assert_eq!(of("rzbridge_bytes_sent_total"), Some(12));
    assert_eq!(of("rzbridge_resyncs_total"), Some(1));
    assert_eq!(of("rzbridge_client_errors_total"), Some(1));
}

#[test]
fn published_counters() {
    let counts = BridgeMetrics {
        connections_opened: 1,
        connections_closed: 2,
        frames_received: 3,
        frames_executed: 4,
        bytes_received: 5,
        bytes_sent: 6,
        keepalives_received: 7,
        client_errors: 8,
        execute_errors: 9,
        timeouts: 10,
        resyncs: 11,
    };
    assert_eq!(
        counts.counters(),
        vec![
            ("rzbridge_connections_opened_total", 1),
            ("rzbridge_connections_closed_total", 2),
            ("rzbridge_frames_received_total", 3),
            ("rzbridge_frames_executed_total", 4),
            ("rzbridge_bytes_received_total", 5),
            ("rzbridge_bytes_sent_total", 6),
            ("rzbridge_keepalives_received_total", 7),
            ("rzbridge_client_errors_total", 8),
            ("rzbridge_execute_errors_total", 9),
            ("rzbridge_timeouts_total", 10),
            ("rzbridge_resyncs_total", 11),
        ]
    );
    assert!(BridgeMetrics::new().counters().iter().all(|(_, n)| *n == 0));
}
