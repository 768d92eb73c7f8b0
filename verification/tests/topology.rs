use rzbridge::discovery::{new_peers, DiscoveryStep, TopologyDiscovery};
use rzbridge::error::RZError;
use rzbridge::http::HttpReply;
use rzbridge::topology::{
    elect, ClusterTopology, NodeClient, NodeData, NodeInfo, ProbedNode, ResolvedNode,
};

fn data(host: &str, health: &str, leader_id: &str) -> NodeData {
    NodeData {
        host: host.to_string(),
        health: health.to_string(),
        leader_id: leader_id.to_string(),
    }
}

fn probed(id: &str, host: &str, health: &str, leader_id: &str, peers: &[&str]) -> ProbedNode {
    ProbedNode { node_id: id.to_string(), data: data(host, health, leader_id), peers: ids(peers) }
}

fn ids(list: &[&str]) -> Vec<String> {
    list.iter().map(|s| s.to_string()).collect()
}

fn replied<T>(code: u16, status: &str, parsed: Result<T, &str>) -> HttpReply<T> {
    HttpReply::Replied {
        code,
        status: status.to_string(),
        text: String::new(),
        parsed: parsed.map_err(|e| e.to_string()),
    }
}

fn found(outcome: Result<ClusterTopology, RZError>) -> (String, Vec<String>) {
    match outcome {
        Ok(topology) => (topology.leader, topology.followers),
        Err(e) => panic!("{}", e.message()),
    }
}

fn probe(step: DiscoveryStep) -> Vec<String> {
    match step {
        DiscoveryStep::Probe(ids) => ids,
        _ => panic!("a probe was expected"),
    }
}

fn done(step: DiscoveryStep) -> Result<ClusterTopology, RZError> {
    match step {
        DiscoveryStep::Done(outcome) => outcome,
        _ => panic!("the end was expected"),
    }
}

#[test]
fn node_urls() {
    let client = NodeClient::new(8080);
    assert_eq!(client.health_url("h1"), "http://h1:8080/healthz");
    assert_eq!(client.node_info_url("h1"), "http://h1:8080/node-info");
    assert_eq!(client.peers_url("h1"), "http://h1:8080/peers");
}

#[test]
fn health_replies() {
    let client = NodeClient::new(8080);
    match client.health(replied(200, "200 OK", Ok(" active_leader \n".to_string()))) {
        Ok(health) => assert_eq!(health, "active_leader"),
        Err(e) => panic!("{}", e.message()),
    }
    let failing = |reply: HttpReply<String>| match client.health(reply) {
        Ok(_) => panic!("an error was expected"),
        Err(e) => e.message(),
    };
    assert_eq!(
        failing(replied(204, "204 No Content", Ok(String::new()))),
        "HTTP error: 204 No Content"
    );
    assert_eq!(failing(replied(200, "200 OK", Err("cut off"))), "request failed: cut off");
    assert_eq!(failing(HttpReply::Failed("refused".to_string())), "request failed: refused");
}

#[test]
fn json_replies() {
    let client = NodeClient::new(8080);
    match client.peers(replied(206, "206 Partial Content", Ok(ids(&["a", "b"])))) {
        Ok(peers) => assert_eq!(peers, ids(&["a", "b"])),
        Err(e) => panic!("{}", e.message()),
    }
    match client.peers(replied(500, "500 Internal Server Error", Ok(ids(&["a"])))) {
        Err(RZError::Http(status)) => assert_eq!(status, "500 Internal Server Error"),
        _ => panic!("an error was expected"),
    }
    match client.node_info(replied(200, "200 OK", Err("no json"))) {
        Err(RZError::Request(why)) => assert_eq!(why, "no json"),
        _ => panic!("an error was expected"),
    }
    match client.node_info(HttpReply::Failed("refused".to_string())) {
        Err(RZError::Request(why)) => assert_eq!(why, "refused"),
        _ => panic!("an error was expected"),
    }
}

fn info(leader_id: &str) -> NodeInfo {
    NodeInfo {
        node_id: "n1".to_string(),
        zone_id: "z".to_string(),
        shard_id: "s".to_string(),
        leader_id: leader_id.to_string(),
    }
}

#[test]
fn probe_of_a_node() {
    let resolved = || ResolvedNode::resolved("n1".to_string(), Ok("h1".to_string())).unwrap();
    let healthy = || resolved().checked(Ok("active_follower".to_string())).unwrap();
    let node = healthy().informed(Ok(info("n2"))).unwrap().listed(Ok(ids(&["n2"])));
    assert_eq!(node.node_id, "n1");
    assert_eq!(node.data.host, "h1");
    assert_eq!(node.data.health, "active_follower");
    assert_eq!(node.data.leader_id, "n2");
    assert_eq!(node.peers, ids(&["n2"]));
    let alone = healthy().informed(Ok(info("n2"))).unwrap().listed(Err(RZError::Timeout));
    assert!(alone.peers.is_empty());
    assert!(ResolvedNode::resolved("n1".to_string(), Err(RZError::Timeout)).is_none());
    assert!(resolved().checked(Err(RZError::Timeout)).is_none());
    assert!(resolved().checked(Ok("unavailable".to_string())).is_none());
    assert!(resolved().checked(Ok("anything".to_string())).is_some());
    assert!(healthy().informed(Err(RZError::Timeout)).is_none());
}

#[test]
fn leader_with_most_votes_is_elected() {
    let nodes = vec![
        data("h1", "active_leader", "n1"),
        data("h2", "active_leader", "n2"),
        data("h3", "active_follower", "n2"),
        data("h4", "active_follower", "n2"),
        data("h5", "active_follower", "n1"),
        data("h6", "syncing", "n2"),
        data("h7", "active_follower", ""),
    ];
    let (leader, followers) = found(elect(&nodes));
    assert_eq!(leader, "h2");
    assert_eq!(followers, ids(&["h3", "h4"]));
}

#[test]
fn no_leader_is_elected_without_votes_or_activity() {
    assert!(matches!(elect(&vec![]), Err(RZError::NoLeaderAvailable)));
    let silent = vec![data("h1", "active_leader", "")];
    assert!(matches!(elect(&silent), Err(RZError::NoLeaderAvailable)));
    let inactive = vec![data("h1", "starting", "n1"), data("h2", "active_follower", "n1")];
    assert!(matches!(elect(&inactive), Err(RZError::NoLeaderAvailable)));
    let alone = vec![data("h1", "active_leader", "n1")];
    assert_eq!(found(elect(&alone)), ("h1".to_string(), vec![]));
}

#[test]
fn peers_beyond_the_seeds() {
    let results = vec![
        probed("a", "ha", "active_leader", "a", &["b", "c", "a"]),
        probed("b", "hb", "active_follower", "a", &["c", "d"]),
    ];
    assert_eq!(new_peers(&ids(&["a", "b"]), &results), ids(&["c", "d"]));
    assert!(new_peers(&ids(&["a", "b", "c", "d"]), &results).is_empty());
}

#[test]
fn first_attempt_asks_rzid() {
    let mut discovery = TopologyDiscovery::new(vec![]);
    let (mut attempt, step) = discovery.discover();
    assert!(matches!(step, DiscoveryStep::FetchSeeds));
    assert_eq!(probe(attempt.seeds_fetched(Ok(ids(&["a"])))), ids(&["a"]));
    let step = attempt.probed(vec![probed("a", "ha", "active_leader", "a", &["b"])]);
    assert_eq!(probe(step), ids(&["b"]));
    let outcome = done(attempt.probed(vec![probed("b", "hb", "active_follower", "a", &["c"])]));
    discovery.remember(&attempt, &outcome);
    assert_eq!(found(outcome), ("ha".to_string(), ids(&["hb"])));
    assert_eq!(discovery.known_node_ids, ids(&["a", "b"]));
}

#[test]
fn known_nodes_are_asked_first() {
    let mut discovery = TopologyDiscovery::new(ids(&["a", "b"]));
    let (mut attempt, step) = discovery.discover();
    assert_eq!(probe(step), ids(&["a", "b"]));
    let outcome = done(attempt.probed(vec![probed("b", "hb", "active_leader", "b", &["a"])]));
    discovery.remember(&attempt, &outcome);
    assert_eq!(found(outcome), ("hb".to_string(), vec![]));
    assert_eq!(discovery.known_node_ids, ids(&["b"]));
}

#[test]
fn rzid_is_asked_where_known_nodes_do_not_tell() {
    let mut discovery = TopologyDiscovery::new(ids(&["a"]));
    let (mut attempt, _) = discovery.discover();
    assert!(matches!(attempt.probed(vec![]), DiscoveryStep::FetchSeeds));
    assert_eq!(probe(attempt.seeds_fetched(Ok(ids(&["x"])))), ids(&["x"]));
    let outcome = done(attempt.probed(vec![]));
    discovery.remember(&attempt, &outcome);
    assert!(matches!(outcome, Err(RZError::NoLeaderAvailable)));
    assert_eq!(discovery.known_node_ids, ids(&["a"]));
}

#[test]
fn what_rzid_lists_may_fail() {
    let discovery = TopologyDiscovery::new(vec![]);
    let (mut attempt, _) = discovery.discover();
    match done(attempt.seeds_fetched(Ok(vec![]))) {
        Err(RZError::Validation(why)) => assert_eq!(why, "roomzin seed node list is empty"),
        _ => panic!("an error was expected"),
    }
    let (mut attempt, _) = discovery.discover();
    assert!(matches!(
        done(attempt.seeds_fetched(Err(RZError::Timeout))),
        Err(RZError::Timeout)
    ));
}

#[test]
fn host_that_answers_twice_votes_once() {
    let discovery = TopologyDiscovery::new(ids(&["a", "b", "c"]));
    let (mut attempt, _) = discovery.discover();
    let outcome = done(attempt.probed(vec![
        probed("a", "h1", "active_leader", "x", &[]),
        probed("b", "h1", "active_leader", "x", &[]),
        probed("c", "h2", "active_leader", "c", &[]),
        probed("a", "h1", "active_follower", "c", &[]),
    ]));
    assert_eq!(found(outcome), ("h2".to_string(), ids(&["h1"])));
}
