//! Who leads the shard and who follows, as its nodes tell.

use crate::error::{ErrorView, RZError};
use crate::http::{is_success, success, HttpReply};
use crate::text::{decimal, decimal_text, joined, same_text, texts, trim, trimmed};
use vstd::prelude::*;

verus! {

/// What a node says of itself.
#[derive(Debug)]
pub struct NodeInfo {
    pub node_id: String,
    pub zone_id: String,
    pub shard_id: String,
    pub leader_id: String,
}

/// Where the API of a node is reached, and what its replies mean.
#[derive(Debug, Clone, Copy)]
pub struct NodeClient {
    pub api_port: u16,
}

impl NodeClient {
    /// A client for nodes whose API listens on `api_port`.
    pub fn new(api_port: u16) -> (client: Self)
        ensures
            client.api_port == api_port,
    {
        NodeClient { api_port }
    }

    /// The URL of `path` on the node `hostname`.
    pub open spec fn url_of(self, hostname: Seq<char>, path: Seq<char>) -> Seq<char> {
        "http://"@ + hostname + ":"@ + decimal(self.api_port as nat) + path
    }

    /// The URL of `path` on the node `hostname`.
    fn url(&self, hostname: &str, path: &str) -> (url: String)
        ensures
            url@ == self.url_of(hostname@, path@),
    {
        let mut url: String = joined("http://", hostname);
        url.append(":");
        url.append(decimal_text(self.api_port as u64).as_str());
        url.append(path);
        url
    }

    /// Where a node tells its health.
    pub fn health_url(&self, hostname: &str) -> (url: String)
        ensures
            url@ == self.url_of(hostname@, "/healthz"@),
            url@ == "http://"@ + hostname@ + ":"@ + decimal(self.api_port as nat) + "/healthz"@,
    {
        self.url(hostname, "/healthz")
    }

    /// Where a node tells of itself.
    pub fn node_info_url(&self, hostname: &str) -> (url: String)
        ensures
            url@ == self.url_of(hostname@, "/node-info"@),
            url@ == "http://"@ + hostname@ + ":"@ + decimal(self.api_port as nat) + "/node-info"@,
    {
        self.url(hostname, "/node-info")
    }

    /// Where a node lists its peers.
    pub fn peers_url(&self, hostname: &str) -> (url: String)
        ensures
            url@ == self.url_of(hostname@, "/peers"@),
            url@ == "http://"@ + hostname@ + ":"@ + decimal(self.api_port as nat) + "/peers"@,
    {
        self.url(hostname, "/peers")
    }

    /// What a reply to the question for health means: the body without white
    /// space around it, where the status is 200.
    pub fn health(&self, reply: HttpReply<String>) -> (outcome: Result<String, RZError>)
        ensures
            match reply {
                HttpReply::Failed(e) => outcome matches Err(error) && error@ == ErrorView::Request(
                    e@,
                ),
                HttpReply::Replied { code, status, text, parsed } => if code != 200 {
                    outcome matches Err(error) && error@ == ErrorView::Http(status@)
                } else {
                    match parsed {
                        Ok(body) => outcome matches Ok(health) && health@ == trimmed(body@),
                        Err(e) => outcome matches Err(error) && error@ == ErrorView::Request(e@),
                    }
                },
            },
    {
        match reply {
            HttpReply::Failed(e) => Err(RZError::Request(e)),
            HttpReply::Replied { code, status, text: _, parsed } => {
                if code != 200 {
                    return Err(RZError::Http(status));
                }
                match parsed {
                    Ok(body) => Ok(trim(body.as_str())),
                    Err(e) => Err(RZError::Request(e)),
                }
            },
        }
    }

    /// What a reply with a JSON body means.
    fn read_json<T>(&self, reply: HttpReply<T>) -> (outcome: Result<T, RZError>)
        ensures
            json_outcome(reply, outcome),
    {
        match reply {
            HttpReply::Failed(e) => Err(RZError::Request(e)),
            HttpReply::Replied { code, status, text: _, parsed } => {
                if !is_success(code) {
                    return Err(RZError::Http(status));
                }
                match parsed {
                    Ok(value) => Ok(value),
                    Err(e) => Err(RZError::Request(e)),
                }
            },
        }
    }

    /// What a reply to the question for a node's own data means.
    pub fn node_info(&self, reply: HttpReply<NodeInfo>) -> (outcome: Result<NodeInfo, RZError>)
        ensures
            json_outcome(reply, outcome),
            match reply {
                HttpReply::Failed(e) => outcome matches Err(error) && error@ == ErrorView::Request(
                    e@,
                ),
                HttpReply::Replied { code, status, text, parsed } => {
                    &&& code < 200 || code >= 300 ==> (outcome matches Err(error) && error@
                        == ErrorView::Http(status@))
                    &&& 200 <= code < 300 ==> match parsed {
                        Ok(value) => outcome == Ok::<NodeInfo, RZError>(value),
                        Err(e) => outcome matches Err(error) && error@ == ErrorView::Request(e@),
                    }
                },
            },
    {
        self.read_json(reply)
    }

    /// What a reply to the question for a node's peers means.
    pub fn peers(&self, reply: HttpReply<Vec<String>>) -> (outcome: Result<Vec<String>, RZError>)
        ensures
            json_outcome(reply, outcome),
            match reply {
                HttpReply::Failed(e) => outcome matches Err(error) && error@ == ErrorView::Request(
                    e@,
                ),
                HttpReply::Replied { code, status, text, parsed } => {
                    &&& code < 200 || code >= 300 ==> (outcome matches Err(error) && error@
                        == ErrorView::Http(status@))
                    &&& 200 <= code < 300 ==> match parsed {
                        Ok(value) => outcome == Ok::<Vec<String>, RZError>(value),
                        Err(e) => outcome matches Err(error) && error@ == ErrorView::Request(e@),
                    }
                },
            },
    {
        self.read_json(reply)
    }
}

/// The body, where there is a reply, it stands for success and its body could
/// be read; else why not.
pub open spec fn json_outcome<T>(reply: HttpReply<T>, outcome: Result<T, RZError>) -> bool {
    match reply {
        HttpReply::Failed(e) => outcome matches Err(error) && error@ == ErrorView::Request(e@),
        HttpReply::Replied { code, status, text, parsed } => if !success(code) {
            outcome matches Err(error) && error@ == ErrorView::Http(status@)
        } else {
            match parsed {
                Ok(value) => outcome == Ok::<T, RZError>(value),
                Err(e) => outcome matches Err(error) && error@ == ErrorView::Request(e@),
            }
        },
    }
}

/// The live topology of the shard, by hostname.
#[derive(Debug)]
pub struct ClusterTopology {
    pub leader: String,
    pub followers: Vec<String>,
}

/// A [`ClusterTopology`] over plain values.
pub struct TopologyView {
    pub leader: Seq<char>,
    pub followers: Seq<Seq<char>>,
}

impl View for ClusterTopology {
    type V = TopologyView;

    open spec fn view(&self) -> TopologyView {
        TopologyView { leader: self.leader@, followers: texts(self.followers@) }
    }
}

/// What a probe finds out about a node.
#[derive(Debug)]
pub struct NodeData {
    pub host: String,
    pub health: String,
    pub leader_id: String,
}

/// A [`NodeData`] over plain values.
pub struct NodeView {
    pub host: Seq<char>,
    pub health: Seq<char>,
    pub leader_id: Seq<char>,
}

impl View for NodeData {
    type V = NodeView;

    open spec fn view(&self) -> NodeView {
        NodeView { host: self.host@, health: self.health@, leader_id: self.leader_id@ }
    }
}

/// A node that answered a probe.
#[derive(Debug)]
pub struct ProbedNode {
    pub node_id: String,
    pub data: NodeData,
    pub peers: Vec<String>,
}

/// A [`ProbedNode`] over plain values.
pub struct ProbedView {
    pub node_id: Seq<char>,
    pub data: NodeView,
    pub peers: Seq<Seq<char>>,
}

impl View for ProbedNode {
    type V = ProbedView;

    open spec fn view(&self) -> ProbedView {
        ProbedView { node_id: self.node_id@, data: self.data@, peers: texts(self.peers@) }
    }
}

/// A node whose hostname is known.
#[derive(Debug)]
pub struct ResolvedNode {
    pub node_id: String,
    pub host: String,
}

/// A node that is up.
#[derive(Debug)]
pub struct HealthyNode {
    pub node_id: String,
    pub host: String,
    pub health: String,
}

/// A node that told whom it follows.
#[derive(Debug)]
pub struct InformedNode {
    pub node_id: String,
    pub data: NodeData,
}

impl ResolvedNode {
    /// Goes on with a node whose hostname was found; any other is left out.
    pub fn resolved(node_id: String, hostname: Result<String, RZError>) -> (node: Option<Self>)
        ensures
            match hostname {
                Ok(host) => node == Some(ResolvedNode { node_id, host }),
                Err(_) => node is None,
            },
    {
        match hostname {
            Ok(host) => Some(ResolvedNode { node_id, host }),
            Err(_) => None,
        }
    }

    /// Goes on with a node that told its health, unless it is "unavailable";
    /// any other is left out.
    pub fn checked(self, health: Result<String, RZError>) -> (node: Option<HealthyNode>)
        ensures
            match health {
                Ok(health) => node == if health@ == "unavailable"@ {
                    None
                } else {
                    Some(HealthyNode { node_id: self.node_id, host: self.host, health })
                },
                Err(_) => node is None,
            },
    {
        match health {
            Ok(health) => {
                if same_text(health.as_str(), "unavailable") {
                    return None;
                }
                Some(HealthyNode { node_id: self.node_id, host: self.host, health })
            },
            Err(_) => None,
        }
    }
}

impl HealthyNode {
    /// Goes on with a node that told of itself; any other is left out.
    pub fn informed(self, info: Result<NodeInfo, RZError>) -> (node: Option<InformedNode>)
        ensures
            match info {
                Ok(info) => node == Some(
                    InformedNode {
                        node_id: self.node_id,
                        data: NodeData {
                            host: self.host,
                            health: self.health,
                            leader_id: info.leader_id,
                        },
                    },
                ),
                Err(_) => node is None,
            },
    {
        match info {
            Ok(info) => Some(
                InformedNode {
                    node_id: self.node_id,
                    data: NodeData {
                        host: self.host,
                        health: self.health,
                        leader_id: info.leader_id,
                    },
                },
            ),
            Err(_) => None,
        }
    }
}

impl InformedNode {
    /// Adds the peers that the node listed; none, where it did not.
    pub fn listed(self, peers: Result<Vec<String>, RZError>) -> (node: ProbedNode)
        ensures
            node.node_id == self.node_id,
            node.data == self.data,
            match peers {
                Ok(peers) => node.peers == peers,
                Err(_) => node.peers@.len() == 0,
            },
    {
        let peers: Vec<String> = match peers {
            Ok(peers) => peers,
            Err(_) => Vec::new(),
        };
        ProbedNode { node_id: self.node_id, data: self.data, peers }
    }
}

/// Where the first of the nodes from `i` on that is at `host` stands.
pub open spec fn host_from(nodes: Seq<NodeView>, host: Seq<char>, i: int) -> Option<int>
    decreases nodes.len() - i,
{
    if i < 0 || i >= nodes.len() {
        None
    } else if nodes[i].host == host {
        Some(i)
    } else {
        host_from(nodes, host, i + 1)
    }
}

/// A node that is found is at the host that was looked for.
pub(crate) proof fn host_is_found(nodes: Seq<NodeView>, host: Seq<char>, from: int)
    requires
        0 <= from,
    ensures
        host_from(nodes, host, from) matches Some(i) ==> from <= i < nodes.len() && nodes[i].host
            == host,
        host_from(nodes, host, from) is None ==> forall|j: int|
            from <= j < nodes.len() ==> (#[trigger] nodes[j]).host != host,
    decreases nodes.len() - from,
{
    if from < nodes.len() && nodes[from].host != host {
        host_is_found(nodes, host, from + 1);
    }
}

/// `nodes` with what is now known of one host, in place of what was.
pub open spec fn with_node(nodes: Seq<NodeView>, node: NodeView) -> Seq<NodeView> {
    match host_from(nodes, node.host, 0) {
        Some(i) => nodes.update(i, node),
        None => nodes.push(node),
    }
}

/// Whether no two nodes are at one host.
pub open spec fn hosts_differ(nodes: Seq<NodeView>) -> bool {
    forall|i: int, j: int|
        0 <= i < j < nodes.len() ==> (#[trigger] nodes[i]).host != (#[trigger] nodes[j]).host
}

/// Taking in what one host tells keeps hosts apart.
pub(crate) proof fn one_host_more(nodes: Seq<NodeView>, node: NodeView)
    requires
        hosts_differ(nodes),
    ensures
        hosts_differ(with_node(nodes, node)),
{
    host_is_found(nodes, node.host, 0);
    let after = with_node(nodes, node);
    assert forall|i: int, j: int| 0 <= i < j < after.len() implies (#[trigger] after[i]).host != (
    #[trigger] after[j]).host by {
        if j < nodes.len() {
            assert(nodes[i].host != nodes[j].host);
        } else {
            assert(nodes[i].host != node.host);
        }
    }
}

/// `nodes` with what the first `k` results tell.
pub open spec fn with_results(
    nodes: Seq<NodeView>,
    results: Seq<ProbedView>,
    k: int,
) -> Seq<NodeView>
    decreases k,
{
    if k <= 0 {
        nodes
    } else {
        with_node(with_results(nodes, results, k - 1), results[k - 1].data)
    }
}

/// How many of the first `n` nodes name `leader_id` their leader.
pub open spec fn votes(nodes: Seq<NodeView>, leader_id: Seq<char>, n: int) -> nat
    decreases n,
{
    if n <= 0 {
        0
    } else {
        votes(nodes, leader_id, n - 1) + (if nodes[n - 1].leader_id == leader_id {
            1nat
        } else {
            0
        })
    }
}

/// Which of the first `n` nodes names the leader that most of all nodes name;
/// the first of them, where several have most. Who names none does not vote.
pub open spec fn best_vote(nodes: Seq<NodeView>, n: int) -> Option<int>
    decreases n,
{
    if n <= 0 {
        None
    } else {
        let named = nodes[n - 1].leader_id;
        let all = nodes.len() as int;
        match best_vote(nodes, n - 1) {
            Some(i) => if named.len() > 0 && votes(nodes, named, all) > votes(
                nodes,
                nodes[i].leader_id,
                all,
            ) {
                Some(n - 1)
            } else {
                Some(i)
            },
            None => if named.len() > 0 {
                Some(n - 1)
            } else {
                None
            },
        }
    }
}

/// Whether a node is in the role `health` under `leader_id`.
pub open spec fn in_role(node: NodeView, leader_id: Seq<char>, health: Seq<char>) -> bool {
    node.leader_id == leader_id && node.health == health
}

/// The host of the last of the first `n` nodes that is the active leader.
pub open spec fn leader_host(nodes: Seq<NodeView>, leader_id: Seq<char>, n: int) -> Option<Seq<char>>
    decreases n,
{
    if n <= 0 {
        None
    } else if in_role(nodes[n - 1], leader_id, "active_leader"@) {
        Some(nodes[n - 1].host)
    } else {
        leader_host(nodes, leader_id, n - 1)
    }
}

/// The hosts of the active followers among the first `n` nodes, in order.
pub open spec fn follower_hosts(nodes: Seq<NodeView>, leader_id: Seq<char>, n: int) -> Seq<Seq<char>>
    decreases n,
{
    if n <= 0 {
        Seq::empty()
    } else if in_role(nodes[n - 1], leader_id, "active_follower"@) {
        follower_hosts(nodes, leader_id, n - 1).push(nodes[n - 1].host)
    } else {
        follower_hosts(nodes, leader_id, n - 1)
    }
}

/// The topology that the nodes tell, if they agree on a leader that is active.
pub open spec fn elected(nodes: Seq<NodeView>) -> Option<TopologyView> {
    let all = nodes.len() as int;
    match best_vote(nodes, all) {
        None => None,
        Some(i) => match leader_host(nodes, nodes[i].leader_id, all) {
            None => None,
            Some(leader) => Some(
                TopologyView { leader, followers: follower_hosts(nodes, nodes[i].leader_id, all) },
            ),
        },
    }
}

/// The nodes of a list, as plain values.
pub open spec fn node_views(nodes: Seq<NodeData>) -> Seq<NodeView> {
    nodes.map_values(|n: NodeData| n@)
}

/// The results of a probe, as plain values.
pub open spec fn probed_views(results: Seq<ProbedNode>) -> Seq<ProbedView> {
    results.map_values(|r: ProbedNode| r@)
}

/// How many nodes name `leader_id` their leader.
fn count_votes(nodes: &Vec<NodeData>, leader_id: &String) -> (count: usize)
    ensures
        count == votes(node_views(nodes@), leader_id@, nodes@.len() as int),
{
    let mut count: usize = 0;
    let mut i: usize = 0;
    while i < nodes.len()
        invariant
            count <= i <= nodes@.len(),
            count == votes(node_views(nodes@), leader_id@, i as int),
        decreases nodes@.len() - i,
    {
        proof {
            assert(node_views(nodes@)[i as int] == nodes@[i as int]@);
        }
        if nodes[i].leader_id == *leader_id {
            count = count + 1;
        }
        i = i + 1;
    }
    count
}

/// Which node names the leader that most name.
fn find_best_vote(nodes: &Vec<NodeData>) -> (best: Option<usize>)
    ensures
        best matches Some(i) ==> i < nodes@.len() && best_vote(
            node_views(nodes@),
            nodes@.len() as int,
        ) == Some(i as int),
        best is None ==> best_vote(node_views(nodes@), nodes@.len() as int) is None,
{
    let mut best: Option<usize> = None;
    let mut i: usize = 0;
    while i < nodes.len()
        invariant
            i <= nodes@.len(),
            best matches Some(b) ==> b < i && best_vote(node_views(nodes@), i as int) == Some(
                b as int,
            ),
            best is None ==> best_vote(node_views(nodes@), i as int) is None,
        decreases nodes@.len() - i,
    {
        proof {
            assert(node_views(nodes@)[i as int] == nodes@[i as int]@);
            if let Some(b) = best {
                assert(node_views(nodes@)[b as int] == nodes@[b as int]@);
            }
        }
        if !nodes[i].leader_id.as_str().is_empty() {
            match best {
                Some(b) => {
                    if count_votes(nodes, &nodes[i].leader_id) > count_votes(
                        nodes,
                        &nodes[b].leader_id,
                    ) {
                        best = Some(i);
                    }
                },
                None => {
                    best = Some(i);
                },
            }
        }
        i = i + 1;
    }
    best
}

/// Finds the leader and the followers among the nodes that answered.
pub fn elect(nodes: &Vec<NodeData>) -> (outcome: Result<ClusterTopology, RZError>)
    ensures
        match elected(node_views(nodes@)) {
            Some(topology) => outcome matches Ok(found) && found@ == topology,
            None => outcome matches Err(e) && e@ == ErrorView::NoLeaderAvailable,
        },
{
    let ghost views = node_views(nodes@);
    let best: usize = match find_best_vote(nodes) {
        Some(i) => i,
        None => {
            return Err(RZError::NoLeaderAvailable);
        },
    };
    proof {
        assert(views[best as int] == nodes@[best as int]@);
    }
    let leader_id: &String = &nodes[best].leader_id;
    let mut leader: Option<String> = None;
    let mut followers: Vec<String> = Vec::new();
    let mut i: usize = 0;
    while i < nodes.len()
        invariant
            i <= nodes@.len(),
            views == node_views(nodes@),
            leader matches Some(host) ==> leader_host(views, leader_id@, i as int) == Some(host@),
            leader is None ==> leader_host(views, leader_id@, i as int) is None,
            texts(followers@) == follower_hosts(views, leader_id@, i as int),
        decreases nodes@.len() - i,
    {
        proof {
            assert(views[i as int] == nodes@[i as int]@);
        }
        let ghost before = followers@;
        let node: &NodeData = &nodes[i];
        if node.leader_id == *leader_id {
            proof {
                reveal_strlit("active_leader");
                reveal_strlit("active_follower");
            }
            if same_text(node.health.as_str(), "active_leader") {
                leader = Some(node.host.clone());
                proof {
                    assert("active_leader"@.len() != "active_follower"@.len());
                }
            } else if same_text(node.health.as_str(), "active_follower") {
                followers.push(node.host.clone());
                proof {
                    assert(texts(followers@) =~= texts(before).push(node.host@));
                }
            }
        }
        i = i + 1;
    }
    match leader {
        Some(leader) => Ok(ClusterTopology { leader, followers }),
        None => Err(RZError::NoLeaderAvailable),
    }
}

} // verus!
