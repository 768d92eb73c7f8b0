//! What holds of the topology that is found, and of the attempts to find it.

use crate::discovery::{
    are_new_peers, has_new_peer, names_peer, DiscoveryStepView, DiscoveryView, Stage,
};
use crate::error::ErrorView;
use crate::topology::{
    best_vote, elected, follower_hosts, host_from, host_is_found, hosts_differ, in_role,
    leader_host, node_views, one_host_more, probed_views, votes, with_node, with_results, NodeData,
    NodeView, ProbedNode, ProbedView,
};
use vstd::prelude::*;

verus! {

/// What is told of the nodes is what they told, of each and in order.
pub proof fn answers_are_taken_as_told(nodes: Seq<NodeData>, results: Seq<ProbedNode>)
    ensures
        node_views(nodes).len() == nodes.len(),
        forall|i: int| 0 <= i < nodes.len() ==> #[trigger] node_views(nodes)[i] == nodes[i]@,
        probed_views(results).len() == results.len(),
        forall|i: int| 0 <= i < results.len() ==> #[trigger] probed_views(results)[i] == results[i]@,
{
}

/// However often a host answers, it is kept once, and so votes once.
pub proof fn hosts_vote_once(nodes: Seq<NodeView>, results: Seq<ProbedView>, k: int)
    requires
        hosts_differ(nodes),
        0 <= k <= results.len(),
    ensures
        hosts_differ(with_results(nodes, results, k)),
        with_results(nodes, results, k).len() <= nodes.len() + k,
        k > 0 ==> with_results(nodes, results, k).len() > 0,
    decreases k,
{
    if k > 0 {
        hosts_vote_once(nodes, results, k - 1);
        host_is_found(with_results(nodes, results, k - 1), results[k - 1].data.host, 0);
        one_host_more(with_results(nodes, results, k - 1), results[k - 1].data);
    }
}

/// What is last told of a host is what is kept of it.
pub proof fn last_answer_counts(nodes: Seq<NodeView>, node: NodeView)
    ensures
        with_node(nodes, node).contains(node),
{
    host_is_found(nodes, node.host, 0);
    let after = with_node(nodes, node);
    match host_from(nodes, node.host, 0) {
        Some(i) => assert(after[i] == node),
        None => assert(after[nodes.len() as int] == node),
    }
}

/// What was told of the other hosts stays, and nothing else is kept of this one.
pub proof fn other_hosts_stay(nodes: Seq<NodeView>, node: NodeView, x: NodeView)
    requires
        hosts_differ(nodes),
    ensures
        x.host != node.host ==> (with_node(nodes, node).contains(x) <==> nodes.contains(x)),
        x.host == node.host ==> (with_node(nodes, node).contains(x) <==> x == node),
{
    host_is_found(nodes, node.host, 0);
    one_host_more(nodes, node);
    last_answer_counts(nodes, node);
    let after = with_node(nodes, node);
    if nodes.contains(x) && x.host != node.host {
        let i = choose|i: int| 0 <= i < nodes.len() && nodes[i] == x;
        assert(after[i] == x);
    }
    if after.contains(x) {
        let i = choose|i: int| 0 <= i < after.len() && after[i] == x;
        if x.host != node.host {
            assert(nodes[i] == x);
        } else {
            let j = choose|j: int| 0 <= j < after.len() && after[j] == node;
            if i < j {
                assert(after[i].host != after[j].host);
            } else if j < i {
                assert(after[j].host != after[i].host);
            }
        }
    }
}

/// Whether `data` is the last that the first `k` results tell of its host.
pub open spec fn told_last(results: Seq<ProbedView>, k: int, data: NodeView) -> bool {
    exists|i: int|
        0 <= i < k && (#[trigger] results[i]).data == data && forall|j: int|
            i < j < k ==> (#[trigger] results[j]).data.host != data.host
}

/// Once the results are in, every host that answered is among the nodes with its
/// last answer, every other one as it was, and there is no more.
pub proof fn every_host_that_answered_is_known(
    nodes: Seq<NodeView>,
    results: Seq<ProbedView>,
    k: int,
    x: NodeView,
)
    requires
        hosts_differ(nodes),
        0 <= k <= results.len(),
    ensures
        with_results(nodes, results, k).contains(x) <==> told_last(results, k, x) || (
        nodes.contains(x) && forall|i: int|
            0 <= i < k ==> (#[trigger] results[i]).data.host != x.host),
    decreases k,
{
    if k > 0 {
        let last = results[k - 1].data;
        every_host_that_answered_is_known(nodes, results, k - 1, x);
        hosts_vote_once(nodes, results, k - 1);
        other_hosts_stay(with_results(nodes, results, k - 1), last, x);
        if x == last {
            assert(results[k - 1].data == x);
            assert(told_last(results, k, x));
        }
        if x.host != last.host && told_last(results, k - 1, x) {
            let i = choose|i: int|
                0 <= i < k - 1 && (#[trigger] results[i]).data == x && forall|j: int|
                    i < j < k - 1 ==> (#[trigger] results[j]).data.host != x.host;
            assert(results[i].data == x);
            assert(told_last(results, k, x));
        }
        if told_last(results, k, x) && x != last {
            let i = choose|i: int|
                0 <= i < k && (#[trigger] results[i]).data == x && forall|j: int|
                    i < j < k ==> (#[trigger] results[j]).data.host != x.host;
            assert(results[k - 1].data.host != x.host);
            assert(results[i].data == x);
            assert(told_last(results, k - 1, x));
        }
    }
}

/// What is known of the best vote among the first `n` nodes.
proof fn best_of_first(nodes: Seq<NodeView>, n: int)
    requires
        0 <= n <= nodes.len(),
    ensures
        best_vote(nodes, n) matches Some(i) ==> 0 <= i < n && nodes[i].leader_id.len() > 0
            && forall|j: int|
            0 <= j < n && (#[trigger] nodes[j]).leader_id.len() > 0 ==> votes(
                nodes,
                nodes[j].leader_id,
                nodes.len() as int,
            ) <= votes(nodes, nodes[i].leader_id, nodes.len() as int),
        best_vote(nodes, n) is None ==> forall|j: int|
            0 <= j < n ==> (#[trigger] nodes[j]).leader_id.len() == 0,
    decreases n,
{
    if n > 0 {
        best_of_first(nodes, n - 1);
    }
}

/// Who is named by one node at least has a vote, and who has a vote is named.
proof fn votes_are_named(nodes: Seq<NodeView>, leader_id: Seq<char>, n: int)
    requires
        0 <= n <= nodes.len(),
    ensures
        votes(nodes, leader_id, n) > 0 <==> exists|j: int|
            0 <= j < n && (#[trigger] nodes[j]).leader_id == leader_id,
        votes(nodes, leader_id, n) <= n,
    decreases n,
{
    if n > 0 {
        votes_are_named(nodes, leader_id, n - 1);
        if nodes[n - 1].leader_id != leader_id && votes(nodes, leader_id, n) == 0 {
            assert forall|j: int| 0 <= j < n implies (#[trigger] nodes[j]).leader_id
                != leader_id by {
                if j < n - 1 {
                    assert(votes(nodes, leader_id, n - 1) == 0);
                }
            }
        }
    }
}

/// How many nodes name `leader_id`.
pub open spec fn named_by(nodes: Seq<NodeView>, leader_id: Seq<char>) -> nat {
    nodes.filter(|x: NodeView| x.leader_id == leader_id).len()
}

/// The votes among the first `n` nodes are the nodes that name the id, whatever
/// their health.
pub proof fn votes_are_the_nodes_that_name(nodes: Seq<NodeView>, leader_id: Seq<char>, n: int)
    requires
        0 <= n <= nodes.len(),
    ensures
        votes(nodes, leader_id, n) == nodes.take(n).filter(
            |x: NodeView| x.leader_id == leader_id,
        ).len(),
    decreases n,
{
    reveal(Seq::filter);
    if n > 0 {
        votes_are_the_nodes_that_name(nodes, leader_id, n - 1);
        assert(nodes.take(n).drop_last() =~= nodes.take(n - 1));
        assert(nodes.take(n).last() == nodes[n - 1]);
    }
}

/// The votes of all nodes.
proof fn all_votes(nodes: Seq<NodeView>, leader_id: Seq<char>)
    ensures
        votes(nodes, leader_id, nodes.len() as int) == named_by(nodes, leader_id),
{
    votes_are_the_nodes_that_name(nodes, leader_id, nodes.len() as int);
    assert(nodes.take(nodes.len() as int) =~= nodes);
}

/// Whether `leader_id` is named, and no other id by more nodes.
pub open spec fn wins(nodes: Seq<NodeView>, leader_id: Seq<char>) -> bool {
    &&& leader_id.len() > 0
    &&& named_by(nodes, leader_id) > 0
    &&& forall|other: Seq<char>|
        other.len() > 0 ==> #[trigger] named_by(nodes, other) <= named_by(nodes, leader_id)
}

/// The id that the votes decide for wins.
proof fn best_vote_wins(nodes: Seq<NodeView>, i: int)
    requires
        best_vote(nodes, nodes.len() as int) == Some(i),
    ensures
        0 <= i < nodes.len(),
        wins(nodes, nodes[i].leader_id),
{
    let all = nodes.len() as int;
    best_of_first(nodes, all);
    votes_are_named(nodes, nodes[i].leader_id, all);
    all_votes(nodes, nodes[i].leader_id);
    assert forall|other: Seq<char>| other.len() > 0 implies #[trigger] named_by(nodes, other)
        <= named_by(nodes, nodes[i].leader_id) by {
        all_votes(nodes, other);
        votes_are_named(nodes, other, all);
        if votes(nodes, other, all) > 0 {
            let j = choose|j: int| 0 <= j < all && (#[trigger] nodes[j]).leader_id == other;
            assert(votes(nodes, nodes[j].leader_id, all) <= votes(nodes, nodes[i].leader_id, all));
        }
    }
}

/// Whether some node at `host` is in the role `health` under `leader_id`.
pub open spec fn holds_role(
    nodes: Seq<NodeView>,
    leader_id: Seq<char>,
    health: Seq<char>,
    host: Seq<char>,
) -> bool {
    exists|j: int|
        0 <= j < nodes.len() && (#[trigger] nodes[j]).leader_id == leader_id && nodes[j].health
            == health && nodes[j].host == host
}

/// The host that leads is an active leader.
proof fn leader_host_leads(nodes: Seq<NodeView>, leader_id: Seq<char>, n: int)
    requires
        0 <= n <= nodes.len(),
    ensures
        leader_host(nodes, leader_id, n) matches Some(host) ==> holds_role(
            nodes,
            leader_id,
            "active_leader"@,
            host,
        ),
        leader_host(nodes, leader_id, n) is None ==> forall|j: int|
            0 <= j < n ==> !in_role(#[trigger] nodes[j], leader_id, "active_leader"@),
    decreases n,
{
    if n > 0 {
        leader_host_leads(nodes, leader_id, n - 1);
    }
}

/// The hosts that follow are the active followers.
proof fn follower_hosts_follow(nodes: Seq<NodeView>, leader_id: Seq<char>, n: int)
    requires
        0 <= n <= nodes.len(),
    ensures
        hosts_differ(nodes) ==> follower_hosts(nodes, leader_id, n).no_duplicates(),
        forall|host: Seq<char>| #[trigger]
            follower_hosts(nodes, leader_id, n).contains(host) <==> exists|j: int|
                0 <= j < n && in_role(#[trigger] nodes[j], leader_id, "active_follower"@)
                    && nodes[j].host == host,
    decreases n,
{
    let hosts = follower_hosts(nodes, leader_id, n);
    if n > 0 {
        follower_hosts_follow(nodes, leader_id, n - 1);
        let fewer = follower_hosts(nodes, leader_id, n - 1);
        let last = nodes[n - 1];
        if in_role(last, leader_id, "active_follower"@) {
            assert(hosts == fewer.push(last.host));
            assert(hosts_differ(nodes) ==> !fewer.contains(last.host)) by {
                if hosts_differ(nodes) && fewer.contains(last.host) {
                    let j = choose|j: int|
                        0 <= j < n - 1 && in_role(
                            #[trigger] nodes[j],
                            leader_id,
                            "active_follower"@,
                        ) && nodes[j].host == last.host;
                    assert(nodes[j].host != nodes[n - 1].host);
                }
            }
        }
        assert forall|host: Seq<char>| #[trigger] hosts.contains(host) <==> exists|j: int|
            0 <= j < n && in_role(#[trigger] nodes[j], leader_id, "active_follower"@)
                && nodes[j].host == host by {
            assert(fewer.contains(host) <==> exists|j: int|
                0 <= j < n - 1 && in_role(#[trigger] nodes[j], leader_id, "active_follower"@)
                    && nodes[j].host == host);
            if hosts.contains(host) {
                let a = choose|a: int| 0 <= a < hosts.len() && hosts[a] == host;
                if a < fewer.len() {
                    assert(fewer[a] == host);
                    assert(fewer.contains(host));
                } else {
                    assert(in_role(nodes[n - 1], leader_id, "active_follower"@));
                }
            }
            if fewer.contains(host) {
                let a = choose|a: int| 0 <= a < fewer.len() && fewer[a] == host;
                assert(hosts[a] == host);
            }
            if in_role(last, leader_id, "active_follower"@) && last.host == host {
                assert(hosts[fewer.len() as int] == host);
            }
            if exists|j: int|
                0 <= j < n && in_role(#[trigger] nodes[j], leader_id, "active_follower"@)
                    && nodes[j].host == host {
                let j = choose|j: int|
                    0 <= j < n && in_role(#[trigger] nodes[j], leader_id, "active_follower"@)
                        && nodes[j].host == host;
                if j < n - 1 {
                    assert(fewer.contains(host));
                }
            }
        }
    }
}

/// The topology that is found has a leader that wins the vote and is active,
/// and for followers the active followers of that leader, each once and
/// without the leader.
pub proof fn topology_is_voted_for(nodes: Seq<NodeView>)
    requires
        hosts_differ(nodes),
    ensures
        elected(nodes) matches Some(topology) ==> exists|leader_id: Seq<char>| #[trigger]
            wins(nodes, leader_id) && holds_role(
                nodes,
                leader_id,
                "active_leader"@,
                topology.leader,
            ) && topology.followers.no_duplicates() && !topology.followers.contains(
                topology.leader,
            ) && forall|host: Seq<char>| #[trigger]
                topology.followers.contains(host) <==> holds_role(
                    nodes,
                    leader_id,
                    "active_follower"@,
                    host,
                ),
{
    let all = nodes.len() as int;
    if let Some(topology) = elected(nodes) {
        let i = best_vote(nodes, all)->0;
        let leader_id = nodes[i].leader_id;
        best_vote_wins(nodes, i);
        leader_host_leads(nodes, leader_id, all);
        follower_hosts_follow(nodes, leader_id, all);
        assert(!topology.followers.contains(topology.leader)) by {
            if topology.followers.contains(topology.leader) {
                reveal_strlit("active_leader");
                reveal_strlit("active_follower");
                let j = choose|j: int|
                    0 <= j < all && in_role(#[trigger] nodes[j], leader_id, "active_follower"@)
                        && nodes[j].host == topology.leader;
                let k = choose|k: int|
                    0 <= k < all && in_role(#[trigger] nodes[k], leader_id, "active_leader"@)
                        && nodes[k].host == topology.leader;
                assert("active_leader"@.len() != "active_follower"@.len());
                if j < k {
                    assert(nodes[j].host != nodes[k].host);
                } else {
                    assert(nodes[k].host != nodes[j].host);
                }
            }
        }
        assert forall|host: Seq<char>| #[trigger]
            topology.followers.contains(host) <==> holds_role(
                nodes,
                leader_id,
                "active_follower"@,
                host,
            ) by {}
    }
}

/// Where one id is named by more nodes than any other and a node that names it
/// is an active leader, a topology is found: it is led under that id, and its
/// followers are the active ones under it.
pub proof fn majority_decides(nodes: Seq<NodeView>, leader_id: Seq<char>, host: Seq<char>)
    requires
        leader_id.len() > 0,
        forall|other: Seq<char>|
            other.len() > 0 && other != leader_id ==> #[trigger] named_by(nodes, other)
                < named_by(nodes, leader_id),
        holds_role(nodes, leader_id, "active_leader"@, host),
    ensures
        elected(nodes) matches Some(topology) && holds_role(
            nodes,
            leader_id,
            "active_leader"@,
            topology.leader,
        ) && forall|follower: Seq<char>| #[trigger]
            topology.followers.contains(follower) <==> holds_role(
                nodes,
                leader_id,
                "active_follower"@,
                follower,
            ),
{
    let all = nodes.len() as int;
    let j = choose|j: int|
        0 <= j < all && in_role(#[trigger] nodes[j], leader_id, "active_leader"@) && nodes[j].host
            == host;
    best_of_first(nodes, all);
    assert(nodes[j].leader_id.len() > 0);
    let i = best_vote(nodes, all)->0;
    best_vote_wins(nodes, i);
    all_votes(nodes, leader_id);
    all_votes(nodes, nodes[i].leader_id);
    assert(votes(nodes, leader_id, all) <= votes(nodes, nodes[i].leader_id, all));
    assert(nodes[i].leader_id == leader_id);
    leader_host_leads(nodes, leader_id, all);
    follower_hosts_follow(nodes, leader_id, all);
    let topology = elected(nodes)->0;
    assert forall|follower: Seq<char>| #[trigger]
        topology.followers.contains(follower) <==> holds_role(
            nodes,
            leader_id,
            "active_follower"@,
            follower,
        ) by {}
}

/// No two ids are named by more nodes than there are.
proof fn names_share_the_nodes(nodes: Seq<NodeView>, one: Seq<char>, other: Seq<char>)
    requires
        one != other,
    ensures
        named_by(nodes, one) + named_by(nodes, other) <= nodes.len(),
    decreases nodes.len(),
{
    reveal(Seq::filter);
    if nodes.len() > 0 {
        names_share_the_nodes(nodes.drop_last(), one, other);
    }
}

/// An id that more than half of the nodes name, one of them an active leader, is
/// the one that the topology is led under.
pub proof fn more_than_half_decide(nodes: Seq<NodeView>, leader_id: Seq<char>, host: Seq<char>)
    requires
        leader_id.len() > 0,
        2 * nodes.filter(|x: NodeView| x.leader_id == leader_id).len() > nodes.len(),
        holds_role(nodes, leader_id, "active_leader"@, host),
    ensures
        elected(nodes) matches Some(topology) && holds_role(
            nodes,
            leader_id,
            "active_leader"@,
            topology.leader,
        ) && forall|follower: Seq<char>| #[trigger]
            topology.followers.contains(follower) <==> holds_role(
                nodes,
                leader_id,
                "active_follower"@,
                follower,
            ),
{
    assert forall|other: Seq<char>| other.len() > 0 && other != leader_id implies #[trigger]
        named_by(nodes, other) < named_by(nodes, leader_id) by {
        names_share_the_nodes(nodes, leader_id, other);
    }
    majority_decides(nodes, leader_id, host);
}

/// No topology is found only where nobody names a leader, or where no node is
/// the active leader under an id that wins.
pub proof fn winner_must_be_active(nodes: Seq<NodeView>)
    ensures
        elected(nodes) is None ==> {
            ||| forall|i: int| 0 <= i < nodes.len() ==> (#[trigger] nodes[i]).leader_id.len() == 0
            ||| exists|leader_id: Seq<char>| #[trigger]
                wins(nodes, leader_id) && forall|host: Seq<char>|
                    !#[trigger] holds_role(nodes, leader_id, "active_leader"@, host)
        },
{
    let all = nodes.len() as int;
    best_of_first(nodes, all);
    if elected(nodes) is None && best_vote(nodes, all) is Some {
        let i = best_vote(nodes, all)->0;
        best_vote_wins(nodes, i);
        leader_host_leads(nodes, nodes[i].leader_id, all);
        assert(wins(nodes, nodes[i].leader_id) && forall|host: Seq<char>|
            !#[trigger] holds_role(nodes, nodes[i].leader_id, "active_leader"@, host));
    }
}

/// Where nobody names a leader, none is found.
pub proof fn no_vote_no_leader(nodes: Seq<NodeView>)
    requires
        forall|i: int| 0 <= i < nodes.len() ==> (#[trigger] nodes[i]).leader_id.len() == 0,
    ensures
        elected(nodes) is None,
{
    best_of_first(nodes, nodes.len() as int);
}

/// Every answer either ends the attempt or leaves it fewer questions to ask;
/// from the start, they are five at most.
pub proof fn attempts_end(
    v: DiscoveryView,
    results: Seq<ProbedView>,
    step: DiscoveryStepView,
    after: DiscoveryView,
    known: Seq<Seq<char>>,
)
    requires
        v.stage != Stage::Seeds,
        v.answered(results, step, after),
    ensures
        step is Found || step is Failed || after.rank() < v.rank(),
        v.from_known ==> !(step is Failed),
        step is FetchSeeds ==> v.from_known && !after.from_known,
        0 < DiscoveryView::asking().rank() <= 5,
        0 < DiscoveryView::probing(true, known).rank() <= 5,
        0 < DiscoveryView::probing(false, known).rank() < DiscoveryView::asking().rank(),
{
}

/// An attempt starts with no answers: one that waits for RzID also with no
/// seeds, one that probes with the seeds that it was given.
pub proof fn attempts_start_with_no_answers(from_known: bool, seeds: Seq<Seq<char>>)
    ensures
        DiscoveryView::asking().stage == Stage::Seeds,
        !DiscoveryView::asking().from_known,
        DiscoveryView::asking().seeds.len() == 0,
        DiscoveryView::asking().nodes.len() == 0,
        DiscoveryView::asking().observed.len() == 0,
        DiscoveryView::probing(from_known, seeds).stage == Stage::SeedNodes,
        DiscoveryView::probing(from_known, seeds).from_known == from_known,
        DiscoveryView::probing(from_known, seeds).seeds == seeds,
        DiscoveryView::probing(from_known, seeds).nodes.len() == 0,
        DiscoveryView::probing(from_known, seeds).observed.len() == 0,
{
}

/// Where the nodes that an attempt started from name peers that it did not start
/// from, those are asked next, each once and all of them, whichever node named
/// them.
pub proof fn peers_are_asked_next(
    v: DiscoveryView,
    results: Seq<ProbedView>,
    step: DiscoveryStepView,
    after: DiscoveryView,
    i: int,
    id: Seq<char>,
)
    requires
        v.stage == Stage::SeedNodes,
        v.answered(results, step, after),
        0 <= i < results.len(),
        results[i].peers.contains(id),
        !v.seeds.contains(id),
    ensures
        step matches DiscoveryStepView::Probe(ids) && ids.contains(id) && ids.no_duplicates()
            && forall|a: int|
            0 <= a < ids.len() ==> !v.seeds.contains(#[trigger] ids[a]) && exists|b: int|
                0 <= b < results.len() && (#[trigger] results[b]).peers.contains(ids[a]),
        after.stage == Stage::PeerNodes,
        after.from_known == v.from_known,
        after.seeds == v.seeds,
{
    assert(names_peer(results, id));
    assert(has_new_peer(v.seeds, results));
    let ids = step->Probe_0;
    assert(are_new_peers(ids, v.seeds, results));
    assert(ids.contains(id));
    assert forall|a: int| 0 <= a < ids.len() implies !v.seeds.contains(#[trigger] ids[a])
        && exists|b: int|
        0 <= b < results.len() && (#[trigger] results[b]).peers.contains(ids[a]) by {
        assert(ids.contains(ids[a]));
        assert(names_peer(results, ids[a]));
    }
}

/// Until an attempt starts again, it keeps the answers of all hosts, for each
/// the last one, and the ids of all nodes that answered, in order.
pub proof fn answers_are_kept(
    v: DiscoveryView,
    results: Seq<ProbedView>,
    step: DiscoveryStepView,
    after: DiscoveryView,
    x: NodeView,
)
    requires
        v.wf(),
        v.answered(results, step, after),
        step !is FetchSeeds,
    ensures
        after.nodes.contains(x) <==> told_last(results, results.len() as int, x) || (
        v.nodes.contains(x) && forall|i: int|
            0 <= i < results.len() ==> (#[trigger] results[i]).data.host != x.host),
        after.observed.len() == v.observed.len() + results.len(),
        forall|i: int| 0 <= i < v.observed.len() ==> #[trigger] after.observed[i] == v.observed[i],
        forall|i: int|
            0 <= i < results.len() ==> after.observed[v.observed.len() + i] == (
            #[trigger] results[i]).node_id,
{
    every_host_that_answered_is_known(v.nodes, results, results.len() as int, x);
}

/// Where no peer is left to ask, the attempt ends with the topology that the
/// nodes elect; where they elect none, RzID is asked afresh, once, and then the
/// attempt fails.
pub proof fn answers_decide(
    v: DiscoveryView,
    results: Seq<ProbedView>,
    step: DiscoveryStepView,
    after: DiscoveryView,
)
    requires
        v.answered(results, step, after),
        v.stage != Stage::SeedNodes || forall|i: int, id: Seq<char>|
            0 <= i < results.len() && #[trigger] results[i].peers.contains(id) ==> v.seeds.contains(
                id,
            ),
    ensures
        match elected(with_results(v.nodes, results, results.len() as int)) {
            Some(topology) => step == DiscoveryStepView::Found(topology),
            None => if v.from_known {
                step == DiscoveryStepView::FetchSeeds && after == DiscoveryView::asking()
            } else {
                step == DiscoveryStepView::Failed(ErrorView::NoLeaderAvailable)
            },
        },
{
    if v.stage == Stage::SeedNodes && has_new_peer(v.seeds, results) {
        let id = choose|id: Seq<char>| #[trigger]
            names_peer(results, id) && !v.seeds.contains(id);
        let i = choose|i: int| 0 <= i < results.len() && (#[trigger] results[i]).peers.contains(id);
        assert(results[i].peers.contains(id));
    }
}

/// In an attempt no host votes twice; and one that finds the topology knows
/// nodes that answered, so that the next starts from the live shard.
pub proof fn found_topology_is_remembered(
    v: DiscoveryView,
    results: Seq<ProbedView>,
    step: DiscoveryStepView,
    after: DiscoveryView,
)
    requires
        v.wf(),
        v.answered(results, step, after),
    ensures
        after.wf(),
        step is Found ==> after.observed.len() > 0,
{
    hosts_vote_once(v.nodes, results, results.len() as int);
}

} // verus!
