//! One attempt to find out the topology: from the nodes that are known, or,
//! where they do not tell, from those that RzID lists.

use crate::error::{ErrorView, RZError};
use crate::text::{copy_texts, lists_text, texts};
use crate::topology::{
    elect, elected, host_from, host_is_found, hosts_differ, node_views, one_host_more,
    probed_views, with_node, with_results, ClusterTopology, NodeData, NodeView, ProbedNode,
    ProbedView, TopologyView,
};
use vstd::prelude::*;

verus! {

/// What is remembered between two attempts.
#[derive(Debug)]
pub struct TopologyDiscovery {
    /// The nodes that answered last.
    pub known_node_ids: Vec<String>,
}

/// What an attempt waits for.
#[derive(Debug, Clone, Copy, PartialEq, Eq, Structural)]
pub enum Stage {
    /// The node ids that RzID lists.
    Seeds,
    /// The answers of the nodes that it started from.
    SeedNodes,
    /// The answers of the peers that those named.
    PeerNodes,
}

/// One attempt.
#[derive(Debug)]
pub struct Discovery {
    stage: Stage,
    from_known: bool,
    seeds: Vec<String>,
    nodes: Vec<NodeData>,
    observed: Vec<String>,
}

/// A [`Discovery`] over plain values.
pub struct DiscoveryView {
    pub stage: Stage,
    /// Whether it started from known nodes, and RzID was not asked yet.
    pub from_known: bool,
    /// The node ids that it started from.
    pub seeds: Seq<Seq<char>>,
    /// What the nodes that answered told, one for each host.
    pub nodes: Seq<NodeView>,
    /// The ids of the nodes that answered.
    pub observed: Seq<Seq<char>>,
}

impl View for Discovery {
    type V = DiscoveryView;

    closed spec fn view(&self) -> DiscoveryView {
        DiscoveryView {
            stage: self.stage,
            from_known: self.from_known,
            seeds: texts(self.seeds@),
            nodes: node_views(self.nodes@),
            observed: texts(self.observed@),
        }
    }
}

/// What an attempt needs next.
#[derive(Debug)]
pub enum DiscoveryStep {
    /// The node ids that RzID lists.
    FetchSeeds,
    /// The answers of these nodes.
    Probe(Vec<String>),
    /// Nothing: this is the outcome.
    Done(Result<ClusterTopology, RZError>),
}

/// A [`DiscoveryStep`] over plain values.
pub enum DiscoveryStepView {
    FetchSeeds,
    Probe(Seq<Seq<char>>),
    Found(TopologyView),
    Failed(ErrorView),
}

impl View for DiscoveryStep {
    type V = DiscoveryStepView;

    open spec fn view(&self) -> DiscoveryStepView {
        match *self {
            DiscoveryStep::FetchSeeds => DiscoveryStepView::FetchSeeds,
            DiscoveryStep::Probe(ids) => DiscoveryStepView::Probe(texts(ids@)),
            DiscoveryStep::Done(Ok(topology)) => DiscoveryStepView::Found(topology@),
            DiscoveryStep::Done(Err(e)) => DiscoveryStepView::Failed(e@),
        }
    }
}

/// Whether one of the results names `id` as a peer.
pub open spec fn names_peer(results: Seq<ProbedView>, id: Seq<char>) -> bool {
    exists|i: int| 0 <= i < results.len() && (#[trigger] results[i]).peers.contains(id)
}

/// Whether `ids` are the peers that the results name beyond the seeds, each
/// once.
pub open spec fn are_new_peers(
    ids: Seq<Seq<char>>,
    seeds: Seq<Seq<char>>,
    results: Seq<ProbedView>,
) -> bool {
    &&& ids.no_duplicates()
    &&& forall|id: Seq<char>|
        #[trigger] ids.contains(id) <==> names_peer(results, id) && !seeds.contains(id)
}

/// Whether the results name a peer beyond the seeds.
pub open spec fn has_new_peer(seeds: Seq<Seq<char>>, results: Seq<ProbedView>) -> bool {
    exists|id: Seq<char>| #[trigger] names_peer(results, id) && !seeds.contains(id)
}

/// The ids of the nodes that answered, in order.
pub open spec fn ids_of(results: Seq<ProbedView>) -> Seq<Seq<char>> {
    results.map_values(|r: ProbedView| r.node_id)
}

impl DiscoveryView {
    /// What holds of every attempt: one answer is kept for each host, and it
    /// is known which nodes answered.
    pub open spec fn wf(self) -> bool {
        hosts_differ(self.nodes) && self.nodes.len() <= self.observed.len()
    }

    /// An attempt that waits for what RzID lists.
    pub open spec fn asking() -> DiscoveryView {
        DiscoveryView {
            stage: Stage::Seeds,
            from_known: false,
            seeds: Seq::empty(),
            nodes: Seq::empty(),
            observed: Seq::empty(),
        }
    }

    /// An attempt that waits for the answers of `seeds`.
    pub open spec fn probing(from_known: bool, seeds: Seq<Seq<char>>) -> DiscoveryView {
        DiscoveryView {
            stage: Stage::SeedNodes,
            from_known,
            seeds,
            nodes: Seq::empty(),
            observed: Seq::empty(),
        }
    }

    /// The attempt with what the results tell.
    pub open spec fn told(self, results: Seq<ProbedView>) -> DiscoveryView {
        DiscoveryView {
            nodes: with_results(self.nodes, results, results.len() as int),
            observed: self.observed + ids_of(results),
            ..self
        }
    }

    /// What an attempt that has all answers comes to: the topology, or, where
    /// there is none, RzID once, and then failure.
    pub open spec fn concluded(self) -> (DiscoveryStepView, DiscoveryView) {
        match elected(self.nodes) {
            Some(topology) => (DiscoveryStepView::Found(topology), self),
            None => if self.from_known {
                (DiscoveryStepView::FetchSeeds, DiscoveryView::asking())
            } else {
                (DiscoveryStepView::Failed(ErrorView::NoLeaderAvailable), self)
            },
        }
    }

    /// What the answers of the nodes that were probed lead to: from the
    /// answers of the seeds to those of the new peers, if there are any, and
    /// from there to the end.
    pub open spec fn answered(
        self,
        results: Seq<ProbedView>,
        step: DiscoveryStepView,
        after: DiscoveryView,
    ) -> bool {
        let told = self.told(results);
        if self.stage == Stage::SeedNodes && has_new_peer(self.seeds, results) {
            &&& step matches DiscoveryStepView::Probe(ids)
            &&& are_new_peers(ids, self.seeds, results)
            &&& after == (DiscoveryView { stage: Stage::PeerNodes, ..told })
        } else {
            &&& step == told.concluded().0
            &&& after == told.concluded().1
        }
    }

    /// How many more questions an attempt may ask.
    pub open spec fn rank(self) -> int {
        (if self.from_known {
            3int
        } else {
            0
        }) + (match self.stage {
            Stage::Seeds => 3int,
            Stage::SeedNodes => 2,
            Stage::PeerNodes => 1,
        })
    }
}

/// Adds `id` to `ids`, unless it is a seed or there already.
fn add_new_peer(ids: &mut Vec<String>, seeds: &Vec<String>, id: &String)
    requires
        texts(old(ids)@).no_duplicates(),
    ensures
        texts(final(ids)@).no_duplicates(),
        forall|x: Seq<char>| #[trigger]
            texts(final(ids)@).contains(x) <==> texts(old(ids)@).contains(x) || (x == id@ && !texts(
                seeds@,
            ).contains(x)),
{
    if lists_text(seeds, id) || lists_text(ids, id) {
        return ;
    }
    let ghost before = texts(ids@);
    ids.push(id.clone());
    proof {
        let after = texts(ids@);
        assert(after =~= before.push(id@));
        assert forall|x: Seq<char>| #[trigger]
            after.contains(x) <==> before.contains(x) || x == id@ by {
            if before.contains(x) {
                let k = choose|k: int| 0 <= k < before.len() && before[k] == x;
                assert(after[k] == x);
            }
            if x == id@ {
                assert(after[before.len() as int] == x);
            }
        }
    }
}

/// The peers that the results name beyond the seeds, each once.
pub fn new_peers(seeds: &Vec<String>, results: &Vec<ProbedNode>) -> (ids: Vec<String>)
    ensures
        are_new_peers(texts(ids@), texts(seeds@), probed_views(results@)),
{
    let ghost views = probed_views(results@);
    let mut ids: Vec<String> = Vec::new();
    let mut i: usize = 0;
    while i < results.len()
        invariant
            i <= results@.len(),
            views == probed_views(results@),
            are_new_peers(texts(ids@), texts(seeds@), views.take(i as int)),
        decreases results@.len() - i,
    {
        let ghost before = texts(ids@);
        let ghost peers = texts(results@[i as int].peers@);
        let mut k: usize = 0;
        while k < results[i].peers.len()
            invariant
                i < results@.len(),
                k <= results@[i as int].peers@.len(),
                peers == texts(results@[i as int].peers@),
                texts(ids@).no_duplicates(),
                forall|x: Seq<char>| #[trigger]
                    texts(ids@).contains(x) <==> before.contains(x) || (peers.take(
                        k as int,
                    ).contains(x) && !texts(seeds@).contains(x)),
            decreases results@[i as int].peers@.len() - k,
        {
            add_new_peer(&mut ids, seeds, &results[i].peers[k]);
            proof {
                let (fewer, more) = (peers.take(k as int), peers.take(k + 1));
                assert(more =~= fewer.push(peers[k as int]));
                assert forall|x: Seq<char>| #[trigger]
                    more.contains(x) <==> fewer.contains(x) || x == peers[k as int] by {
                    if fewer.contains(x) {
                        let j = choose|j: int| 0 <= j < fewer.len() && fewer[j] == x;
                        assert(more[j] == x);
                    }
                    if x == peers[k as int] {
                        assert(more[k as int] == x);
                    }
                }
            }
            k = k + 1;
        }
        proof {
            assert(peers.take(k as int) =~= peers);
            let (fewer, more) = (views.take(i as int), views.take(i + 1));
            assert(views[i as int] == results@[i as int]@);
            assert forall|x: Seq<char>| #[trigger]
                names_peer(more, x) <==> names_peer(fewer, x) || peers.contains(x) by {
                if names_peer(more, x) {
                    let j = choose|j: int|
                        0 <= j < more.len() && (#[trigger] more[j]).peers.contains(x);
                    if j < i {
                        assert(fewer[j] == more[j]);
                    }
                }
                if names_peer(fewer, x) {
                    let j = choose|j: int|
                        0 <= j < fewer.len() && (#[trigger] fewer[j]).peers.contains(x);
                    assert(fewer[j] == more[j]);
                }
                if peers.contains(x) {
                    assert(more[i as int].peers.contains(x));
                }
            }
        }
        i = i + 1;
    }
    proof {
        assert(views.take(i as int) =~= views);
    }
    ids
}

/// Puts what is now known of one host in `nodes`.
fn put_node(nodes: &mut Vec<NodeData>, node: NodeData)
    ensures
        node_views(final(nodes)@) == with_node(node_views(old(nodes)@), node@),
{
    let ghost before = node_views(nodes@);
    let mut i: usize = 0;
    while i < nodes.len()
        invariant
            i <= nodes@.len(),
            nodes@ == old(nodes)@,
            before == node_views(nodes@),
            host_from(before, node.host@, 0) == host_from(before, node.host@, i as int),
        decreases nodes@.len() - i,
    {
        proof {
            assert(before[i as int] == nodes@[i as int]@);
        }
        if nodes[i].host == node.host {
            nodes.set(i, node);
            proof {
                assert(node_views(nodes@) =~= before.update(i as int, node@));
            }
            return ;
        }
        i = i + 1;
    }
    nodes.push(node);
    proof {
        assert(node_views(nodes@) =~= before.push(node@));
    }
}

impl TopologyDiscovery {
    /// Remembers `initial_seed_ids`, which may be empty.
    pub fn new(initial_seed_ids: Vec<String>) -> (discovery: Self)
        ensures
            discovery.known_node_ids == initial_seed_ids,
    {
        TopologyDiscovery { known_node_ids: initial_seed_ids }
    }

    /// Starts an attempt.
    pub fn discover(&self) -> (started: (Discovery, DiscoveryStep))
        ensures
            started.0.wf(),
            if self.known_node_ids@.len() == 0 {
                &&& started.0@ == DiscoveryView::asking()
                &&& started.1@ == DiscoveryStepView::FetchSeeds
            } else {
                &&& started.0@ == DiscoveryView::probing(true, texts(self.known_node_ids@))
                &&& started.1@ == DiscoveryStepView::Probe(texts(self.known_node_ids@))
            },
    {
        if self.known_node_ids.len() == 0 {
            (Discovery::asking(), DiscoveryStep::FetchSeeds)
        } else {
            (
                Discovery::probing(true, copy_texts(&self.known_node_ids)),
                DiscoveryStep::Probe(copy_texts(&self.known_node_ids)),
            )
        }
    }

    /// Remembers the nodes that answered an attempt that found the topology.
    pub fn remember(
        &mut self,
        attempt: &Discovery,
        outcome: &Result<ClusterTopology, RZError>,
    )
        ensures
            texts(final(self).known_node_ids@) == if outcome is Ok && attempt@.observed.len() > 0 {
                attempt@.observed
            } else {
                texts(old(self).known_node_ids@)
            },
    {
        if outcome.is_ok() && attempt.observed.len() > 0 {
            self.known_node_ids = copy_texts(&attempt.observed);
        }
    }
}

impl Discovery {
    /// What holds of every attempt.
    pub open spec fn wf(self) -> bool {
        self@.wf()
    }

    /// An attempt that waits for what RzID lists.
    fn asking() -> (discovery: Self)
        ensures
            discovery.wf(),
            discovery@ == DiscoveryView::asking(),
    {
        let discovery: Discovery = Discovery {
            stage: Stage::Seeds,
            from_known: false,
            seeds: Vec::new(),
            nodes: Vec::new(),
            observed: Vec::new(),
        };
        proof {
            assert(discovery@.seeds =~= Seq::empty());
            assert(discovery@.nodes =~= Seq::empty());
            assert(discovery@.observed =~= Seq::empty());
        }
        discovery
    }

    /// An attempt that waits for the answers of `seeds`.
    fn probing(from_known: bool, seeds: Vec<String>) -> (discovery: Self)
        ensures
            discovery.wf(),
            discovery@ == DiscoveryView::probing(from_known, texts(seeds@)),
    {
        let discovery: Discovery = Discovery {
            stage: Stage::SeedNodes,
            from_known,
            seeds,
            nodes: Vec::new(),
            observed: Vec::new(),
        };
        proof {
            assert(discovery@.nodes =~= Seq::empty());
            assert(discovery@.observed =~= Seq::empty());
        }
        discovery
    }

    /// Goes on with what RzID listed.
    pub fn seeds_fetched(&mut self, seeds: Result<Vec<String>, RZError>) -> (step: DiscoveryStep)
        requires
            old(self).wf(),
            old(self)@.stage == Stage::Seeds,
        ensures
            final(self).wf(),
            match seeds {
                Err(e) => step@ == DiscoveryStepView::Failed(e@) && final(self)@ == old(self)@,
                Ok(ids) => if ids@.len() == 0 {
                    &&& step@ == DiscoveryStepView::Failed(
                        ErrorView::Validation("roomzin seed node list is empty"@),
                    )
                    &&& final(self)@ == old(self)@
                } else {
                    &&& step@ == DiscoveryStepView::Probe(texts(ids@))
                    &&& final(self)@ == DiscoveryView::probing(false, texts(ids@))
                },
            },
    {
        match seeds {
            Err(e) => DiscoveryStep::Done(Err(e)),
            Ok(ids) => {
                if ids.len() == 0 {
                    return DiscoveryStep::Done(
                        Err(RZError::Validation("roomzin seed node list is empty".to_owned())),
                    );
                }
                let copy: Vec<String> = copy_texts(&ids);
                *self = Discovery::probing(false, ids);
                DiscoveryStep::Probe(copy)
            },
        }
    }

    /// Takes in what the results tell.
    fn take_in(&mut self, results: Vec<ProbedNode>)
        requires
            old(self).wf(),
        ensures
            final(self).wf(),
            final(self)@ == old(self)@.told(probed_views(results@)),
    {
        let ghost v = self@;
        let ghost views = probed_views(results@);
        let mut left: Vec<ProbedNode> = results;
        proof {
            assert(views.take(0) =~= Seq::empty());
            assert(v.observed + ids_of(views.take(0)) =~= v.observed);
        }
        let total: usize = left.len();
        let mut k: usize = 0;
        while k < total
            invariant
                k <= total,
                total == views.len(),
                probed_views(left@) == views.skip(k as int),
                self.wf(),
                self@ == (DiscoveryView {
                    nodes: with_results(v.nodes, views, k as int),
                    observed: v.observed + ids_of(views.take(k as int)),
                    ..v
                }),
            decreases total - k,
        {
            proof {
                assert(left@.len() == views.skip(k as int).len());
            }
            let ghost front = left@;
            let result: ProbedNode = left.remove(0);
            let ghost before = self@;
            proof {
                assert(result@ == views[k as int]) by {
                    assert(probed_views(front)[0] == views.skip(k as int)[0]);
                }
                assert(probed_views(left@) =~= views.skip(k + 1)) by {
                    assert forall|j: int| 0 <= j < left@.len() implies #[trigger] probed_views(
                        left@,
                    )[j] == views.skip(k + 1)[j] by {
                        assert(probed_views(front)[j + 1] == views.skip(k as int)[j + 1]);
                    }
                }
            }
            put_node(&mut self.nodes, result.data);
            self.observed.push(result.node_id);
            proof {
                assert(self@.observed =~= before.observed.push(views[k as int].node_id));
                host_is_found(before.nodes, views[k as int].data.host, 0);
                one_host_more(before.nodes, views[k as int].data);
                assert(ids_of(views.take(k + 1)) =~= ids_of(views.take(k as int)).push(
                    views[k as int].node_id,
                ));
                assert(self@.observed =~= v.observed + ids_of(views.take(k + 1)));
            }
            k = k + 1;
        }
        proof {
            assert(views.take(k as int) =~= views);
        }
    }

    /// Decides on all answers.
    fn conclude(&mut self) -> (step: DiscoveryStep)
        requires
            old(self).wf(),
        ensures
            final(self).wf(),
            step@ == old(self)@.concluded().0,
            final(self)@ == old(self)@.concluded().1,
    {
        match elect(&self.nodes) {
            Ok(topology) => DiscoveryStep::Done(Ok(topology)),
            Err(e) => {
                if self.from_known {
                    *self = Discovery::asking();
                    DiscoveryStep::FetchSeeds
                } else {
                    DiscoveryStep::Done(Err(e))
                }
            },
        }
    }

    /// Goes on with the answers of the nodes that were probed.
    pub fn probed(&mut self, results: Vec<ProbedNode>) -> (step: DiscoveryStep)
        requires
            old(self).wf(),
            old(self)@.stage != Stage::Seeds,
        ensures
            final(self).wf(),
            old(self)@.answered(probed_views(results@), step@, final(self)@),
    {
        if self.stage == Stage::SeedNodes {
            let ids: Vec<String> = new_peers(&self.seeds, &results);
            let ghost views = probed_views(results@);
            let ghost v = self@;
            self.take_in(results);
            if ids.len() > 0 {
                proof {
                    assert(texts(ids@).contains(texts(ids@)[0]));
                }
                self.stage = Stage::PeerNodes;
                return DiscoveryStep::Probe(ids);
            }
            proof {
                assert forall|id: Seq<char>| #[trigger]
                    names_peer(views, id) implies v.seeds.contains(id) by {
                    assert(!texts(ids@).contains(id));
                }
            }
            self.conclude()
        } else {
            self.take_in(results);
            self.conclude()
        }
    }
}

} // verus!
