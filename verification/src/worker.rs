//! What a worker and the coordinator keep, and how they act on a message.

use vstd::prelude::*;
use crate::dgraph::DGraph;
use crate::model::{
    chunk_end, chunk_plan, chunk_start, decoded, edge_entries, flat_partition, graph_weight,
    has_key, merged, node_entries, well_formed, NodeView,
};
use crate::graph_laws::{lemma_merged, lemma_merged_again};
use crate::codec::encoding;
use crate::error::GraphError;
use crate::nodes::Key;
use crate::partition::{plan_views, PartitionPlan, PlanView};
use crate::wire::{
    decode_frame, encode_frame, frame_kind, frame_payload, framed, has_frame, GLOBAL_GRAPH,
    LOCAL_GRAPH, MAX_PAYLOAD, TESTCASE,
};

verus! {

/// The number of edges that the instrumentation tells apart.
pub const EDGES: usize = 4096;

/// Whether one of the first `n` members of a plan stands for the edge `e`.
pub open spec fn names_edge(plan: Seq<Key>, e: int, n: int) -> bool {
    exists|i: int| 0 <= i < n && i < plan.len() && (#[trigger] plan[i]).0 == e
}

/// Whether one of the first `n` plans has a member that stands for the edge
/// `e`.
pub open spec fn plans_name_edge(plans: Seq<PlanView>, e: int, n: int) -> bool {
    exists|r: int|
        0 <= r < n && r < plans.len() && names_edge(
            (#[trigger] plans[r]).plan,
            e,
            plans[r].plan.len() as int,
        )
}

/// The rank that the first `n` plans assign the edge `e` to, `prior` where
/// none of them names it: the plan at position `r` belongs to the rank
/// `r + 1`, and of several plans that name the edge the last one stands.
pub open spec fn assigned_rank(plans: Seq<PlanView>, e: int, n: int, prior: u32) -> u32
    decreases n,
{
    if n <= 0 {
        prior
    } else if names_edge(plans[n - 1].plan, e, plans[n - 1].plan.len() as int) {
        n as u32
    } else {
        assigned_rank(plans, e, n - 1, prior)
    }
}

/// Whether the worker `rank` owns the edge `e`: its plan, the one at
/// position `rank - 1`, names it.
pub open spec fn owns(plans: Seq<PlanView>, rank: u32, e: int) -> bool {
    1 <= rank <= plans.len() && names_edge(
        plans[rank - 1].plan,
        e,
        plans[rank - 1].plan.len() as int,
    )
}

/// The table of owners after the plans have been applied: an edge that a
/// plan names belongs to that plan's rank, every other entry stays.
pub open spec fn partitions_after(partitions: Seq<u32>, plans: Seq<PlanView>) -> Seq<u32> {
    Seq::new(
        partitions.len(),
        |e: int| assigned_rank(plans, e, plans.len() as int, partitions[e]),
    )
}

/// The mask after the plans have been applied for the worker `rank`: an
/// edge that a plan names is masked out unless the worker owns it, every
/// other entry stays.
pub open spec fn ignored_after(ignored: Seq<bool>, plans: Seq<PlanView>, rank: u32) -> Seq<bool> {
    Seq::new(
        ignored.len(),
        |e: int|
            if plans_name_edge(plans, e, plans.len() as int) {
                !owns(plans, rank, e)
            } else {
                ignored[e]
            },
    )
}

proof fn lemma_names_edge_step(plan: Seq<Key>, e: int, n: int)
    requires
        0 <= n < plan.len(),
    ensures
        names_edge(plan, e, n + 1) == (names_edge(plan, e, n) || plan[n].0 == e),
{
    if names_edge(plan, e, n + 1) {
        let i = choose|i: int| 0 <= i < n + 1 && i < plan.len() && (#[trigger] plan[i]).0 == e;
        if i < n {
            assert(names_edge(plan, e, n));
        }
    }
    if names_edge(plan, e, n) {
        let i = choose|i: int| 0 <= i < n && i < plan.len() && (#[trigger] plan[i]).0 == e;
        assert(0 <= i < n + 1 && plan[i].0 == e);
    }
    if plan[n].0 == e {
        assert(0 <= n < n + 1 && plan[n].0 == e);
    }
}

proof fn lemma_plans_name_edge_step(plans: Seq<PlanView>, e: int, n: int)
    requires
        0 <= n < plans.len(),
    ensures
        plans_name_edge(plans, e, n + 1) == (plans_name_edge(plans, e, n) || names_edge(
            plans[n].plan,
            e,
            plans[n].plan.len() as int,
        )),
{
    if plans_name_edge(plans, e, n + 1) {
        let r = choose|r: int|
            0 <= r < n + 1 && r < plans.len() && names_edge(
                (#[trigger] plans[r]).plan,
                e,
                plans[r].plan.len() as int,
            );
        if r < n {
            assert(plans_name_edge(plans, e, n));
        }
    }
    if plans_name_edge(plans, e, n) {
        let r = choose|r: int|
            0 <= r < n && r < plans.len() && names_edge(
                (#[trigger] plans[r]).plan,
                e,
                plans[r].plan.len() as int,
            );
        assert(0 <= r < n + 1 && names_edge(plans[r].plan, e, plans[r].plan.len() as int));
    }
    if names_edge(plans[n].plan, e, plans[n].plan.len() as int) {
        assert(0 <= n < n + 1 && names_edge(plans[n].plan, e, plans[n].plan.len() as int));
    }
}

/// Applies a partition to the two tables of the worker `rank`: every edge
/// that a plan names gets the plan's rank as its owner, and is masked out
/// unless it is in the worker's own plan.
pub fn apply_plans(
    ignored: &mut Vec<bool>,
    partitions: &mut Vec<u32>,
    plans: &Vec<PartitionPlan>,
    rank: u32,
)
    requires
        old(ignored)@.len() == EDGES,
        old(partitions)@.len() == EDGES,
        plans@.len() <= u32::MAX,
    ensures
        final(partitions)@ == partitions_after(old(partitions)@, plan_views(plans@)),
        final(ignored)@ == ignored_after(old(ignored)@, plan_views(plans@), rank),
{
    let ghost all = plan_views(plans@);
    let mut r: usize = 0;
    while r < plans.len()
        invariant
            r <= plans.len(),
            plans@.len() <= u32::MAX,
            all == plan_views(plans@),
            ignored@.len() == EDGES,
            partitions@.len() == EDGES,
            forall|e: int|
                0 <= e < EDGES ==> #[trigger] partitions@[e] == assigned_rank(
                    all,
                    e,
                    r as int,
                    old(partitions)@[e],
                ),
            forall|e: int|
                0 <= e < EDGES ==> #[trigger] ignored@[e] == (if plans_name_edge(all, e, r as int) {
                    true
                } else {
                    old(ignored)@[e]
                }),
        decreases plans.len() - r,
    {
        let ghost before_owner = partitions@;
        let ghost before_mask = ignored@;
        let ghost members = all[r as int].plan;
        assert(members == plans@[r as int].plan@);
        let mut p: usize = 0;
        while p < plans[r].plan.len()
            invariant
                r < plans.len(),
                plans@.len() <= u32::MAX,
                members == plans@[r as int].plan@,
                p <= members.len(),
                ignored@.len() == EDGES,
                partitions@.len() == EDGES,
                forall|e: int|
                    0 <= e < EDGES ==> #[trigger] partitions@[e] == (if names_edge(
                        members,
                        e,
                        p as int,
                    ) {
                        (r + 1) as u32
                    } else {
                        before_owner[e]
                    }),
                forall|e: int|
                    0 <= e < EDGES ==> #[trigger] ignored@[e] == (if names_edge(members, e, p as int) {
                        true
                    } else {
                        before_mask[e]
                    }),
            decreases members.len() - p,
        {
            let edge = plans[r].plan[p].0 as usize;
            proof {
                assert forall|e: int| 0 <= e < EDGES implies names_edge(members, e, p as int + 1) == (
                names_edge(members, e, p as int) || members[p as int].0 == e) by {
                    lemma_names_edge_step(members, e, p as int);
                }
            }
            if edge < EDGES {
                partitions[edge] = (r + 1) as u32;
                ignored[edge] = true;
            }
            p += 1;
        }
        proof {
            assert forall|e: int| 0 <= e < EDGES implies #[trigger] partitions@[e] == assigned_rank(
                all,
                e,
                r as int + 1,
                old(partitions)@[e],
            ) by {}
            assert forall|e: int| 0 <= e < EDGES implies #[trigger] ignored@[e] == (if plans_name_edge(
                all,
                e,
                r as int + 1,
            ) {
                true
            } else {
                old(ignored)@[e]
            }) by {
                lemma_plans_name_edge_step(all, e, r as int);
            }
        }
        r += 1;
    }
    if 1 <= rank && rank as usize <= plans.len() {
        let own = (rank - 1) as usize;
        let ghost before_mask = ignored@;
        let ghost members = all[own as int].plan;
        assert(members == plans@[own as int].plan@);
        let mut p: usize = 0;
        while p < plans[own].plan.len()
            invariant
                own < plans.len(),
                members == plans@[own as int].plan@,
                p <= members.len(),
                ignored@.len() == EDGES,
                partitions@ == partitions_after(old(partitions)@, all),
                forall|e: int|
                    0 <= e < EDGES ==> #[trigger] ignored@[e] == (if names_edge(members, e, p as int) {
                        false
                    } else {
                        before_mask[e]
                    }),
            decreases members.len() - p,
        {
            let edge = plans[own].plan[p].0 as usize;
            proof {
                assert forall|e: int| 0 <= e < EDGES implies names_edge(members, e, p as int + 1) == (
                names_edge(members, e, p as int) || members[p as int].0 == e) by {
                    lemma_names_edge_step(members, e, p as int);
                }
            }
            if edge < EDGES {
                ignored[edge] = false;
            }
            p += 1;
        }
        proof {
            assert forall|e: int| 0 <= e < EDGES implies ignored@[e] == ignored_after(
                old(ignored)@,
                all,
                rank,
            )[e] by {
                if owns(all, rank, e) {
                    assert(names_edge(all[own as int].plan, e, all[own as int].plan.len() as int));
                    assert(plans_name_edge(all, e, all.len() as int));
                }
            }
        }
    }
    assert(partitions@ =~= partitions_after(old(partitions)@, all));
    assert(ignored@ =~= ignored_after(old(ignored)@, all, rank));
}

/// What a worker makes of a message.
#[derive(Debug)]
pub enum Outcome {
    /// The graph of the fleet was taken in and the worker's tables follow
    /// the new partition.
    Reconciled,
    /// Another worker sent this testcase; the fuzzer is to run it.
    Testcase(Vec<u8>),
    /// The message was a graph of the fleet and could not be used.
    Dropped(GraphError),
    /// The message was none that a worker acts on.
    Ignored,
}

/// What a worker keeps between epochs: its graph, the mask of edges that
/// are not its own, and the table of owners.
pub struct Worker {
    /// The worker's view of the execution graph.
    pub graph: DGraph,
    /// For each edge, whether a hit on it is left to another worker.
    pub ignored: Vec<bool>,
    /// For each edge the rank that owns it, 0 for none.
    pub partitions: Vec<u32>,
    /// The worker's own rank.
    pub rank: u32,
    /// The number of processes in the fleet.
    pub world: u32,
}

/// Whether the graph `g` can take in what came as `payload`: the payload
/// stands for a graph, and both graphs together weigh no more than a graph
/// can hold.
pub open spec fn takes_in(g: Seq<NodeView>, payload: Seq<u8>) -> bool {
    decoded(payload) matches Some(theirs) && graph_weight(g) + graph_weight(theirs) <= u64::MAX
}

/// The graph `g` after a graph came in as `payload`: merged where it can be
/// taken in, and as before where not.
pub open spec fn graph_after(g: Seq<NodeView>, payload: Seq<u8>) -> Seq<NodeView> {
    if takes_in(g, payload) {
        merged(g, decoded(payload)->0)
    } else {
        g
    }
}

/// Whether a worker can set its tables by the graph that came as `payload`:
/// the graph can be taken in, and the merged graph has a node for each of
/// the `world` plans.
pub open spec fn usable(g: Seq<NodeView>, payload: Seq<u8>, world: u32) -> bool {
    takes_in(g, payload) && 1 <= world <= graph_after(g, payload).len()
}

impl Worker {
    /// Whether the worker's state is in order.
    pub open spec fn wf(&self) -> bool {
        &&& self.graph.wf()
        &&& self.ignored@.len() == EDGES
        &&& self.partitions@.len() == EDGES
    }

    /// A worker that has seen nothing yet: no edge is masked out and none
    /// has an owner.
    pub fn new(rank: u32, world: u32) -> (worker: Self)
        ensures
            worker.wf(),
            worker.graph@ == crate::model::fresh(),
            worker.ignored@ == Seq::new(EDGES as nat, |e: int| false),
            worker.partitions@ == Seq::new(EDGES as nat, |e: int| 0u32),
            worker.rank == rank,
            worker.world == world,
    {
        let mut ignored: Vec<bool> = Vec::new();
        let mut partitions: Vec<u32> = Vec::new();
        let mut e: usize = 0;
        while e < EDGES
            invariant
                e <= EDGES,
                ignored@ == Seq::new(e as nat, |e: int| false),
                partitions@ == Seq::new(e as nat, |e: int| 0u32),
            decreases EDGES - e,
        {
            ignored.push(false);
            partitions.push(0);
            e += 1;
            assert(ignored@ =~= Seq::new(e as nat, |e: int| false));
            assert(partitions@ =~= Seq::new(e as nat, |e: int| 0u32));
        }
        Worker { graph: DGraph::new(), ignored, partitions, rank, world }
    }

    /// The worker's graph as a message for the coordinator. A graph too
    /// large for one frame cannot be sent.
    pub fn upload(&self) -> (message: Result<Vec<u8>, GraphError>)
        requires
            self.wf(),
        ensures
            match message {
                Ok(bytes) => bytes@ == framed(
                    LOCAL_GRAPH,
                    encoding(node_entries(self.graph@), edge_entries(self.graph@)),
                ),
                Err(error) => error == GraphError::TransportFailure && encoding(
                    node_entries(self.graph@),
                    edge_entries(self.graph@),
                ).len() > MAX_PAYLOAD,
            },
    {
        let payload = self.graph.serialize();
        match encode_frame(LOCAL_GRAPH, payload.as_slice()) {
            Some(bytes) => Ok(bytes),
            None => Err(GraphError::TransportFailure),
        }
    }

    /// Takes a graph of the fleet in: merges it into the worker's graph, cuts
    /// the merged graph into one plan for each process, and sets the two
    /// tables by these plans. A payload that stands for no graph, or for one
    /// that does not fit in, changes nothing. Where the merged graph has
    /// fewer nodes than there are processes, or there is no process, it
    /// stays merged and the tables stay as they are.
    pub fn reconcile(&mut self, payload: Vec<u8>) -> (done: Result<(), GraphError>)
        requires
            old(self).wf(),
        ensures
            final(self).wf(),
            final(self).rank == old(self).rank,
            final(self).world == old(self).world,
            final(self).graph@ == graph_after(old(self).graph@, payload@),
            match done {
                Ok(_) => {
                    let plans = flat_partition(final(self).graph@, old(self).world as int);
                    &&& usable(old(self).graph@, payload@, old(self).world)
                    &&& final(self).partitions@ == partitions_after(old(self).partitions@, plans)
                    &&& final(self).ignored@ == ignored_after(
                        old(self).ignored@,
                        plans,
                        old(self).rank,
                    )
                },
                Err(error) => {
                    &&& !usable(old(self).graph@, payload@, old(self).world)
                    &&& final(self).partitions@ == old(self).partitions@
                    &&& final(self).ignored@ == old(self).ignored@
                    &&& error == if takes_in(old(self).graph@, payload@) {
                        GraphError::InvalidArity
                    } else {
                        GraphError::MalformedGraph
                    }
                },
            },
    {
        let theirs = match DGraph::deserialize(payload) {
            Ok(theirs) => theirs,
            Err(error) => {
                return Err(error);
            },
        };
        match self.graph.try_merge(&theirs) {
            Ok(_) => {},
            Err(error) => {
                return Err(error);
            },
        }
        let plans = match self.graph.partition(self.world as usize) {
            Ok(plans) => plans,
            Err(error) => {
                return Err(error);
            },
        };
        assert(plan_views(plans@).len() == plans@.len());
        apply_plans(&mut self.ignored, &mut self.partitions, &plans, self.rank);
        Ok(())
    }

    /// Acts on a message taken off the transport between two epochs.
    pub fn on_message(&mut self, bytes: &[u8]) -> (outcome: Outcome)
        requires
            old(self).wf(),
        ensures
            final(self).wf(),
            final(self).rank == old(self).rank,
            final(self).world == old(self).world,
            match outcome {
                Outcome::Testcase(data) => {
                    &&& has_frame(bytes@)
                    &&& frame_kind(bytes@) == TESTCASE
                    &&& data@ == frame_payload(bytes@)
                    &&& final(self).graph@ == old(self).graph@
                    &&& final(self).partitions@ == old(self).partitions@
                    &&& final(self).ignored@ == old(self).ignored@
                },
                Outcome::Reconciled => {
                    let plans = flat_partition(final(self).graph@, old(self).world as int);
                    &&& has_frame(bytes@)
                    &&& frame_kind(bytes@) == GLOBAL_GRAPH
                    &&& usable(old(self).graph@, frame_payload(bytes@), old(self).world)
                    &&& final(self).graph@ == graph_after(old(self).graph@, frame_payload(bytes@))
                    &&& final(self).partitions@ == partitions_after(old(self).partitions@, plans)
                    &&& final(self).ignored@ == ignored_after(
                        old(self).ignored@,
                        plans,
                        old(self).rank,
                    )
                },
                Outcome::Dropped(error) => {
                    &&& has_frame(bytes@)
                    &&& frame_kind(bytes@) == GLOBAL_GRAPH
                    &&& !usable(old(self).graph@, frame_payload(bytes@), old(self).world)
                    &&& final(self).graph@ == graph_after(old(self).graph@, frame_payload(bytes@))
                    &&& final(self).partitions@ == old(self).partitions@
                    &&& final(self).ignored@ == old(self).ignored@
                    &&& error == if takes_in(old(self).graph@, frame_payload(bytes@)) {
                        GraphError::InvalidArity
                    } else {
                        GraphError::MalformedGraph
                    }
                },
                Outcome::Ignored => {
                    &&& !(has_frame(bytes@) && (frame_kind(bytes@) == TESTCASE || frame_kind(bytes@)
                        == GLOBAL_GRAPH))
                    &&& final(self).graph@ == old(self).graph@
                    &&& final(self).partitions@ == old(self).partitions@
                    &&& final(self).ignored@ == old(self).ignored@
                },
            },
    {
        match decode_frame(bytes) {
            None => Outcome::Ignored,
            Some(frame) => {
                if frame.kind == GLOBAL_GRAPH {
                    match self.reconcile(frame.payload) {
                        Ok(_) => Outcome::Reconciled,
                        Err(error) => Outcome::Dropped(error),
                    }
                } else if frame.kind == TESTCASE {
                    Outcome::Testcase(frame.payload)
                } else {
                    Outcome::Ignored
                }
            },
        }
    }
}

/// What the coordinator keeps: the graph of the fleet.
pub struct Coordinator {
    /// All that the workers have handed in, merged.
    pub master: DGraph,
}

impl Coordinator {
    /// A coordinator that has heard from no worker yet.
    pub fn new() -> (coordinator: Self)
        ensures
            coordinator.master.wf(),
            coordinator.master@ == crate::model::fresh(),
    {
        Coordinator { master: DGraph::new() }
    }

    /// Acts on a message from a worker: merges the worker's graph into the
    /// graph of the fleet and answers with the merged graph. Only a worker's
    /// graph is accepted; a payload that stands for no graph, or for one
    /// that does not fit in, changes nothing.
    pub fn on_message(&mut self, bytes: &[u8]) -> (reply: Result<Vec<u8>, GraphError>)
        requires
            old(self).master.wf(),
        ensures
            final(self).master.wf(),
            has_frame(bytes@) && frame_kind(bytes@) == LOCAL_GRAPH ==> final(self).master@
                == graph_after(old(self).master@, frame_payload(bytes@)),
            !(has_frame(bytes@) && frame_kind(bytes@) == LOCAL_GRAPH) ==> final(self).master@ == old(
                self,
            ).master@,
            match reply {
                Ok(answer) => {
                    &&& has_frame(bytes@)
                    &&& frame_kind(bytes@) == LOCAL_GRAPH
                    &&& takes_in(old(self).master@, frame_payload(bytes@))
                    &&& answer@ == framed(
                        GLOBAL_GRAPH,
                        encoding(node_entries(final(self).master@), edge_entries(final(self).master@)),
                    )
                },
                Err(error) => {
                    if !(has_frame(bytes@) && frame_kind(bytes@) == LOCAL_GRAPH) {
                        error == GraphError::TransportFailure
                    } else if !takes_in(old(self).master@, frame_payload(bytes@)) {
                        error == GraphError::MalformedGraph
                    } else {
                        &&& error == GraphError::TransportFailure
                        &&& encoding(
                            node_entries(final(self).master@),
                            edge_entries(final(self).master@),
                        ).len() > MAX_PAYLOAD
                    }
                },
            },
    {
        let frame = match decode_frame(bytes) {
            Some(frame) => frame,
            None => {
                return Err(GraphError::TransportFailure);
            },
        };
        if frame.kind != LOCAL_GRAPH {
            return Err(GraphError::TransportFailure);
        }
        let theirs = match DGraph::deserialize(frame.payload) {
            Ok(theirs) => theirs,
            Err(error) => {
                return Err(error);
            },
        };
        match self.master.try_merge(&theirs) {
            Ok(_) => {},
            Err(error) => {
                return Err(error);
            },
        }
        let payload = self.master.serialize();
        match encode_frame(GLOBAL_GRAPH, payload.as_slice()) {
            Some(answer) => Ok(answer),
            None => Err(GraphError::TransportFailure),
        }
    }
}

/// Whether two partitions name the same members plan by plan.
spec fn same_members(a: Seq<PlanView>, b: Seq<PlanView>) -> bool {
    a.len() == b.len() && forall|r: int| 0 <= r < a.len() ==> (#[trigger] a[r]).plan == b[r].plan
}

proof fn lemma_assigned_rank_again(a: Seq<PlanView>, b: Seq<PlanView>, e: int, n: int, prior: u32)
    requires
        same_members(a, b),
        0 <= n <= a.len(),
    ensures
        assigned_rank(b, e, n, assigned_rank(a, e, n, prior)) == assigned_rank(a, e, n, prior),
        assigned_rank(b, e, n, prior) == assigned_rank(a, e, n, prior),
    decreases n,
{
    if n > 0 {
        assert(a[n - 1].plan == b[n - 1].plan);
        lemma_assigned_rank_again(a, b, e, n - 1, prior);
        lemma_assigned_rank_again(a, b, e, n - 1, n as u32);
        lemma_assigned_rank_settled(b, e, n - 1, assigned_rank(a, e, n - 1, prior));
    }
}

proof fn lemma_assigned_rank_settled(plans: Seq<PlanView>, e: int, n: int, prior: u32)
    requires
        0 <= n <= plans.len(),
    ensures
        assigned_rank(plans, e, n, assigned_rank(plans, e, n, prior)) == assigned_rank(
            plans,
            e,
            n,
            prior,
        ),
    decreases n,
{
    if n > 0 {
        lemma_assigned_rank_settled(plans, e, n - 1, prior);
    }
}

proof fn lemma_names_again(a: Seq<PlanView>, b: Seq<PlanView>, rank: u32, e: int)
    requires
        same_members(a, b),
    ensures
        plans_name_edge(a, e, a.len() as int) == plans_name_edge(b, e, b.len() as int),
        owns(a, rank, e) == owns(b, rank, e),
{
    if plans_name_edge(a, e, a.len() as int) {
        let r = choose|r: int|
            0 <= r < a.len() && r < a.len() && names_edge(
                (#[trigger] a[r]).plan,
                e,
                a[r].plan.len() as int,
            );
        assert(names_edge(b[r].plan, e, b[r].plan.len() as int));
    }
    if plans_name_edge(b, e, b.len() as int) {
        let r = choose|r: int|
            0 <= r < b.len() && r < b.len() && names_edge(
                (#[trigger] b[r]).plan,
                e,
                b[r].plan.len() as int,
            );
        assert(a[r].plan == b[r].plan);
        assert(names_edge(a[r].plan, e, a[r].plan.len() as int));
    }
    if 1 <= rank <= a.len() {
        assert(a[rank - 1].plan == b[rank - 1].plan);
    }
}

/// Taking the same graph of the fleet in a second time leaves both tables
/// of a worker as they were after the first time.
pub proof fn lemma_reconcile_again(
    g: Seq<NodeView>,
    theirs: Seq<NodeView>,
    world: u32,
    rank: u32,
    ignored: Seq<bool>,
    partitions: Seq<u32>,
)
    requires
        well_formed(g),
        well_formed(theirs),
        1 <= world <= merged(g, theirs).len(),
    ensures
        ({
            let once = merged(g, theirs);
            let twice = merged(once, theirs);
            let first = flat_partition(once, world as int);
            let second = flat_partition(twice, world as int);
            &&& twice.len() == once.len()
            &&& partitions_after(partitions_after(partitions, first), second) == partitions_after(
                partitions,
                first,
            )
            &&& ignored_after(ignored_after(ignored, first, rank), second, rank) == ignored_after(
                ignored,
                first,
                rank,
            )
        }),
{
    let once = merged(g, theirs);
    let twice = merged(once, theirs);
    let first = flat_partition(once, world as int);
    let second = flat_partition(twice, world as int);
    lemma_merged(g, theirs, crate::model::root_key(), crate::model::root_key());
    assert forall|j: int| 0 <= j < theirs.len() implies has_key(once, (#[trigger] theirs[j]).key) by {
        lemma_merged(g, theirs, theirs[j].key, theirs[j].key);
    }
    lemma_merged_again(once, theirs);
    assert(same_members(first, second)) by {
        assert forall|r: int| 0 <= r < first.len() implies (#[trigger] first[r]).plan == second[r].plan by {
            let from = chunk_start(once.len() as int, world as int, r);
            let to = chunk_end(once.len() as int, world as int, r);
            assert(0 <= from <= to <= once.len()) by (nonlinear_arith)
                requires
                    0 <= r < world,
                    from == r * (once.len() as int / world as int),
                    to == if r == world - 1 {
                        once.len() as int
                    } else {
                        (r + 1) * (once.len() as int / world as int)
                    },
                    1 <= world <= once.len(),
            ;
            assert forall|i: int| 0 <= i < to - from implies chunk_plan(once, from, to).plan[i]
                == chunk_plan(twice, from, to).plan[i] by {
                assert(twice[from + i].key == once[from + i].key);
            }
            assert(chunk_plan(once, from, to).plan =~= chunk_plan(twice, from, to).plan);
        }
    }
    let settled = partitions_after(partitions, first);
    assert(partitions_after(settled, second) =~= settled) by {
        assert forall|e: int| 0 <= e < partitions.len() implies partitions_after(settled, second)[e]
            == settled[e] by {
            lemma_assigned_rank_again(first, second, e, first.len() as int, partitions[e]);
        }
    }
    let masked = ignored_after(ignored, first, rank);
    assert(ignored_after(masked, second, rank) =~= masked) by {
        assert forall|e: int| 0 <= e < ignored.len() implies ignored_after(masked, second, rank)[e]
            == masked[e] by {
            lemma_names_again(first, second, rank, e);
        }
    }
}

} // verus!
