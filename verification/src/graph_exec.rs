//! Executing computation graphs: a lazy result cache, scheduling into
//! batches of independent nodes, ordered execution, streaming in chunks and
//! partitioning across workers.
use vstd::prelude::*;
use crate::graph::{
    contains_string, find_node, index_of_id, is_topo_order, has_cycle, insert_node, insert_node_vec,
    lemma_index_of_id_some, lemma_perm_contains, node_ids, push_unique, select, strs, unique_ids, ComputationGraph,
    GraphNode, GraphSpec, NodeSpec,
};
use crate::migration::chunks;
use crate::graph_op::{GraphError, GraphErrorKind};

verus! {

/// Execution batch containing independent nodes that can run in parallel.
#[derive(Debug, Clone)]
pub struct ExecutionBatch {
    /// Node IDs in this batch
    pub node_ids: Vec<String>,
    /// Batch level in the dependency graph
    pub level: usize,
}

impl ExecutionBatch {
    /// Create a new, empty execution batch.
    pub fn new(level: usize) -> (r: Self)
        ensures r.node_ids@.len() == 0, r.level == level,
    {
        ExecutionBatch { node_ids: Vec::new(), level }
    }

    /// Add a node to the batch.
    pub fn add_node(&mut self, node_id: String)
        ensures final(self).node_ids@ == old(self).node_ids@.push(node_id), final(self).level == old(self).level,
    {
        self.node_ids.push(node_id);
    }

    /// Get the number of nodes in the batch.
    pub fn size(&self) -> (r: usize)
        ensures r == self.node_ids@.len(),
    {
        self.node_ids.len()
    }
}

/// The highest known level among the first `j` inputs `ins` that name nodes (0 if none).
pub open spec fn input_max(nodes: Seq<NodeSpec>, lv: Seq<Option<nat>>, ins: Seq<Seq<char>>, j: nat) -> nat
    decreases j,
{
    if j == 0 {
        0
    } else {
        let m = input_max(nodes, lv, ins, (j - 1) as nat);
        let u = index_of_id(nodes, ins[j - 1]);
        if u >= 0 && lv[u] is Some && lv[u]->0 > m { lv[u]->0 } else { m }
    }
}

/// The level of node `v` given the levels known so far: 0 for a graph input,
/// else one more than the highest known level among its inputs.
pub open spec fn level_at(g: GraphSpec, lv: Seq<Option<nat>>, v: int) -> nat {
    if g.inputs.contains(g.nodes[v].id) {
        0
    } else {
        input_max(g.nodes, lv, g.nodes[v].inputs, g.nodes[v].inputs.len()) + 1
    }
}

/// The levels after assigning the first `k` nodes of `ord`.
pub open spec fn levels_after(g: GraphSpec, ord: Seq<int>, k: nat) -> Seq<Option<nat>>
    decreases k,
{
    if k == 0 {
        Seq::new(g.nodes.len(), |i: int| None)
    } else {
        let p = levels_after(g, ord, (k - 1) as nat);
        p.update(ord[k - 1], Some(level_at(g, p, ord[k - 1])))
    }
}

/// The batches (node ids by level) after placing the first `k` nodes of `ord`.
pub open spec fn batches_after(g: GraphSpec, ord: Seq<int>, k: nat) -> Seq<Seq<Seq<char>>>
    decreases k,
{
    if k == 0 {
        Seq::empty()
    } else {
        let b = batches_after(g, ord, (k - 1) as nat);
        let v = ord[k - 1];
        let l = level_at(g, levels_after(g, ord, (k - 1) as nat), v);
        let e = if b.len() > l { b } else { b + Seq::new((l + 1 - b.len()) as nat, |i: int| Seq::<Seq<char>>::empty()) };
        e.update(l as int, e[l as int].push(g.nodes[v].id))
    }
}

pub open spec fn batch_ids(b: Seq<ExecutionBatch>) -> Seq<Seq<Seq<char>>> {
    b.map_values(|x: ExecutionBatch| strs(x.node_ids@))
}

/// Batch scheduler for identifying independent nodes.
pub struct BatchScheduler;

proof fn lemma_input_max_ge(nodes: Seq<NodeSpec>, lv: Seq<Option<nat>>, ins: Seq<Seq<char>>, j: nat, a: int)
    requires 0 <= a < j <= ins.len(),
    ensures ({
        let u = index_of_id(nodes, ins[a]);
        u >= 0 && lv[u] is Some ==> lv[u]->0 <= input_max(nodes, lv, ins, j)
    }),
    decreases j,
{
    if a < j - 1 {
        lemma_input_max_ge(nodes, lv, ins, (j - 1) as nat, a);
    }
}

proof fn lemma_input_max_le(nodes: Seq<NodeSpec>, lv: Seq<Option<nat>>, ins: Seq<Seq<char>>, j: nat, bound: nat)
    requires forall|w: int| 0 <= w < lv.len() && #[trigger] lv[w] is Some ==> lv[w]->0 <= bound,
        j <= ins.len(), nodes.len() <= lv.len(),
    ensures input_max(nodes, lv, ins, j) <= bound,
    decreases j,
{
    if j > 0 {
        lemma_input_max_le(nodes, lv, ins, (j - 1) as nat, bound);
        lemma_index_of_id_some(nodes, ins[j - 1]);
    }
}

proof fn lemma_levels_len(g: GraphSpec, ord: Seq<int>, k: nat)
    requires k <= ord.len(), forall|t: int| 0 <= t < ord.len() ==> 0 <= #[trigger] ord[t] < g.nodes.len(),
    ensures levels_after(g, ord, k).len() == g.nodes.len(),
    decreases k,
{
    if k > 0 { lemma_levels_len(g, ord, (k - 1) as nat); }
}

/// The level of a node assigned at step `i` stays as assigned; a node not
/// among the first `k` of the order has none.
proof fn lemma_level_stable(g: GraphSpec, ord: Seq<int>, k: nat, w: int)
    requires k <= ord.len(), ord.no_duplicates(), 0 <= w < g.nodes.len(),
        forall|t: int| 0 <= t < ord.len() ==> 0 <= #[trigger] ord[t] < g.nodes.len(),
    ensures
        (exists|i: int| 0 <= i < k && ord[i] == w) ==> {
            let i = choose|i: int| 0 <= i < k && ord[i] == w;
            levels_after(g, ord, k)[w] == Some(level_at(g, levels_after(g, ord, i as nat), w))
        },
        !(exists|i: int| 0 <= i < k && ord[i] == w) ==> levels_after(g, ord, k)[w] is None,
    decreases k,
{
    lemma_levels_len(g, ord, k);
    if k > 0 {
        lemma_level_stable(g, ord, (k - 1) as nat, w);
        lemma_levels_len(g, ord, (k - 1) as nat);
        if exists|i: int| 0 <= i < k && ord[i] == w {
            let i = choose|i: int| 0 <= i < k && ord[i] == w;
            if i < k - 1 {
                assert(exists|i2: int| 0 <= i2 < k - 1 && ord[i2] == w);
                let i2 = choose|i2: int| 0 <= i2 < k - 1 && ord[i2] == w;
                assert(i2 == i);
                assert(ord[k - 1] != w);
            } else {
                if exists|i2: int| 0 <= i2 < k - 1 && ord[i2] == w {
                    let i2 = choose|i2: int| 0 <= i2 < k - 1 && ord[i2] == w;
                    assert(ord[i2] == ord[k - 1]);
                }
            }
        }
    }
}

/// All levels assigned after `k` steps are at most `k`.
proof fn lemma_levels_bound(g: GraphSpec, ord: Seq<int>, k: nat)
    requires k <= ord.len(), forall|t: int| 0 <= t < ord.len() ==> 0 <= #[trigger] ord[t] < g.nodes.len(),
    ensures forall|w: int| 0 <= w < levels_after(g, ord, k).len() && #[trigger] levels_after(g, ord, k)[w] is Some
        ==> levels_after(g, ord, k)[w]->0 <= k,
    decreases k,
{
    lemma_levels_len(g, ord, k);
    if k > 0 {
        let p = levels_after(g, ord, (k - 1) as nat);
        lemma_levels_bound(g, ord, (k - 1) as nat);
        lemma_levels_len(g, ord, (k - 1) as nat);
        let v = ord[k - 1];
        if !g.inputs.contains(g.nodes[v].id) {
            lemma_input_max_le(g.nodes, p, g.nodes[v].inputs, g.nodes[v].inputs.len(), (k - 1) as nat);
        }
    }
}

proof fn lemma_input_max_zero(nodes: Seq<NodeSpec>, lv: Seq<Option<nat>>, ins: Seq<Seq<char>>, j: nat)
    requires forall|w: int| 0 <= w < lv.len() ==> lv[w] is None, nodes.len() <= lv.len(), j <= ins.len(),
    ensures input_max(nodes, lv, ins, j) == 0,
    decreases j,
{
    if j > 0 {
        lemma_input_max_zero(nodes, lv, ins, (j - 1) as nat);
        lemma_index_of_id_some(nodes, ins[j - 1]);
    }
}

/// The final level of every node of a topological order.
pub open spec fn final_levels(g: GraphSpec, ord: Seq<int>) -> Seq<Option<nat>> {
    levels_after(g, ord, ord.len())
}

/// Batches hold independent nodes: when a node that is not a graph input
/// takes an input naming another node, that node's level is lower.
pub proof fn lemma_levels_respect_inputs(g: GraphSpec, ord: Seq<int>, v: int, j: int)
    requires
        is_topo_order(g.nodes, ord), unique_ids(g.nodes),
        0 <= v < g.nodes.len(), 0 <= j < g.nodes[v].inputs.len(),
        index_of_id(g.nodes, g.nodes[v].inputs[j]) >= 0,
        !g.inputs.contains(g.nodes[v].id),
    ensures ({
        let u = index_of_id(g.nodes, g.nodes[v].inputs[j]);
        &&& final_levels(g, ord)[u] is Some
        &&& final_levels(g, ord)[v] is Some
        &&& final_levels(g, ord)[u]->0 < final_levels(g, ord)[v]->0
    }),
{
    let n = g.nodes.len();
    let u = index_of_id(g.nodes, g.nodes[v].inputs[j]);
    lemma_index_of_id_some(g.nodes, g.nodes[v].inputs[j]);
    lemma_perm_contains(ord, n, v);
    lemma_perm_contains(ord, n, u);
    let iv = choose|i: int| 0 <= i < ord.len() && ord[i] == v;
    let iu = choose|i: int| 0 <= i < ord.len() && ord[i] == u;
    assert(crate::graph::depends(g.nodes, v, u));
    assert(iu < iv);
    lemma_level_stable(g, ord, ord.len(), v);
    lemma_level_stable(g, ord, ord.len(), u);
    lemma_level_stable(g, ord, iv as nat, u);
    let civ = choose|i: int| 0 <= i < ord.len() && ord[i] == v;
    let ciu = choose|i: int| 0 <= i < ord.len() && ord[i] == u;
    assert(civ == iv);
    assert(ciu == iu);
    assert(exists|i: int| 0 <= i < iv && ord[i] == u);
    let ciu2 = choose|i: int| 0 <= i < iv && ord[i] == u;
    assert(ciu2 == iu);
    let p = levels_after(g, ord, iv as nat);
    lemma_levels_len(g, ord, iv as nat);
    lemma_input_max_ge(g.nodes, p, g.nodes[v].inputs, g.nodes[v].inputs.len(), j);
}

/// Once placed, a node's id stays in the batch of its level.
pub proof fn lemma_batch_holds(g: GraphSpec, ord: Seq<int>, k: nat, i: int)
    requires k <= ord.len(), 0 <= i < k, ord.no_duplicates(), forall|t: int| 0 <= t < ord.len() ==> 0 <= #[trigger] ord[t] < g.nodes.len(),
    ensures ({
        let l = level_at(g, levels_after(g, ord, i as nat), ord[i]);
        l < batches_after(g, ord, k).len() && batches_after(g, ord, k)[l as int].contains(g.nodes[ord[i]].id)
    }),
    decreases k,
{
    let l = level_at(g, levels_after(g, ord, i as nat), ord[i]);
    let b = batches_after(g, ord, (k - 1) as nat);
    let lk = level_at(g, levels_after(g, ord, (k - 1) as nat), ord[k - 1]);
    let e = if b.len() > lk { b } else { b + Seq::new((lk + 1 - b.len()) as nat, |x: int| Seq::<Seq<char>>::empty()) };
    let r = batches_after(g, ord, k);
    assert(r == e.update(lk as int, e[lk as int].push(g.nodes[ord[k - 1]].id)));
    if i == k - 1 {
        assert(r[l as int][e[l as int].len() as int] == g.nodes[ord[i]].id);
    } else {
        lemma_batch_holds(g, ord, (k - 1) as nat, i);
        assert(e[l as int] == b[l as int]);
        let w = choose|w: int| 0 <= w < b[l as int].len() && b[l as int][w] == g.nodes[ord[i]].id;
        if l == lk {
            assert(r[l as int][w] == g.nodes[ord[i]].id);
        } else {
            assert(r[l as int] == b[l as int]);
        }
    }
}

impl BatchScheduler {
    /// Create execution batches from a computation graph: in a topological
    /// order, each node gets level 0 if it is a graph input, else one more
    /// than the highest level among its inputs that are nodes, and joins the
    /// batch of its level. Nodes of one batch do not depend on each other
    /// (see `lemma_levels_respect_inputs`). `CircularDependency` when the
    /// graph has a cycle.
    pub fn create_batches(graph: &ComputationGraph) -> (r: Result<Vec<ExecutionBatch>, GraphError>)
        requires graph.wf(),
        ensures
            match r {
                Ok(b) => exists|ord: Seq<int>| #[trigger] is_topo_order(graph@.nodes, ord)
                    && batch_ids(b@) == batches_after(graph@, ord, ord.len())
                    && forall|l: int| 0 <= l < b@.len() ==> #[trigger] b@[l].level == l,
                Err(e) => has_cycle(graph@.nodes) && e.kind() == GraphErrorKind::CircularDependency,
            },
    {
        let ghost g = graph@;
        let order = match graph.topo_order() {
            Some(o) => o,
            None => { return Err(GraphError::CircularDependency); },
        };
        let ghost ord = crate::graph::ints(order@);
        let n = graph.nodes.len();
        let mut levels: Vec<Option<usize>> = Vec::new();
        let mut i: usize = 0;
        while i < n
            invariant i <= n, levels@.len() == i, forall|w: int| 0 <= w < i ==> levels@[w] is None,
            decreases n - i,
        {
            levels.push(None);
            i += 1;
        }
        let mut batches: Vec<ExecutionBatch> = Vec::new();
        proof { lemma_levels_len(g, ord, 0); }
        assert(batch_ids(batches@) =~= Seq::<Seq<Seq<char>>>::empty());
        let mut k: usize = 0;
        while k < order.len()
            invariant
                k <= order.len(), n == g.nodes.len(), g == graph@, is_topo_order(g.nodes, ord), ord == crate::graph::ints(order@),
                levels@.len() == n,
                forall|w: int| 0 <= w < n ==> #[trigger] levels@[w] == match levels_after(g, ord, k as nat)[w] {
                    Some(l) => Some(l as usize), None => None::<usize> },
                forall|w: int| 0 <= w < n && #[trigger] levels_after(g, ord, k as nat)[w] is Some ==> levels_after(g, ord, k as nat)[w]->0 <= k,
                batch_ids(batches@) == batches_after(g, ord, k as nat),
                batches@.len() <= k + 1,
                forall|l: int| 0 <= l < batches@.len() ==> #[trigger] batches@[l].level == l,
            decreases order.len() - k,
        {
            proof {
                lemma_levels_len(g, ord, k as nat);
                lemma_levels_bound(g, ord, (k + 1) as nat);
                lemma_levels_len(g, ord, (k + 1) as nat);
            }
            let v = order[k];
            assert(v as int == ord[k as int]);
            let node = &graph.nodes[v];
            assert(node@ == g.nodes[v as int]);
            let ghost lv = levels_after(g, ord, k as nat);
            let level: usize = if contains_string(&graph.inputs, &node.id) {
                0
            } else {
                let mut m: usize = 0;
                let mut j: usize = 0;
                while j < node.inputs.len()
                    invariant
                        j <= node.inputs.len(), node@ == g.nodes[v as int], levels@.len() == n, n == g.nodes.len(),
                        graph@ == g, lv.len() == n,
                        forall|w: int| 0 <= w < n ==> #[trigger] levels@[w] == match lv[w] { Some(l) => Some(l as usize), None => None::<usize> },
                        forall|w: int| 0 <= w < n && #[trigger] lv[w] is Some ==> lv[w]->0 <= k,
                        m == input_max(g.nodes, lv, g.nodes[v as int].inputs, j as nat), m <= k, k < order@.len(),
                    decreases node.inputs.len() - j,
                {
                    assert(node.inputs@[j as int]@ == g.nodes[v as int].inputs[j as int]);
                    proof { lemma_index_of_id_some(g.nodes, g.nodes[v as int].inputs[j as int]); }
                    match find_node(&graph.nodes, &node.inputs[j]) {
                        Some(u) => {
                            match levels[u] {
                                Some(l) => { if l > m { m = l; } },
                                None => {},
                            }
                        },
                        None => {},
                    }
                    j += 1;
                }
                m + 1
            };
            assert(level as int == level_at(g, lv, v as int));
            levels.set(v, Some(level));
            let ghost bk = batches_after(g, ord, k as nat);
            while batches.len() <= level
                invariant
                    batches@.len() <= k + 2, level <= k + 1, bk == batches_after(g, ord, k as nat),
                    batches@.len() >= bk.len(),
                    batches@.len() > bk.len() ==> batches@.len() <= level + 1,
                    forall|l: int| 0 <= l < batches@.len() ==> #[trigger] batches@[l].level == l,
                    forall|l: int| 0 <= l < batches@.len() ==> #[trigger] batch_ids(batches@)[l] ==
                        (if l < bk.len() { bk[l] } else { Seq::<Seq<char>>::empty() }),
                decreases k + 2 - batches@.len(),
            {
                let ghost before = batches@;
                let nb = ExecutionBatch::new(batches.len());
                assert(strs(nb.node_ids@) =~= Seq::<Seq<char>>::empty());
                batches.push(nb);
                assert forall|l: int| 0 <= l < batches@.len() implies #[trigger] batch_ids(batches@)[l] ==
                    (if l < bk.len() { bk[l] } else { Seq::<Seq<char>>::empty() }) by {
                    if l < before.len() {
                        assert(batches@[l] == before[l]);
                        assert(batch_ids(before)[l] == (if l < bk.len() { bk[l] } else { Seq::<Seq<char>>::empty() }));
                    }
                }
            }
            let ghost pre = batches@;
            let mut b = batches.remove(level);
            b.add_node(node.id.clone());
            batches.insert(level, b);
            proof {
                let l0 = level_at(g, lv, v as int);
                let e = if bk.len() > l0 { bk } else {
                    bk + Seq::new((l0 + 1 - bk.len()) as nat, |i: int| Seq::<Seq<char>>::empty()) };
                assert(batches_after(g, ord, (k + 1) as nat) == e.update(level as int, e[level as int].push(g.nodes[v as int].id)));
                assert(batches@ =~= pre.update(level as int, b));
                assert(pre.len() == e.len());
                assert forall|l: int| 0 <= l < pre.len() implies #[trigger] batch_ids(pre)[l] == e[l] by {
                    assert(batch_ids(pre)[l] == (if l < bk.len() { bk[l] } else { Seq::<Seq<char>>::empty() }));
                }
                assert(batch_ids(pre) =~= e);
                assert(strs(b.node_ids@) =~= strs(pre[level as int].node_ids@).push(g.nodes[v as int].id));
                assert(batch_ids(batches@) =~= e.update(level as int, e[level as int].push(g.nodes[v as int].id)));
                assert forall|w: int| 0 <= w < n implies #[trigger] levels@[w] == match levels_after(g, ord, (k + 1) as nat)[w] {
                    Some(l) => Some(l as usize), None => None::<usize> } by {
                    if w != v as int {
                        assert(levels_after(g, ord, (k + 1) as nat)[w] == lv[w]);
                    }
                }
            }
            k += 1;
        }
        assert(ord.len() == order@.len());
        Ok(batches)
    }
}

/// The concatenation of a list of id lists.
pub open spec fn joined(s: Seq<Seq<Seq<char>>>) -> Seq<Seq<char>>
    decreases s.len(),
{
    if s.len() == 0 { Seq::empty() } else { joined(s.drop_last()) + s.last() }
}

/// Parallel executor for computation graphs.
#[derive(Debug)]
pub struct ParallelExecutor {
    /// Number of threads to use (None = the thread pool's default)
    thread_count: Option<usize>,
}


/// The node of `graph` that `id` names: its first node of that id.
pub open spec fn named_node(graph: &ComputationGraph, id: Seq<char>) -> GraphNode {
    graph.nodes@[index_of_id(graph@.nodes, id)]
}

/// `id` names a node of `graph`, and `f` may return `Ok` on it.
pub open spec fn ran_ok<V, F: Fn(&GraphNode) -> Result<V, GraphError>>(f: F, graph: &ComputationGraph, id: Seq<char>) -> bool {
    index_of_id(graph@.nodes, id) >= 0 && exists|x: V| #[trigger] f.ensures((&named_node(graph, id),), Ok(x))
}

/// A batch run over `ids` stops at `ids[k]` with `e`: every earlier id named
/// a node on which `f` returned `Ok`, and `ids[k]` names no node (`e` is then
/// `NodeNotFound` of it), or `f` returned `e` on its node.
pub open spec fn batch_failed_at<V, F: Fn(&GraphNode) -> Result<V, GraphError>>(
    f: F, graph: &ComputationGraph, ids: Seq<String>, k: int, e: GraphError,
) -> bool {
    &&& forall|j: int| 0 <= j < k ==> #[trigger] ran_ok(f, graph, ids[j]@)
    &&& if index_of_id(graph@.nodes, ids[k]@) < 0 {
        e matches GraphError::NodeNotFound(m) && m@ == ids[k]@
    } else {
        f.ensures((&named_node(graph, ids[k]@),), Err(e))
    }
}

impl ParallelExecutor {
    /// Create a new parallel executor.
    pub fn new(thread_count: Option<usize>) -> (r: Self)
        ensures r.thread_count_spec() == thread_count,
    {
        ParallelExecutor { thread_count }
    }

    /// The configured thread count.
    pub closed spec fn thread_count_spec(&self) -> Option<usize> {
        self.thread_count
    }

    /// The configured thread count.
    pub fn thread_count(&self) -> (r: Option<usize>)
        ensures r == self.thread_count_spec(),
    {
        self.thread_count
    }

    /// The order in which the graph's nodes execute: batch after batch (see
    /// `BatchScheduler::create_batches`); `CircularDependency` on a cycle.
    pub fn execute(&self, graph: &ComputationGraph) -> (r: Result<Vec<String>, GraphError>)
        requires graph.wf(),
        ensures
            match r {
                Ok(ids) => exists|ord: Seq<int>| #[trigger] is_topo_order(graph@.nodes, ord)
                    && strs(ids@) == joined(batches_after(graph@, ord, ord.len())),
                Err(e) => has_cycle(graph@.nodes) && e.kind() == GraphErrorKind::CircularDependency,
            },
    {
        let batches = match BatchScheduler::create_batches(graph) {
            Ok(b) => b,
            Err(e) => { return Err(e); },
        };
        let ghost bv = batch_ids(batches@);
        let mut executed: Vec<String> = Vec::new();
        let mut k: usize = 0;
        assert(bv.subrange(0, 0) =~= Seq::<Seq<Seq<char>>>::empty());
        while k < batches.len()
            invariant k <= batches.len(), bv == batch_ids(batches@), strs(executed@) == joined(bv.subrange(0, k as int)),
            decreases batches.len() - k,
        {
            let ids = &batches[k].node_ids;
            let mut j: usize = 0;
            let ghost base = strs(executed@);
            while j < ids.len()
                invariant j <= ids.len(), strs(executed@) == base + strs(ids@).subrange(0, j as int),
                decreases ids.len() - j,
            {
                let ghost prev = strs(executed@);
                let id = ids[j].clone();
                executed.push(id);
                assert(strs(executed@) =~= prev.push(ids@[j as int]@));
                assert(strs(executed@) =~= base + strs(ids@).subrange(0, j + 1));
                j += 1;
            }
            assert(bv.subrange(0, k + 1).drop_last() =~= bv.subrange(0, k as int));
            assert(strs(ids@).subrange(0, ids.len() as int) =~= strs(ids@));
            k += 1;
        }
        assert(bv.subrange(0, batches.len() as int) =~= bv);
        Ok(executed)
    }

    /// Run `executor_fn` on the node of each id of a batch, in order: the
    /// results paired with their ids, or `NodeNotFound` for the first id that
    /// names no node, or the first error `executor_fn` returns.
    pub fn execute_batch<V, F: Fn(&GraphNode) -> Result<V, GraphError>>(
        &self,
        batch: &ExecutionBatch,
        graph: &ComputationGraph,
        executor_fn: F,
    ) -> (r: Result<Vec<(String, V)>, GraphError>)
        requires forall|n: &GraphNode| #[trigger] executor_fn.requires((n,)),
        ensures
            r matches Ok(v) ==> v@.len() == batch.node_ids@.len() && forall|i: int| 0 <= i < v@.len() ==> {
                &&& #[trigger] v@[i].0@ == batch.node_ids@[i]@
                &&& index_of_id(graph@.nodes, batch.node_ids@[i]@) >= 0
                &&& executor_fn.ensures((&graph.nodes@[index_of_id(graph@.nodes, batch.node_ids@[i]@)],), Ok(v@[i].1))
            },
            batch.node_ids@.len() == 0 ==> (r matches Ok(v) && v@.len() == 0),
            (forall|i: int| 0 <= i < batch.node_ids@.len() ==> {
                &&& index_of_id(graph@.nodes, #[trigger] batch.node_ids@[i]@) >= 0
                &&& forall|res: Result<V, GraphError>|
                    executor_fn.ensures((&named_node(graph, batch.node_ids@[i]@),), res) ==> res is Ok
            }) ==> r is Ok,
            r matches Err(e) ==> exists|k: int| 0 <= k < batch.node_ids@.len()
                && #[trigger] batch_failed_at(executor_fn, graph, batch.node_ids@, k, e),
    {
        let mut results: Vec<(String, V)> = Vec::new();
        let mut i: usize = 0;
        while i < batch.node_ids.len()
            invariant
                i <= batch.node_ids.len(), results@.len() == i,
                forall|n: &GraphNode| #[trigger] executor_fn.requires((n,)),
                forall|a: int| 0 <= a < i ==> {
                    &&& #[trigger] results@[a].0@ == batch.node_ids@[a]@
                    &&& index_of_id(graph@.nodes, batch.node_ids@[a]@) >= 0
                    &&& executor_fn.ensures((&graph.nodes@[index_of_id(graph@.nodes, batch.node_ids@[a]@)],), Ok(results@[a].1))
                },
                forall|a: int| 0 <= a < i ==> #[trigger] ran_ok(executor_fn, graph, batch.node_ids@[a]@),
            decreases batch.node_ids.len() - i,
        {
            let id = &batch.node_ids[i];
            match find_node(&graph.nodes, id) {
                None => {
                    let e = GraphError::NodeNotFound(id.clone());
                    assert(batch_failed_at(executor_fn, graph, batch.node_ids@, i as int, e));
                    return Err(e);
                },
                Some(u) => {
                    let out = executor_fn(&graph.nodes[u]);
                    match out {
                        Ok(x) => {
                            assert(executor_fn.ensures((&named_node(graph, batch.node_ids@[i as int]@),), Ok(x)));
                            assert(ran_ok(executor_fn, graph, batch.node_ids@[i as int]@));
                            results.push((id.clone(), x));
                        },
                        Err(e) => {
                            assert(batch_failed_at(executor_fn, graph, batch.node_ids@, i as int, e));
                            return Err(e);
                        },
                    }
                },
            }
            i += 1;
        }
        Ok(results)
    }
}

/// Stream chunk for streaming execution: per node id, that node's data in
/// this chunk.
#[derive(Debug)]
pub struct StreamChunk<T> {
    /// Chunk data (node ID -> tensor data), one entry per id
    pub data: Vec<(String, Vec<T>)>,
    /// Chunk index
    pub index: usize,
    /// Total number of chunks
    pub total_chunks: usize,
}

/// The mathematical value of a stream chunk.
#[verifier::ext_equal]
pub struct ChunkSpec<T> {
    pub data: Seq<(Seq<char>, Seq<T>)>,
    pub index: usize,
    pub total_chunks: usize,
}

impl<T> View for StreamChunk<T> {
    type V = ChunkSpec<T>;

    open spec fn view(&self) -> ChunkSpec<T> {
        ChunkSpec { data: self.data@.map_values(|e: (String, Vec<T>)| (e.0@, e.1@)), index: self.index, total_chunks: self.total_chunks }
    }
}

/// Index of the first entry for `key`, or -1.
pub open spec fn entry_pos<T>(s: Seq<(Seq<char>, T)>, key: Seq<char>) -> int
    decreases s.len(),
{
    if s.len() == 0 {
        -1
    } else if entry_pos(s.drop_last(), key) >= 0 {
        entry_pos(s.drop_last(), key)
    } else if s.last().0 == key {
        s.len() - 1
    } else {
        -1
    }
}

proof fn lemma_entry_pos<T>(s: Seq<(Seq<char>, T)>, key: Seq<char>, i: int)
    requires 0 <= i <= s.len(), forall|j: int| 0 <= j < i ==> s[j].0 != key,
    ensures
        i < s.len() && s[i].0 == key ==> entry_pos(s, key) == i,
        i == s.len() ==> entry_pos(s, key) == -1,
    decreases s.len(),
{
    if s.len() > 0 {
        if i < s.len() {
            lemma_entry_pos(s.drop_last(), key, i);
        } else {
            lemma_entry_pos(s.drop_last(), key, i - 1);
        }
    }
}

/// `s` with `(key, v)` in place of the entry for `key`, or appended.
pub open spec fn entry_put<T>(s: Seq<(Seq<char>, T)>, key: Seq<char>, v: T) -> Seq<(Seq<char>, T)> {
    let i = entry_pos(s, key);
    if i >= 0 { s.update(i, (key, v)) } else { s.push((key, v)) }
}

/// A copy of a vector of `Copy` values.
fn copy_values<T: Copy>(v: &Vec<T>) -> (r: Vec<T>)
    ensures r@ == v@,
{
    let mut r: Vec<T> = Vec::new();
    let mut i: usize = 0;
    while i < v.len()
        invariant i <= v.len(), r@ == v@.subrange(0, i as int),
        decreases v.len() - i,
    {
        r.push(v[i]);
        assert(r@ =~= v@.subrange(0, i + 1));
        i += 1;
    }
    assert(v@.subrange(0, v.len() as int) =~= v@);
    r
}

impl<T: Copy> StreamChunk<T> {
    /// Create a new, empty stream chunk.
    pub fn new(index: usize, total_chunks: usize) -> (r: Self)
        ensures r@.data.len() == 0, r@.index == index, r@.total_chunks == total_chunks,
    {
        let r = StreamChunk { data: Vec::new(), index, total_chunks };
        assert(r@.data =~= Seq::<(Seq<char>, Seq<T>)>::empty());
        r
    }

    /// Add data for a node, replacing any data it had.
    pub fn add_data(&mut self, node_id: String, data: Vec<T>)
        ensures final(self)@ == (ChunkSpec { data: entry_put(old(self)@.data, node_id@, data@), ..old(self)@ }),
    {
        let ghost s = self@.data;
        let mut i: usize = 0;
        while i < self.data.len()
            invariant i <= self.data.len(), self@.data == s, forall|j: int| 0 <= j < i ==> s[j].0 != node_id@,
                self.index == old(self).index, self.total_chunks == old(self).total_chunks, s == old(self)@.data,
            decreases self.data.len() - i,
        {
            if self.data[i].0.eq(&node_id) {
                proof { lemma_entry_pos(s, node_id@, i as int); }
                let ghost kv = (node_id@, data@);
                let ghost raw = self.data@;
                self.data.set(i, (node_id, data));
                assert(self.data@ == raw.update(i as int, self.data@[i as int]));
                assert(self@.data =~= s.update(i as int, kv));
                assert(s[i as int].0 == node_id@);
                assert(entry_pos(s, kv.0) == i as int);
                assert(entry_put(s, kv.0, kv.1) == s.update(i as int, kv));
                assert(self@.index == old(self)@.index && self@.total_chunks == old(self)@.total_chunks);
                return;
            }
            i += 1;
        }
        proof { lemma_entry_pos(s, node_id@, i as int); }
        let ghost kv = (node_id@, data@);
        self.data.push((node_id, data));
        assert(self@.data =~= s.push(kv));
        assert(entry_pos(s, kv.0) == -1);
        assert(entry_put(s, kv.0, kv.1) == s.push(kv));
    }

    /// The data of a node in this chunk, if any.
    pub fn get_data(&self, node_id: &str) -> (r: Option<&Vec<T>>)
        ensures
            entry_pos(self@.data, node_id@) >= 0 ==> (r matches Some(v) && v@ == self@.data[entry_pos(self@.data, node_id@)].1),
            entry_pos(self@.data, node_id@) < 0 ==> r is None,
    {
        let key = String::from_str(node_id);
        let mut i: usize = 0;
        while i < self.data.len()
            invariant i <= self.data.len(), key@ == node_id@, forall|j: int| 0 <= j < i ==> self@.data[j].0 != node_id@,
            decreases self.data.len() - i,
        {
            if self.data[i].0.eq(&key) {
                proof { lemma_entry_pos(self@.data, node_id@, i as int); }
                return Some(&self.data[i].1);
            }
            i += 1;
        }
        proof { lemma_entry_pos(self@.data, node_id@, i as int); }
        None
    }

    /// Check if this is the last chunk.
    pub fn is_last(&self) -> (r: bool)
        requires self@.total_chunks > 0,
        ensures r == (self@.index == self@.total_chunks - 1),
    {
        self.index == self.total_chunks - 1
    }

    /// A copy of this chunk.
    pub fn copy(&self) -> (r: Self)
        ensures r@ == self@,
    {
        let mut data: Vec<(String, Vec<T>)> = Vec::new();
        let mut i: usize = 0;
        while i < self.data.len()
            invariant i <= self.data.len(), data@.map_values(|e: (String, Vec<T>)| (e.0@, e.1@)) == self@.data.subrange(0, i as int),
            decreases self.data.len() - i,
        {
            let ghost before = data@.map_values(|e: (String, Vec<T>)| (e.0@, e.1@));
            let k = self.data[i].0.clone();
            let v = copy_values(&self.data[i].1);
            assert((k@, v@) == self@.data[i as int]);
            data.push((k, v));
            assert(data@.map_values(|e: (String, Vec<T>)| (e.0@, e.1@)) =~= before.push(self@.data[i as int]));
            assert(data@.map_values(|e: (String, Vec<T>)| (e.0@, e.1@)) =~= self@.data.subrange(0, i + 1));
            i += 1;
        }
        assert(self@.data.subrange(0, self.data.len() as int) =~= self@.data);
        StreamChunk { data, index: self.index, total_chunks: self.total_chunks }
    }
}

/// The number of chunks of `b` elements that hold `n` elements.
pub open spec fn chunk_count(n: nat, b: nat) -> nat {
    n / b + if n % b != 0 { 1nat } else { 0nat }
}

/// The chunks `create_chunks` makes: chunk `i` holds the `i`-th piece of the
/// data for the node, its index and the chunk count.
pub open spec fn stream_chunks<T>(data: Seq<T>, b: nat, id: Seq<char>) -> Seq<ChunkSpec<T>> {
    let pieces = chunks(data, b);
    Seq::new(pieces.len(), |i: int| ChunkSpec { data: seq![(id, pieces[i])], index: i as usize, total_chunks: chunk_count(data.len(), b) as usize })
}

/// The buffer after `incoming` chunks are each appended and the buffer is
/// trimmed from the front to `max` chunks.
pub open spec fn buffered<T>(buf: Seq<ChunkSpec<T>>, incoming: Seq<ChunkSpec<T>>, max: nat) -> Seq<ChunkSpec<T>>
    decreases incoming.len(),
{
    if incoming.len() == 0 {
        buf
    } else {
        let b = buffered(buf, incoming.drop_last(), max).push(incoming.last());
        if b.len() > max { b.subrange(b.len() - max, b.len() as int) } else { b }
    }
}

/// Streaming executor for processing data in chunks.
#[derive(Debug)]
pub struct StreamingExecutor<T> {
    chunk_size: usize,
    max_buffer_size: usize,
    buffer: Vec<StreamChunk<T>>,
}

impl<T> StreamingExecutor<T> {
    /// (chunk size, maximum buffered chunks, buffered chunks)
    pub closed spec fn state(&self) -> (usize, usize, Seq<ChunkSpec<T>>) {
        (self.chunk_size, self.max_buffer_size, self.buffer@.map_values(|c: StreamChunk<T>| c@))
    }
}

impl<T: Copy> StreamingExecutor<T> {
    /// Create a new streaming executor with an empty buffer.
    pub fn new(chunk_size: usize, max_buffer_size: usize) -> (r: Self)
        ensures r.state() == (chunk_size, max_buffer_size, Seq::<ChunkSpec<T>>::empty()),
    {
        let r = StreamingExecutor { chunk_size, max_buffer_size, buffer: Vec::new() };
        assert(r.state().2 =~= Seq::<ChunkSpec<T>>::empty());
        r
    }

    /// Split input data into chunks of the chunk size, all for `node_id`.
    pub fn create_chunks(&self, data: Vec<T>, node_id: &str) -> (r: Vec<StreamChunk<T>>)
        requires self.state().0 > 0,
        ensures r@.map_values(|c: StreamChunk<T>| c@) == stream_chunks(data@, self.state().0 as nat, node_id@),
    {
        let n = data.len();
        let b = self.chunk_size;
        assert(n % b != 0 ==> n / b < usize::MAX) by (nonlinear_arith) requires b > 0, n <= usize::MAX;
        let total = n / b + if n % b != 0 { 1 } else { 0 };
        let ghost pieces = chunks(data@, b as nat);
        let ghost target = stream_chunks(data@, b as nat, node_id@);
        let mut r: Vec<StreamChunk<T>> = Vec::new();
        let mut start: usize = 0;
        let mut idx: usize = 0;
        assert(data@.subrange(0, n as int) =~= data@);
        while start < n
            invariant
                start <= n, n == data@.len(), b == self.state().0, b > 0, total == chunk_count(n as nat, b as nat),
                idx == r@.len(), idx <= start, pieces == chunks(data@, b as nat), target == stream_chunks(data@, b as nat, node_id@),
                r@.len() + chunks(data@.subrange(start as int, n as int), b as nat).len() == pieces.len(),
                forall|i: int| 0 <= i < r@.len() ==> #[trigger] r@[i]@ == target[i],
                forall|i: int| 0 <= i < chunks(data@.subrange(start as int, n as int), b as nat).len() ==>
                    #[trigger] chunks(data@.subrange(start as int, n as int), b as nat)[i] == pieces[r@.len() + i],
            decreases n - start,
        {
            let ghost rest = data@.subrange(start as int, n as int);
            let end = if n - start <= b { n } else { start + b };
            let mut piece: Vec<T> = Vec::new();
            let mut i = start;
            while i < end
                invariant start <= i <= end, end <= n, n == data@.len(), piece@ == data@.subrange(start as int, i as int),
                decreases end - i,
            {
                piece.push(data[i]);
                assert(piece@ =~= data@.subrange(start as int, i + 1));
                i += 1;
            }
            let mut chunk = StreamChunk::new(idx, total);
            chunk.add_data(String::from_str(node_id), piece);
            proof {
                assert(chunks(rest, b as nat)[0] == data@.subrange(start as int, end as int)) by {
                    if n - start > b {
                        assert(rest.subrange(0, b as int) =~= data@.subrange(start as int, end as int));
                    } else {
                        assert(rest =~= data@.subrange(start as int, end as int));
                    }
                }
                assert(chunk@.data =~= seq![(node_id@, pieces[idx as int])]);
            }
            r.push(chunk);
            proof {
                if n - start > b {
                    assert(rest.subrange(b as int, rest.len() as int) =~= data@.subrange(end as int, n as int));
                    assert forall|i: int| 0 <= i < chunks(data@.subrange(end as int, n as int), b as nat).len() implies
                        #[trigger] chunks(data@.subrange(end as int, n as int), b as nat)[i] == pieces[r@.len() + i] by {
                        assert(chunks(rest, b as nat)[i + 1] == chunks(data@.subrange(end as int, n as int), b as nat)[i]);
                    }
                } else {
                    assert(data@.subrange(end as int, n as int) =~= Seq::<T>::empty());
                }
            }
            start = end;
            idx = idx + 1;
        }
        assert(data@.subrange(n as int, n as int) =~= Seq::<T>::empty());
        assert(r@.map_values(|c: StreamChunk<T>| c@) =~= target);
        r
    }

    /// Execute the graph on a stream chunk: the chunk passes through unchanged.
    pub fn execute_chunk(&self, graph: &ComputationGraph, chunk: StreamChunk<T>) -> (r: Result<StreamChunk<T>, GraphError>)
        ensures r matches Ok(c) && c@ == chunk@,
    {
        Ok(chunk)
    }

    /// Process a stream of chunks: each chunk is executed, kept in the buffer
    /// (trimmed from the front to the maximum size) and returned in order.
    pub fn process_stream(&mut self, graph: &ComputationGraph, chunks_in: Vec<StreamChunk<T>>) -> (r: Result<Vec<StreamChunk<T>>, GraphError>)
        ensures
            r matches Ok(v) && v@.map_values(|c: StreamChunk<T>| c@) == chunks_in@.map_values(|c: StreamChunk<T>| c@),
            final(self).state() == (old(self).state().0, old(self).state().1,
                buffered(old(self).state().2, chunks_in@.map_values(|c: StreamChunk<T>| c@), old(self).state().1 as nat)),
    {
        let ghost incoming = chunks_in@.map_values(|c: StreamChunk<T>| c@);
        let ghost start = self.state().2;
        let mut results: Vec<StreamChunk<T>> = Vec::new();
        let mut rest = chunks_in;
        let mut k: usize = 0;
        let n = rest.len();
        while k < n
            invariant
                k <= n, n == incoming.len(), rest@.len() == n - k,
                rest@.map_values(|c: StreamChunk<T>| c@) == incoming.subrange(k as int, n as int),
                results@.map_values(|c: StreamChunk<T>| c@) == incoming.subrange(0, k as int),
                self.state().0 == old(self).state().0, self.state().1 == old(self).state().1,
                self.state().2 == buffered(start, incoming.subrange(0, k as int), self.state().1 as nat),
            decreases n - k,
        {
            let ghost rv0 = rest@;
            assert(rv0.map_values(|c: StreamChunk<T>| c@)[0] == incoming[k as int]);
            let chunk = rest.remove(0);
            assert(chunk == rv0[0]);
            assert(chunk@ == incoming[k as int]);
            assert(rest@ =~= rv0.subrange(1, rv0.len() as int));
            assert forall|x: int| 0 <= x < rest@.len() implies #[trigger] rest@[x]@ == incoming[k + 1 + x] by {
                assert(rest@[x] == rv0[x + 1]);
                assert(rv0.map_values(|c: StreamChunk<T>| c@)[x + 1] == incoming.subrange(k as int, n as int)[x + 1]);
            }
            assert(rest@.map_values(|c: StreamChunk<T>| c@) =~= incoming.subrange(k + 1, n as int));
            let result = match self.execute_chunk(graph, chunk) {
                Ok(c) => c,
                Err(e) => { return Err(e); },
            };
            let ghost before = self.state().2;
            self.buffer.push(result.copy());
            assert(self.state().2 =~= before.push(result@));
            let ghost pushed = self.state().2;
            while self.buffer.len() > self.max_buffer_size
                invariant
                    pushed.len() > self.max_buffer_size ==> self.state().2 == pushed.subrange(pushed.len() - self.buffer@.len(), pushed.len() as int),
                    pushed.len() <= self.max_buffer_size ==> self.state().2 == pushed,
                    self.buffer@.len() <= pushed.len(), self.buffer@.len() >= self.max_buffer_size || self.state().2 == pushed,
                    self.state().0 == old(self).state().0, self.state().1 == old(self).state().1,
                decreases self.buffer.len(),
            {
                let ghost b0 = self.state().2;
                self.buffer.remove(0);
                assert(self.state().2 =~= b0.drop_first());
                assert(self.state().2 =~= pushed.subrange(pushed.len() - self.buffer@.len(), pushed.len() as int));
            }
            proof {
                assert(incoming.subrange(0, k + 1).drop_last() =~= incoming.subrange(0, k as int));
                if pushed.len() > self.max_buffer_size {
                    assert(self.buffer@.len() == self.max_buffer_size);
                }
            }
            let ghost rv = results@.map_values(|c: StreamChunk<T>| c@);
            results.push(result);
            assert(results@.map_values(|c: StreamChunk<T>| c@) =~= incoming.subrange(0, k + 1));
            k += 1;
        }
        assert(incoming.subrange(0, n as int) =~= incoming);
        Ok(results)
    }

    /// Get the current buffer size.
    pub fn buffer_size(&self) -> (r: usize)
        ensures r == self.state().2.len(),
    {
        self.buffer.len()
    }

    /// Clear the buffer.
    pub fn clear_buffer(&mut self)
        ensures final(self).state() == (old(self).state().0, old(self).state().1, Seq::<ChunkSpec<T>>::empty()),
    {
        self.buffer = Vec::new();
        assert(self.state().2 =~= Seq::<ChunkSpec<T>>::empty());
    }

    /// Get chunk size.
    pub fn chunk_size(&self) -> (r: usize)
        ensures r == self.state().0,
    {
        self.chunk_size
    }

    /// Get max buffer size.
    pub fn max_buffer_size(&self) -> (r: usize)
        ensures r == self.state().1,
    {
        self.max_buffer_size
    }
}

/// The chunks of a stream count as their stated total: splitting `n`
/// elements into pieces of `b` gives `chunk_count(n, b)` pieces.
pub proof fn lemma_chunk_count<A>(s: Seq<A>, b: nat)
    requires b > 0,
    ensures chunks(s, b).len() == chunk_count(s.len(), b),
    decreases s.len(),
{
    let n: nat = s.len();
    if n == 0 {
    } else if n <= b {
        assert(chunks(s, b) == seq![s]);
        if n < b {
            assert(n / b == 0 && n % b == n) by (nonlinear_arith) requires n < b, n > 0, b > 0;
        } else {
            assert(n / b == 1 && n % b == 0) by (nonlinear_arith) requires n == b, b > 0;
        }
    } else {
        let rest = s.subrange(b as int, n as int);
        lemma_chunk_count(rest, b);
        let r: nat = rest.len();
        assert(chunks(s, b) == seq![s.subrange(0, b as int)] + chunks(rest, b));
        assert(chunks(s, b).len() == 1 + chunks(rest, b).len());
        assert(r / b == n / b - 1 && r % b == n % b) by (nonlinear_arith) requires r + b == n, n > b, b > 0;
    }
}

/// The views of cache entries.
pub open spec fn entries_of<V>(e: Seq<(String, V)>) -> Seq<(Seq<char>, V)> {
    e.map_values(|x: (String, V)| (x.0@, x.1))
}

/// The keys of a list of entries.
pub open spec fn keys_of<V>(e: Seq<(Seq<char>, V)>) -> Seq<Seq<char>> {
    e.map_values(|x: (Seq<char>, V)| x.0)
}

/// Whether an entry is not for `k`.
pub open spec fn other_key<V>(k: Seq<char>) -> spec_fn((Seq<char>, V)) -> bool {
    |x: (Seq<char>, V)| x.0 != k
}

/// The entries without the one for `k`.
pub open spec fn entry_remove<V>(e: Seq<(Seq<char>, V)>, k: Seq<char>) -> Seq<(Seq<char>, V)> {
    select(e, other_key(k))
}

/// Eviction before an insertion: while the cache is full and the access
/// order is not empty, the least recently used id leaves the order and the cache.
pub open spec fn evicted<V>(e: Seq<(Seq<char>, V)>, o: Seq<Seq<char>>, max: usize) -> (Seq<(Seq<char>, V)>, Seq<Seq<char>>)
    decreases o.len(),
{
    if e.len() >= max && o.len() > 0 {
        evicted(entry_remove(e, o[0]), o.drop_first(), max)
    } else {
        (e, o)
    }
}

/// The mathematical value of a lazy cache.
pub struct CacheView<V> {
    pub entries: Seq<(Seq<char>, V)>,
    pub max_size: usize,
    pub order: Seq<Seq<char>>,
}

/// The cache's invariant: one entry per id, every cached id in the access
/// order, and (for a positive limit) no more entries than the limit.
pub open spec fn cache_wf<V>(c: CacheView<V>) -> bool {
    &&& keys_of(c.entries).no_duplicates()
    &&& forall|i: int| 0 <= i < c.entries.len() ==> c.order.contains(#[trigger] c.entries[i].0)
    &&& c.max_size >= 1 ==> c.entries.len() <= c.max_size
}

/// Lazy evaluation cache: results by node id, evicted least recently used first.
#[derive(Debug)]
pub struct LazyCache<V> {
    cache: Vec<(String, V)>,
    max_size: usize,
    access_order: Vec<String>,
}

impl<V> View for LazyCache<V> {
    type V = CacheView<V>;

    closed spec fn view(&self) -> CacheView<V> {
        CacheView { entries: entries_of(self.cache@), max_size: self.max_size, order: strs(self.access_order@) }
    }
}

pub proof fn lemma_select_contains<A>(s: Seq<A>, p: spec_fn(A) -> bool, x: A)
    ensures select(s, p).contains(x) <==> s.contains(x) && p(x),
    decreases s.len(),
{
    if s.len() > 0 {
        lemma_select_contains(s.drop_last(), p, x);
        let prev = select(s.drop_last(), p);
        if s.contains(x) && p(x) {
            let w = choose|w: int| 0 <= w < s.len() && s[w] == x;
            if w < s.len() - 1 {
                assert(s.drop_last()[w] == x);
                let w2 = choose|w2: int| 0 <= w2 < prev.len() && prev[w2] == x;
                if p(s.last()) { assert(prev.push(s.last())[w2] == x); }
            } else {
                if p(s.last()) { assert(prev.push(s.last())[prev.len() as int] == x); }
            }
        }
        if select(s, p).contains(x) {
            let w = choose|w: int| 0 <= w < select(s, p).len() && select(s, p)[w] == x;
            if p(s.last()) && w == prev.len() {
                assert(s[s.len() - 1] == x);
            } else {
                assert(prev[w] == x);
                let w2 = choose|w2: int| 0 <= w2 < s.drop_last().len() && s.drop_last()[w2] == x;
                assert(s[w2] == x);
            }
        }
    }
}

proof fn lemma_select_keys_unique<V>(e: Seq<(Seq<char>, V)>, k: Seq<char>)
    requires keys_of(e).no_duplicates(),
    ensures
        keys_of(entry_remove(e, k)).no_duplicates(),
        entry_remove(e, k).len() <= e.len(),
        forall|x: (Seq<char>, V)| #[trigger] entry_remove(e, k).contains(x) <==> e.contains(x) && x.0 != k,
    decreases e.len(),
{
    let p = other_key::<V>(k);
    crate::graph::lemma_select_len(e, p);
    assert forall|x: (Seq<char>, V)| #[trigger] entry_remove(e, k).contains(x) <==> e.contains(x) && x.0 != k by {
        lemma_select_contains(e, p, x);
        assert(p(x) == (x.0 != k));
    }
    if e.len() > 0 {
        let d = e.drop_last();
        assert(keys_of(d) =~= keys_of(e).drop_last());
        lemma_select_keys_unique(d, k);
        let prev = entry_remove(d, k);
        if p(e.last()) {
            let r = prev.push(e.last());
            assert forall|i: int, j: int| 0 <= i < j < r.len() implies keys_of(r)[i] != keys_of(r)[j] by {
                if j == prev.len() {
                    assert(prev.contains(prev[i]));
                    assert(d.contains(prev[i]));
                    let w = choose|w: int| 0 <= w < d.len() && d[w] == prev[i];
                    assert(keys_of(e)[w] == d[w].0);
                    assert(keys_of(e)[e.len() - 1] == e.last().0);
                } else {
                    assert(keys_of(r)[i] == keys_of(prev)[i] && keys_of(r)[j] == keys_of(prev)[j]);
                }
            }
        }
    }
}

proof fn lemma_keys_contains<V>(e: Seq<(Seq<char>, V)>, i: int)
    requires 0 <= i < e.len(),
    ensures e.contains(e[i]), keys_of(e).contains(e[i].0),
{
    assert(keys_of(e)[i] == e[i].0);
}

proof fn lemma_evict_step<V>(c: CacheView<V>)
    requires
        keys_of(c.entries).no_duplicates(),
        forall|i: int| 0 <= i < c.entries.len() ==> c.order.contains(#[trigger] c.entries[i].0),
        c.order.len() > 0,
    ensures ({
        let e2 = entry_remove(c.entries, c.order[0]);
        let o2 = c.order.drop_first();
        &&& keys_of(e2).no_duplicates()
        &&& forall|i: int| 0 <= i < e2.len() ==> o2.contains(#[trigger] e2[i].0)
    }),
{
    let k = c.order[0];
    let e2 = entry_remove(c.entries, k);
    let o2 = c.order.drop_first();
    lemma_select_keys_unique(c.entries, k);
    assert forall|i: int| 0 <= i < e2.len() implies o2.contains(#[trigger] e2[i].0) by {
        assert(e2.contains(e2[i]));
        assert(c.entries.contains(e2[i]) && e2[i].0 != k);
        let w = choose|w: int| 0 <= w < c.entries.len() && c.entries[w] == e2[i];
        assert(c.order.contains(c.entries[w].0));
        let t = choose|t: int| 0 <= t < c.order.len() && c.order[t] == e2[i].0;
        assert(t != 0);
        assert(o2[t - 1] == e2[i].0);
    }
}

/// The position of the entry for `k`, if any.
fn key_pos<V>(e: &Vec<(String, V)>, k: &String) -> (r: Option<usize>)
    ensures
        r matches Some(i) ==> i < e@.len() && entry_pos(entries_of(e@), k@) == i,
        r is None ==> entry_pos(entries_of(e@), k@) == -1,
{
    let ghost ev = entries_of(e@);
    let mut i: usize = 0;
    while i < e.len()
        invariant i <= e.len(), ev == entries_of(e@), forall|j: int| 0 <= j < i ==> ev[j].0 != k@,
        decreases e.len() - i,
    {
        if e[i].0.eq(k) {
            proof { lemma_entry_pos(ev, k@, i as int); }
            return Some(i);
        }
        i += 1;
    }
    proof { lemma_entry_pos(ev, k@, i as int); }
    None
}

proof fn lemma_entry_pos_key<V>(e: Seq<(Seq<char>, V)>, k: Seq<char>)
    ensures
        entry_pos(e, k) >= 0 ==> entry_pos(e, k) < e.len() && e[entry_pos(e, k)].0 == k,
        entry_pos(e, k) == -1 ==> forall|j: int| 0 <= j < e.len() ==> e[j].0 != k,
        entry_pos(e, k) >= -1,
    decreases e.len(),
{
    if e.len() > 0 {
        lemma_entry_pos_key(e.drop_last(), k);
        assert forall|j: int| 0 <= j < e.len() - 1 implies e.drop_last()[j] == e[j] by {}
    }
}

impl<V> LazyCache<V> {
    /// Create a new, empty lazy cache of at most `max_size` entries.
    pub fn new(max_size: usize) -> (r: Self)
        ensures r@.entries.len() == 0, r@.order.len() == 0, r@.max_size == max_size, cache_wf(r@),
    {
        let r = LazyCache { cache: Vec::new(), max_size, access_order: Vec::new() };
        assert(r@.entries =~= Seq::<(Seq<char>, V)>::empty());
        assert(r@.order =~= Seq::<Seq<char>>::empty());
        assert(keys_of(r@.entries) =~= Seq::<Seq<char>>::empty());
        r
    }

    /// Get a cached value; a hit makes `node_id` the most recently used.
    pub fn get(&mut self, node_id: &str) -> (r: Option<&V>)
        ensures
            entry_pos(old(self)@.entries, node_id@) >= 0 ==> {
                &&& r == Some(&old(self)@.entries[entry_pos(old(self)@.entries, node_id@)].1)
                &&& final(self)@ == (CacheView {
                    order: select(old(self)@.order, |x: Seq<char>| x != node_id@).push(node_id@), ..old(self)@ })
            },
            entry_pos(old(self)@.entries, node_id@) < 0 ==> r is None && final(self)@ == old(self)@,
            cache_wf(old(self)@) ==> cache_wf(final(self)@),
    {
        let key = String::from_str(node_id);
        proof { lemma_entry_pos_key(self@.entries, node_id@); }
        match key_pos(&self.cache, &key) {
            None => None,
            Some(i) => {
                let ghost o = strs(self.access_order@);
                let ghost keep = |x: Seq<char>| x != node_id@;
                let mut kept: Vec<String> = Vec::new();
                let mut j: usize = 0;
                assert(o.subrange(0, 0) =~= Seq::<Seq<char>>::empty());
                while j < self.access_order.len()
                    invariant j <= self.access_order.len(), o == strs(self.access_order@), key@ == node_id@,
                        keep == (|x: Seq<char>| x != node_id@),
                        strs(kept@) == select(o.subrange(0, j as int), keep),
                    decreases self.access_order.len() - j,
                {
                    assert(o.subrange(0, j + 1).drop_last() =~= o.subrange(0, j as int));
                    if !self.access_order[j].eq(&key) {
                        let ghost before = strs(kept@);
                        kept.push(self.access_order[j].clone());
                        assert(strs(kept@) =~= before.push(o[j as int]));
                    }
                    j += 1;
                }
                assert(o.subrange(0, self.access_order.len() as int) =~= o);
                let ghost before = strs(kept@);
                kept.push(key);
                assert(strs(kept@) =~= before.push(node_id@));
                let ghost old_view = self@;
                self.access_order = kept;
                proof {
                    if cache_wf(old_view) {
                        assert forall|a: int| 0 <= a < self@.entries.len() implies self@.order.contains(#[trigger] self@.entries[a].0) by {
                            let x = self@.entries[a].0;
                            if x == node_id@ {
                                assert(self@.order[self@.order.len() - 1] == x);
                            } else {
                                assert(old_view.order.contains(x));
                                lemma_select_contains(o, keep, x);
                                let w = choose|w: int| 0 <= w < select(o, keep).len() && select(o, keep)[w] == x;
                                assert(self@.order[w] == x);
                            }
                        }
                    }
                }
                Some(&self.cache[i].1)
            },
        }
    }

    /// Insert a value: while the cache is full, the least recently used ids
    /// are evicted; then the entry for `node_id` is set and `node_id` becomes
    /// the most recently used.
    pub fn insert(&mut self, node_id: String, value: V)
        ensures ({
            let ev = evicted(old(self)@.entries, old(self)@.order, old(self)@.max_size);
            final(self)@ == (CacheView {
                entries: entry_put(ev.0, node_id@, value),
                order: ev.1.push(node_id@),
                max_size: old(self)@.max_size,
            })
        }),
            cache_wf(old(self)@) ==> cache_wf(final(self)@),
    {
        let ghost start = self@;
        let ghost target = evicted(start.entries, start.order, start.max_size);
        while self.cache.len() >= self.max_size && self.access_order.len() > 0
            invariant
                evicted(self@.entries, self@.order, self@.max_size) == target, self@.max_size == start.max_size,
                cache_wf(start) ==> keys_of(self@.entries).no_duplicates()
                    && forall|i: int| 0 <= i < self@.entries.len() ==> self@.order.contains(#[trigger] self@.entries[i].0),
                cache_wf(start) && start.max_size >= 1 ==> self@.entries.len() <= start.max_size,
            decreases self.access_order.len(),
        {
            let ghost before = self@;
            let evict_id = self.access_order.remove(0);
            assert(self@.order =~= before.order.drop_first());
            let ghost keep = other_key::<V>(evict_id@);
            let mut remaining: Vec<(String, V)> = Vec::new();
            let mut old_cache: Vec<(String, V)> = Vec::new();
            core::mem::swap(&mut old_cache, &mut self.cache);
            let ghost oc = entries_of(old_cache@);
            assert(oc == before.entries);
            let n = old_cache.len();
            let mut k: usize = 0;
            assert(oc.subrange(0, 0) =~= Seq::<(Seq<char>, V)>::empty());
            while k < n
                invariant k <= n, n == oc.len(), old_cache@.len() == n - k,
                    entries_of(old_cache@) == oc.subrange(k as int, n as int),
                    keep == other_key::<V>(evict_id@),
                    entries_of(remaining@) == select(oc.subrange(0, k as int), keep),
                decreases n - k,
            {
                let ghost ocv = old_cache@;
                assert(entries_of(ocv)[0] == oc[k as int]);
                let item = old_cache.remove(0);
                assert(item == ocv[0]);
                assert(old_cache@ =~= ocv.subrange(1, ocv.len() as int));
                assert(entries_of(old_cache@) =~= oc.subrange(k + 1, n as int)) by {
                    assert forall|x: int| 0 <= x < old_cache@.len() implies #[trigger] entries_of(old_cache@)[x] == oc.subrange(k + 1, n as int)[x] by {
                        assert(old_cache@[x] == ocv[x + 1]);
                        assert(entries_of(ocv)[x + 1] == oc[k + 1 + x]);
                    }
                }
                assert((item.0@, item.1) == oc[k as int]);
                assert(oc.subrange(0, k + 1).drop_last() =~= oc.subrange(0, k as int));
                if !item.0.eq(&evict_id) {
                    let ghost pre = entries_of(remaining@);
                    remaining.push(item);
                    assert(entries_of(remaining@) =~= pre.push(oc[k as int]));
                }
                k += 1;
            }
            assert(oc.subrange(0, n as int) =~= oc);
            self.cache = remaining;
            proof {
                assert(self@.entries == entry_remove(before.entries, before.order[0]));
                if cache_wf(start) {
                    lemma_evict_step(before);
                    lemma_select_keys_unique(before.entries, before.order[0]);
                }
            }
        }
        proof {
            if cache_wf(start) && self@.order.len() == 0 && self@.entries.len() > 0 {
                assert(self@.order.contains(self@.entries[0].0));
            }
        }
        let ghost mid = self@;
        let ghost kv = (node_id@, value);
        proof { lemma_entry_pos_key(mid.entries, node_id@); }
        let order_key = node_id.clone();
        match key_pos(&self.cache, &node_id) {
            Some(i) => {
                let ghost raw = self.cache@;
                self.cache.set(i, (node_id, value));
                assert(self@.entries =~= mid.entries.update(i as int, kv));
            },
            None => {
                self.cache.push((node_id, value));
                assert(self@.entries =~= mid.entries.push(kv));
            },
        }
        let ghost pre_order = self@.order;
        self.access_order.push(order_key);
        assert(self@.order =~= pre_order.push(kv.0));
        proof {
            if cache_wf(start) {
                let e = self@.entries;
                assert forall|i: int| 0 <= i < e.len() implies self@.order.contains(#[trigger] e[i].0) by {
                    if e[i].0 == kv.0 {
                        assert(self@.order[self@.order.len() - 1] == kv.0);
                    } else {
                        assert(mid.entries.contains(e[i]) || e[i] == kv) by {
                            if entry_pos(mid.entries, kv.0) >= 0 {
                                let p = entry_pos(mid.entries, kv.0);
                                assert(i != p);
                                assert(e[i] == mid.entries[i]);
                            } else {
                                if i < mid.entries.len() { assert(e[i] == mid.entries[i]); }
                            }
                        }
                        let w = choose|w: int| 0 <= w < mid.entries.len() && mid.entries[w] == e[i];
                        assert(mid.order.contains(mid.entries[w].0));
                        let t = choose|t: int| 0 <= t < mid.order.len() && mid.order[t] == e[i].0;
                        assert(self@.order[t] == e[i].0);
                    }
                }
                assert forall|a: int, b: int| 0 <= a < b < e.len() implies keys_of(e)[a] != keys_of(e)[b] by {
                    if entry_pos(mid.entries, kv.0) >= 0 {
                        let p = entry_pos(mid.entries, kv.0);
                        assert(keys_of(e)[a] == keys_of(mid.entries)[a]);
                        assert(keys_of(e)[b] == keys_of(mid.entries)[b]);
                    } else {
                        if b == mid.entries.len() {
                            assert(keys_of(e)[a] == mid.entries[a].0);
                        } else {
                            assert(keys_of(e)[a] == keys_of(mid.entries)[a]);
                            assert(keys_of(e)[b] == keys_of(mid.entries)[b]);
                        }
                    }
                }
            }
        }
    }

    /// Clear the cache.
    pub fn clear(&mut self)
        ensures final(self)@ == (CacheView { entries: Seq::empty(), order: Seq::empty(), ..old(self)@ }), cache_wf(final(self)@),
    {
        self.cache = Vec::new();
        self.access_order = Vec::new();
        assert(self@.entries =~= Seq::<(Seq<char>, V)>::empty());
        assert(self@.order =~= Seq::<Seq<char>>::empty());
        assert(keys_of(self@.entries) =~= Seq::<Seq<char>>::empty());
    }

    /// Get cache size.
    pub fn size(&self) -> (r: usize)
        ensures r == self@.entries.len(),
    {
        self.cache.len()
    }
}

/// `s` with `x` appended unless already present.
pub open spec fn push_new(s: Seq<Seq<char>>, x: Seq<char>) -> Seq<Seq<char>> {
    if s.contains(x) { s } else { s.push(x) }
}

/// Node assignment for distributed execution.
#[derive(Debug, Clone)]
pub struct NodeAssignment {
    /// Node ID in the computation graph
    pub node_id: String,
    /// Worker ID (peer ID or node identifier)
    pub worker_id: String,
    /// Execution priority
    pub priority: usize,
}

/// The mathematical value of a node assignment.
pub struct AssignSpec {
    pub node_id: Seq<char>,
    pub worker_id: Seq<char>,
    pub priority: usize,
}

impl View for NodeAssignment {
    type V = AssignSpec;

    open spec fn view(&self) -> AssignSpec {
        AssignSpec { node_id: self.node_id@, worker_id: self.worker_id@, priority: self.priority }
    }
}

/// Graph partition for a single worker.
#[derive(Debug)]
pub struct GraphPartition {
    /// Worker ID that will execute this partition
    pub worker_id: String,
    /// Nodes assigned to this worker
    pub nodes: Vec<String>,
    /// Input dependencies from other partitions (node id, source worker id), one per node id
    pub external_inputs: Vec<(String, String)>,
    /// Output nodes consumed by other partitions
    pub external_outputs: Vec<String>,
    /// Subgraph for this partition
    pub subgraph: Option<ComputationGraph>,
}

/// The mathematical value of a graph partition.
pub struct PartSpec {
    pub worker_id: Seq<char>,
    pub nodes: Seq<Seq<char>>,
    pub external_inputs: Seq<(Seq<char>, Seq<char>)>,
    pub external_outputs: Seq<Seq<char>>,
    pub subgraph: Option<GraphSpec>,
}

pub open spec fn opt_graph(g: Option<ComputationGraph>) -> Option<GraphSpec> {
    match g {
        Some(x) => Some(x@),
        None => None,
    }
}

impl View for GraphPartition {
    type V = PartSpec;

    open spec fn view(&self) -> PartSpec {
        PartSpec {
            worker_id: self.worker_id@,
            nodes: strs(self.nodes@),
            external_inputs: crate::graph::pairs_view(self.external_inputs@),
            external_outputs: strs(self.external_outputs@),
            subgraph: opt_graph(self.subgraph),
        }
    }
}

/// A fresh partition for worker `w`.
pub open spec fn fresh_part(w: Seq<char>) -> PartSpec {
    PartSpec { worker_id: w, nodes: Seq::empty(), external_inputs: Seq::empty(), external_outputs: Seq::empty(), subgraph: None }
}

impl GraphPartition {
    /// Create a new, empty graph partition.
    pub fn new(worker_id: String) -> (r: Self)
        ensures r@ == fresh_part(worker_id@),
    {
        let r = GraphPartition {
            worker_id,
            nodes: Vec::new(),
            external_inputs: Vec::new(),
            external_outputs: Vec::new(),
            subgraph: None,
        };
        assert(r@.nodes =~= Seq::<Seq<char>>::empty());
        assert(r@.external_inputs =~= Seq::<(Seq<char>, Seq<char>)>::empty());
        assert(r@.external_outputs =~= Seq::<Seq<char>>::empty());
        r
    }

    /// Add a node to this partition (once).
    pub fn add_node(&mut self, node_id: String)
        ensures final(self)@ == (PartSpec { nodes: push_new(old(self)@.nodes, node_id@), ..old(self)@ }),
    {
        push_unique(&mut self.nodes, node_id);
    }

    /// Record that `node_id` comes from the partition of `source_worker_id`.
    pub fn add_external_input(&mut self, node_id: String, source_worker_id: String)
        ensures final(self)@ == (PartSpec {
            external_inputs: entry_put(old(self)@.external_inputs, node_id@, source_worker_id@), ..old(self)@ }),
    {
        let ghost s = self@.external_inputs;
        let mut i: usize = 0;
        while i < self.external_inputs.len()
            invariant i <= self.external_inputs.len(), self@.external_inputs == s, forall|j: int| 0 <= j < i ==> s[j].0 != node_id@,
                self@ == old(self)@,
            decreases self.external_inputs.len() - i,
        {
            if self.external_inputs[i].0.eq(&node_id) {
                proof { lemma_entry_pos(s, node_id@, i as int); }
                let ghost kv = (node_id@, source_worker_id@);
                self.external_inputs.set(i, (node_id, source_worker_id));
                assert(self@.external_inputs =~= s.update(i as int, kv));
                return;
            }
            i += 1;
        }
        proof { lemma_entry_pos(s, node_id@, i as int); }
        let ghost kv = (node_id@, source_worker_id@);
        self.external_inputs.push((node_id, source_worker_id));
        assert(self@.external_inputs =~= s.push(kv));
    }

    /// Mark a node as an external output (once).
    pub fn mark_external_output(&mut self, node_id: String)
        ensures final(self)@ == (PartSpec { external_outputs: push_new(old(self)@.external_outputs, node_id@), ..old(self)@ }),
    {
        push_unique(&mut self.external_outputs, node_id);
    }

    /// Get the number of nodes in this partition.
    pub fn size(&self) -> (r: usize)
        ensures r == self@.nodes.len(),
    {
        self.nodes.len()
    }
}

/// Index of the first assignment of `id`, or -1.
pub open spec fn assign_pos(a: Seq<AssignSpec>, id: Seq<char>) -> int
    decreases a.len(),
{
    if a.len() == 0 { -1 }
    else if assign_pos(a.drop_last(), id) >= 0 { assign_pos(a.drop_last(), id) }
    else if a.last().node_id == id { a.len() - 1 }
    else { -1 }
}

/// Index of the first partition of worker `w`, or -1.
pub open spec fn part_pos(p: Seq<PartSpec>, w: Seq<char>) -> int
    decreases p.len(),
{
    if p.len() == 0 { -1 }
    else if part_pos(p.drop_last(), w) >= 0 { part_pos(p.drop_last(), w) }
    else if p.last().worker_id == w { p.len() - 1 }
    else { -1 }
}

proof fn lemma_assign_pos(a: Seq<AssignSpec>, id: Seq<char>, i: int)
    requires 0 <= i <= a.len(), forall|j: int| 0 <= j < i ==> a[j].node_id != id,
    ensures
        i < a.len() && a[i].node_id == id ==> assign_pos(a, id) == i,
        i == a.len() ==> assign_pos(a, id) == -1,
    decreases a.len(),
{
    if a.len() > 0 {
        if i < a.len() { lemma_assign_pos(a.drop_last(), id, i); } else { lemma_assign_pos(a.drop_last(), id, i - 1); }
    }
}

proof fn lemma_part_pos(p: Seq<PartSpec>, w: Seq<char>, i: int)
    requires 0 <= i <= p.len(), forall|j: int| 0 <= j < i ==> p[j].worker_id != w,
    ensures
        i < p.len() && p[i].worker_id == w ==> part_pos(p, w) == i,
        i == p.len() ==> part_pos(p, w) == -1,
    decreases p.len(),
{
    if p.len() > 0 {
        if i < p.len() { lemma_part_pos(p.drop_last(), w, i); } else { lemma_part_pos(p.drop_last(), w, i - 1); }
    }
}

/// `a` with `x` in place of the assignment of the same node, or appended.
pub open spec fn assign_put(a: Seq<AssignSpec>, x: AssignSpec) -> Seq<AssignSpec> {
    let i = assign_pos(a, x.node_id);
    if i >= 0 { a.update(i, x) } else { a.push(x) }
}

/// `p` with `x` in place of the partition of the same worker, or appended.
pub open spec fn part_put(p: Seq<PartSpec>, x: PartSpec) -> Seq<PartSpec> {
    let i = part_pos(p, x.worker_id);
    if i >= 0 { p.update(i, x) } else { p.push(x) }
}

/// The state of a distributed executor.
pub struct DistState {
    pub assignments: Seq<AssignSpec>,
    pub partitions: Seq<PartSpec>,
}

/// Fresh partitions for the first `k` workers.
pub open spec fn init_parts(p: Seq<PartSpec>, workers: Seq<Seq<char>>, k: nat) -> Seq<PartSpec>
    decreases k,
{
    if k == 0 { p } else { part_put(init_parts(p, workers, (k - 1) as nat), fresh_part(workers[k - 1])) }
}

/// Round-robin assignment of the first `k` ids of `order`.
pub open spec fn assign_run(st: DistState, order: Seq<Seq<char>>, workers: Seq<Seq<char>>, k: nat) -> DistState
    decreases k,
{
    if k == 0 { st } else {
        let prev = assign_run(st, order, workers, (k - 1) as nat);
        let id = order[k - 1];
        let w = workers[(k - 1) % workers.len() as int];
        let parts = prev.partitions;
        let i = part_pos(parts, w);
        DistState {
            assignments: assign_put(prev.assignments, AssignSpec { node_id: id, worker_id: w, priority: (k - 1) as usize }),
            partitions: if i >= 0 { parts.update(i, PartSpec { nodes: push_new(parts[i].nodes, id), ..parts[i] }) } else { parts },
        }
    }
}

/// The cross-partition step for input `x` of a node assigned to worker `wv`:
/// when `x` is assigned to another worker, the consumer's partition records
/// `x` as an external input from that worker and the producer's partition
/// records `x` as an external output.
pub open spec fn link_step(st: DistState, wv: Seq<char>, x: Seq<char>) -> DistState {
    let ai = assign_pos(st.assignments, x);
    if ai >= 0 && st.assignments[ai].worker_id != wv {
        let wu = st.assignments[ai].worker_id;
        let p = st.partitions;
        let pv = part_pos(p, wv);
        let p1 = if pv >= 0 { p.update(pv, PartSpec { external_inputs: entry_put(p[pv].external_inputs, x, wu), ..p[pv] }) } else { p };
        let pu = part_pos(p1, wu);
        let p2 = if pu >= 0 { p1.update(pu, PartSpec { external_outputs: push_new(p1[pu].external_outputs, x), ..p1[pu] }) } else { p1 };
        DistState { partitions: p2, ..st }
    } else {
        st
    }
}

/// The cross-partition steps for the first `j` inputs of node `v`.
pub open spec fn link_inputs(st: DistState, nodes: Seq<NodeSpec>, v: int, j: nat) -> DistState
    decreases j,
{
    if j == 0 { st } else {
        let prev = link_inputs(st, nodes, v, (j - 1) as nat);
        let av = assign_pos(prev.assignments, nodes[v].id);
        if av >= 0 { link_step(prev, prev.assignments[av].worker_id, nodes[v].inputs[j - 1]) } else { prev }
    }
}

/// The cross-partition steps for the first `k` nodes.
pub open spec fn link_run(st: DistState, nodes: Seq<NodeSpec>, k: nat) -> DistState
    decreases k,
{
    if k == 0 { st } else {
        let prev = link_run(st, nodes, (k - 1) as nat);
        link_inputs(prev, nodes, k - 1, nodes[k - 1].inputs.len())
    }
}

/// The subgraph nodes of a partition: the graph's node of each partition id, in order.
pub open spec fn sub_nodes(nodes: Seq<NodeSpec>, ids: Seq<Seq<char>>, k: nat) -> Seq<NodeSpec>
    decreases k,
{
    if k == 0 { Seq::empty() } else {
        let prev = sub_nodes(nodes, ids, (k - 1) as nat);
        let i = index_of_id(nodes, ids[k - 1]);
        if i >= 0 { insert_node(prev, nodes[i]) } else { prev }
    }
}

/// The ids of `cands` (first `k`) that satisfy `keep`, added to `s` once each.
pub open spec fn mark_if(s: Seq<Seq<char>>, cands: Seq<Seq<char>>, keep: spec_fn(Seq<char>) -> bool, k: nat) -> Seq<Seq<char>>
    decreases k,
{
    if k == 0 { s } else {
        let prev = mark_if(s, cands, keep, (k - 1) as nat);
        if keep(cands[k - 1]) { push_new(prev, cands[k - 1]) } else { prev }
    }
}

/// The subgraph of partition `p` of graph `g`: its nodes; as inputs the
/// external inputs that are subgraph nodes or graph inputs, then the graph
/// inputs among its nodes; as outputs the external outputs that are subgraph
/// nodes, then the graph outputs among its nodes.
pub open spec fn part_subgraph(g: GraphSpec, p: PartSpec) -> GraphSpec {
    let sn = sub_nodes(g.nodes, p.nodes, p.nodes.len());
    let ext_in = keys_of(p.external_inputs);
    let ins1 = mark_if(Seq::empty(), ext_in, node_or_input(sn, g.inputs), ext_in.len());
    let outs1 = mark_if(Seq::empty(), p.external_outputs, node_or_input(sn, Seq::empty()), p.external_outputs.len());
    GraphSpec {
        nodes: sn,
        inputs: mark_if(ins1, g.inputs, member_of(p.nodes), g.inputs.len()),
        outputs: mark_if(outs1, g.outputs, member_of(p.nodes), g.outputs.len()),
        metadata: Seq::empty(),
        cid: None,
    }
}

/// Whether an id names a node of `sn` or is among `extra`.
pub open spec fn node_or_input(sn: Seq<NodeSpec>, extra: Seq<Seq<char>>) -> spec_fn(Seq<char>) -> bool {
    |x: Seq<char>| node_ids(sn).contains(x) || extra.contains(x)
}

/// Whether an id is among `s`.
pub open spec fn member_of(s: Seq<Seq<char>>) -> spec_fn(Seq<char>) -> bool {
    |x: Seq<char>| s.contains(x)
}

/// The state after partitioning graph `g` over `workers` with the ids in
/// topological order `order`: fresh partitions for the workers, round-robin
/// assignment, cross-partition links, then each partition's subgraph.
pub open spec fn partitioned(st: DistState, g: GraphSpec, order: Seq<Seq<char>>, workers: Seq<Seq<char>>) -> DistState {
    let s1 = DistState { partitions: init_parts(st.partitions, workers, workers.len()), ..st };
    let s2 = assign_run(s1, order, workers, order.len());
    let s3 = link_run(s2, g.nodes, g.nodes.len());
    DistState {
        partitions: s3.partitions.map_values(|p: PartSpec| PartSpec { subgraph: Some(part_subgraph(g, p)), ..p }),
        ..s3
    }
}

/// Partitions `q` are `p` with the same worker at every position.
pub open spec fn same_workers(p: Seq<PartSpec>, q: Seq<PartSpec>) -> bool {
    p.len() == q.len() && forall|i: int| 0 <= i < p.len() ==> #[trigger] q[i].worker_id == p[i].worker_id
}

/// External input `e` (node id, source worker) is matched by an external
/// output of the source worker's partition.
pub open spec fn covered(parts: Seq<PartSpec>, e: (Seq<char>, Seq<char>)) -> bool {
    part_pos(parts, e.1) >= 0 && parts[part_pos(parts, e.1)].external_outputs.contains(e.0)
}

/// Every external input of every partition is listed among the external
/// outputs of the partition of the worker it comes from.
pub open spec fn outputs_cover_inputs(parts: Seq<PartSpec>) -> bool {
    forall|q: int, k: int| 0 <= q < parts.len() && 0 <= k < parts[q].external_inputs.len()
        ==> #[trigger] covered(parts, parts[q].external_inputs[k])
}

/// External input `e` (node `e.0` computed by worker `e.1`) is among the
/// external outputs of worker `e.1`'s partition.
pub open spec fn matched_output(parts: Seq<PartSpec>, e: (Seq<char>, Seq<char>)) -> bool {
    exists|i: int| 0 <= i < parts.len() && parts[i].worker_id == e.1 && (#[trigger] parts[i].external_outputs).contains(e.0)
}

/// Every external input of every partition is matched by an external output
/// of the partition of the worker it comes from.
pub open spec fn outputs_matched(parts: Seq<PartSpec>) -> bool {
    forall|q: int, k: int| 0 <= q < parts.len() && 0 <= k < parts[q].external_inputs.len()
        ==> #[trigger] matched_output(parts, parts[q].external_inputs[k])
}

/// Every assigned worker has a partition.
pub open spec fn workers_have_parts(st: DistState) -> bool {
    forall|a: int| 0 <= a < st.assignments.len() ==> part_pos(st.partitions, (#[trigger] st.assignments[a]).worker_id) >= 0
}

proof fn lemma_part_pos_found(p: Seq<PartSpec>, w: Seq<char>)
    ensures
        part_pos(p, w) >= 0 ==> part_pos(p, w) < p.len() && p[part_pos(p, w)].worker_id == w,
        part_pos(p, w) < 0 ==> forall|j: int| 0 <= j < p.len() ==> (#[trigger] p[j]).worker_id != w,
        part_pos(p, w) >= -1,
    decreases p.len(),
{
    if p.len() > 0 {
        let d = p.drop_last();
        lemma_part_pos_found(d, w);
        if part_pos(p, w) < 0 {
            assert forall|j: int| 0 <= j < p.len() implies (#[trigger] p[j]).worker_id != w by {
                if j < p.len() - 1 {
                    assert(d[j] == p[j]);
                }
            }
        } else if part_pos(d, w) >= 0 {
            assert(d[part_pos(d, w)] == p[part_pos(d, w)]);
        }
    }
}

proof fn lemma_part_pos_same(p: Seq<PartSpec>, q: Seq<PartSpec>, w: Seq<char>)
    requires same_workers(p, q),
    ensures part_pos(p, w) == part_pos(q, w),
    decreases p.len(),
{
    if p.len() > 0 {
        let pd = p.drop_last();
        let qd = q.drop_last();
        assert forall|i: int| 0 <= i < pd.len() implies #[trigger] qd[i].worker_id == pd[i].worker_id by {
            assert(q[i].worker_id == p[i].worker_id);
        }
        lemma_part_pos_same(pd, qd, w);
        assert(q[q.len() - 1].worker_id == p[p.len() - 1].worker_id);
    }
}

proof fn lemma_part_pos_push(p: Seq<PartSpec>, x: PartSpec, w: Seq<char>)
    ensures
        part_pos(p, w) >= 0 ==> part_pos(p.push(x), w) == part_pos(p, w),
        x.worker_id == w ==> part_pos(p.push(x), w) >= 0,
{
    assert(p.push(x).drop_last() =~= p);
}

proof fn lemma_entry_pos_bound<T>(s: Seq<(Seq<char>, T)>, key: Seq<char>)
    ensures entry_pos(s, key) < s.len(), entry_pos(s, key) >= 0 ==> s[entry_pos(s, key)].0 == key,
    decreases s.len(),
{
    if s.len() > 0 {
        lemma_entry_pos_bound(s.drop_last(), key);
    }
}

/// Fresh partitions for listed workers have no external inputs, and every
/// listed worker (and every worker that had a partition) has one.
proof fn lemma_init_parts(workers: Seq<Seq<char>>, k: nat)
    requires k <= workers.len(),
    ensures
        forall|q: int| 0 <= q < init_parts(Seq::empty(), workers, k).len() ==>
            (#[trigger] init_parts(Seq::empty(), workers, k)[q]).external_inputs.len() == 0,
        forall|j: int| 0 <= j < k ==> part_pos(init_parts(Seq::empty(), workers, k), #[trigger] workers[j]) >= 0,
    decreases k,
{
    if k > 0 {
        lemma_init_parts(workers, (k - 1) as nat);
        let p = init_parts(Seq::empty(), workers, (k - 1) as nat);
        let x = fresh_part(workers[k - 1]);
        let i = part_pos(p, x.worker_id);
        lemma_part_pos_found(p, x.worker_id);
        let r = init_parts(Seq::empty(), workers, k);
        assert(r == part_put(p, x));
        if i >= 0 {
            assert(same_workers(p, r));
            assert forall|w: Seq<char>| #![trigger part_pos(r, w)] true implies part_pos(r, w) == part_pos(p, w) by {
                lemma_part_pos_same(p, r, w);
            }
            assert forall|j: int| 0 <= j < k implies part_pos(r, #[trigger] workers[j]) >= 0 by {
                lemma_part_pos_same(p, r, workers[j]);
                if j == k - 1 {
                } else {
                    assert(part_pos(p, workers[j]) >= 0);
                }
            }
        } else {
            assert forall|j: int| 0 <= j < k implies part_pos(r, #[trigger] workers[j]) >= 0 by {
                lemma_part_pos_push(p, x, workers[j]);
                if j < k - 1 {
                    assert(part_pos(p, workers[j]) >= 0);
                }
            }
        }
    }
}

/// A step that keeps the workers and every partition's external inputs and
/// outputs keeps the coverage.
proof fn lemma_cover_grow(p: Seq<PartSpec>, q: Seq<PartSpec>)
    requires
        outputs_cover_inputs(p), same_workers(p, q),
        forall|i: int| 0 <= i < p.len() ==> (#[trigger] q[i]).external_inputs == p[i].external_inputs,
        forall|i: int| 0 <= i < p.len() ==> (#[trigger] q[i]).external_outputs == p[i].external_outputs,
    ensures outputs_cover_inputs(q),
{
    assert forall|c: int, k: int| 0 <= c < q.len() && 0 <= k < q[c].external_inputs.len()
        implies #[trigger] covered(q, q[c].external_inputs[k]) by {
        let e = q[c].external_inputs[k];
        assert(q[c].external_inputs == p[c].external_inputs);
        assert(covered(p, p[c].external_inputs[k]));
        lemma_part_pos_same(p, q, e.1);
        let pp = part_pos(p, e.1);
        lemma_part_pos_found(p, e.1);
        assert(q[pp].external_outputs == p[pp].external_outputs);
    }
}

proof fn lemma_link_step(st: DistState, wv: Seq<char>, x: Seq<char>)
    requires outputs_cover_inputs(st.partitions), workers_have_parts(st),
    ensures
        outputs_cover_inputs(link_step(st, wv, x).partitions),
        workers_have_parts(link_step(st, wv, x)),
        same_workers(st.partitions, link_step(st, wv, x).partitions),
        link_step(st, wv, x).assignments == st.assignments,
{
    let ai = assign_pos(st.assignments, x);
    lemma_assign_pos_bound(st.assignments, x);
    if ai >= 0 && st.assignments[ai].worker_id != wv {
        let wu = st.assignments[ai].worker_id;
        let p = st.partitions;
        let pv = part_pos(p, wv);
        lemma_part_pos_found(p, wv);
        let p1 = if pv >= 0 { p.update(pv, PartSpec { external_inputs: entry_put(p[pv].external_inputs, x, wu), ..p[pv] }) } else { p };
        assert(same_workers(p, p1));
        lemma_part_pos_same(p, p1, wu);
        let pu = part_pos(p1, wu);
        assert(pu >= 0);
        lemma_part_pos_found(p1, wu);
        let p2 = if pu >= 0 { p1.update(pu, PartSpec { external_outputs: push_new(p1[pu].external_outputs, x), ..p1[pu] }) } else { p1 };
        assert(same_workers(p1, p2));
        assert(same_workers(p, p2));
        assert(link_step(st, wv, x).partitions == p2);
        assert forall|w: Seq<char>| #![trigger part_pos(p2, w)] true implies part_pos(p2, w) == part_pos(p, w) by {
            lemma_part_pos_same(p, p2, w);
        }
        assert forall|c: int, k: int| 0 <= c < p2.len() && 0 <= k < p2[c].external_inputs.len()
            implies #[trigger] covered(p2, p2[c].external_inputs[k]) by {
            let e = p2[c].external_inputs[k];
            assert(p2[c].external_inputs == p1[c].external_inputs);
            if pv >= 0 && c == pv {
                let s0 = p[pv].external_inputs;
                let ep = entry_pos(s0, x);
                lemma_entry_pos_bound(s0, x);
                if e == (x, wu) {
                    assert(p2[pu].external_outputs.contains(x)) by {
                        let t = p1[pu].external_outputs;
                        if !t.contains(x) {
                            assert(push_new(t, x)[t.len() as int] == x);
                        }
                    }
                } else {
                    assert(p1[pv].external_inputs == entry_put(s0, x, wu));
                    let k0: int = if ep >= 0 { k } else { k };
                    assert(k0 < s0.len());
                    assert(e == s0[k0]);
                    assert(covered(p, s0[k0]));
                    let pp = part_pos(p, e.1);
                    lemma_part_pos_found(p, e.1);
                    assert(p[pp].external_outputs.contains(e.0));
                    lemma_push_new_keeps(p1[pp].external_outputs, x, e.0);
                }
            } else {
                assert(p1[c].external_inputs == p[c].external_inputs);
                assert(covered(p, p[c].external_inputs[k]));
                let pp = part_pos(p, e.1);
                lemma_part_pos_found(p, e.1);
                assert(p[pp].external_outputs.contains(e.0));
                lemma_push_new_keeps(p1[pp].external_outputs, x, e.0);
            }
        }
    }
}

proof fn lemma_push_new_keeps(s: Seq<Seq<char>>, x: Seq<char>, y: Seq<char>)
    ensures s.contains(y) ==> push_new(s, x).contains(y),
{
    if s.contains(y) && !s.contains(x) {
        let i = choose|i: int| 0 <= i < s.len() && s[i] == y;
        assert(s.push(x)[i] == y);
    }
}

proof fn lemma_assign_pos_bound(a: Seq<AssignSpec>, id: Seq<char>)
    ensures assign_pos(a, id) < a.len(),
    decreases a.len(),
{
    if a.len() > 0 {
        lemma_assign_pos_bound(a.drop_last(), id);
    }
}

proof fn lemma_link_inputs(st: DistState, nodes: Seq<NodeSpec>, v: int, j: nat)
    requires outputs_cover_inputs(st.partitions), workers_have_parts(st),
    ensures
        outputs_cover_inputs(link_inputs(st, nodes, v, j).partitions),
        workers_have_parts(link_inputs(st, nodes, v, j)),
    decreases j,
{
    if j > 0 {
        lemma_link_inputs(st, nodes, v, (j - 1) as nat);
        let prev = link_inputs(st, nodes, v, (j - 1) as nat);
        let av = assign_pos(prev.assignments, nodes[v].id);
        if av >= 0 {
            lemma_link_step(prev, prev.assignments[av].worker_id, nodes[v].inputs[j - 1]);
        }
    }
}

proof fn lemma_link_run(st: DistState, nodes: Seq<NodeSpec>, k: nat)
    requires outputs_cover_inputs(st.partitions), workers_have_parts(st),
    ensures
        outputs_cover_inputs(link_run(st, nodes, k).partitions),
        workers_have_parts(link_run(st, nodes, k)),
    decreases k,
{
    if k > 0 {
        lemma_link_run(st, nodes, (k - 1) as nat);
        lemma_link_inputs(link_run(st, nodes, (k - 1) as nat), nodes, k - 1, nodes[k - 1].inputs.len());
    }
}

proof fn lemma_assign_run(st: DistState, order: Seq<Seq<char>>, workers: Seq<Seq<char>>, k: nat)
    requires
        k <= order.len(), workers.len() > 0,
        outputs_cover_inputs(st.partitions), workers_have_parts(st),
        forall|j: int| 0 <= j < workers.len() ==> part_pos(st.partitions, #[trigger] workers[j]) >= 0,
    ensures
        outputs_cover_inputs(assign_run(st, order, workers, k).partitions),
        workers_have_parts(assign_run(st, order, workers, k)),
        same_workers(st.partitions, assign_run(st, order, workers, k).partitions),
    decreases k,
{
    if k > 0 {
        lemma_assign_run(st, order, workers, (k - 1) as nat);
        let prev = assign_run(st, order, workers, (k - 1) as nat);
        let id = order[k - 1];
        let w = workers[(k - 1) % workers.len() as int];
        let parts = prev.partitions;
        let i = part_pos(parts, w);
        lemma_part_pos_found(parts, w);
        let nparts = if i >= 0 { parts.update(i, PartSpec { nodes: push_new(parts[i].nodes, id), ..parts[i] }) } else { parts };
        let next = assign_run(st, order, workers, k);
        assert(next.partitions == nparts);
        assert(same_workers(parts, nparts));
        assert(same_workers(st.partitions, nparts));
        lemma_cover_grow(parts, nparts);
        assert forall|ww: Seq<char>| #![trigger part_pos(nparts, ww)] true implies part_pos(nparts, ww) == part_pos(st.partitions, ww) by {
            lemma_part_pos_same(st.partitions, nparts, ww);
        }
        let a = prev.assignments;
        let x = AssignSpec { node_id: id, worker_id: w, priority: (k - 1) as usize };
        let ap = assign_pos(a, id);
        lemma_assign_pos_bound(a, id);
        assert(next.assignments == assign_put(a, x));
        assert(0 <= (k - 1) % (workers.len() as int) < workers.len());
        assert(part_pos(st.partitions, w) >= 0);
        assert forall|b: int| 0 <= b < next.assignments.len() implies
            part_pos(next.partitions, (#[trigger] next.assignments[b]).worker_id) >= 0 by {
            if next.assignments[b] != x {
                assert(b < a.len() && next.assignments[b] == a[b]);
                lemma_part_pos_same(parts, nparts, a[b].worker_id);
            }
        }
    }
}

proof fn lemma_cover_empty_inputs(p: Seq<PartSpec>)
    requires forall|q: int| 0 <= q < p.len() ==> (#[trigger] p[q]).external_inputs.len() == 0,
    ensures outputs_cover_inputs(p),
{
    assert forall|c: int, k: int| 0 <= c < p.len() && 0 <= k < p[c].external_inputs.len()
        implies #[trigger] covered(p, p[c].external_inputs[k]) by {
        assert(p[c].external_inputs.len() == 0);
    }
}

/// Cross-partition data flow is matched on both sides: after a fresh
/// executor partitions a graph over at least one worker, every external
/// input `(x, w)` of a partition (node `x` computed by worker `w`) appears
/// among the external outputs of `w`'s partition, so the producer knows to
/// send what the consumer waits for.
pub proof fn lemma_partition_outputs_cover(st: DistState, g: GraphSpec, order: Seq<Seq<char>>, workers: Seq<Seq<char>>)
    requires st.partitions.len() == 0, st.assignments.len() == 0, workers.len() > 0,
    ensures outputs_matched(partitioned(st, g, order, workers).partitions),
{
    assert(st.partitions =~= Seq::<PartSpec>::empty());
    let p0 = init_parts(st.partitions, workers, workers.len());
    lemma_init_parts(workers, workers.len());
    lemma_cover_empty_inputs(p0);
    let s1 = DistState { partitions: p0, ..st };
    assert(workers_have_parts(s1));
    lemma_assign_run(s1, order, workers, order.len());
    let s2 = assign_run(s1, order, workers, order.len());
    lemma_link_run(s2, g.nodes, g.nodes.len());
    let s3 = link_run(s2, g.nodes, g.nodes.len());
    let fin = partitioned(st, g, order, workers).partitions;
    assert(fin == s3.partitions.map_values(|p: PartSpec| PartSpec { subgraph: Some(part_subgraph(g, p)), ..p }));
    assert(same_workers(s3.partitions, fin));
    lemma_cover_grow(s3.partitions, fin);
    assert forall|q: int, k: int| 0 <= q < fin.len() && 0 <= k < fin[q].external_inputs.len() implies
        #[trigger] matched_output(fin, fin[q].external_inputs[k]) by {
        assert(covered(fin, fin[q].external_inputs[k]));
        lemma_part_pos_found(fin, fin[q].external_inputs[k].1);
    }
}

proof fn lemma_replace_part(before: Seq<PartSpec>, taken: Seq<PartSpec>, after: Seq<PartSpec>, i: int, p: PartSpec)
    requires
        0 <= i < before.len(), taken.len() == before.len(),
        forall|j: int| 0 <= j < before.len() && j != i ==> #[trigger] taken[j] == before[j],
        after == taken.update(i, p),
    ensures after == before.update(i, p),
{
    assert(after =~= before.update(i, p));
}

/// Distributed executor for multi-node graph execution.
#[derive(Debug)]
pub struct DistributedExecutor {
    /// Worker assignments, one per node id
    assignments: Vec<NodeAssignment>,
    /// Graph partitions, one per worker id
    partitions: Vec<GraphPartition>,
    /// Communication timeout (milliseconds)
    timeout_ms: u64,
}

impl DistributedExecutor {
    /// The assignments and partitions.
    pub closed spec fn state(&self) -> DistState {
        DistState {
            assignments: self.assignments@.map_values(|a: NodeAssignment| a@),
            partitions: self.partitions@.map_values(|p: GraphPartition| p@),
        }
    }

    /// The communication timeout.
    pub closed spec fn timeout_spec(&self) -> u64 {
        self.timeout_ms
    }

    /// Create a new distributed executor with a 30 s timeout.
    pub fn new() -> (r: Self)
        ensures r.state().assignments.len() == 0, r.state().partitions.len() == 0, r.timeout_spec() == 30000,
    {
        let r = DistributedExecutor { assignments: Vec::new(), partitions: Vec::new(), timeout_ms: 30000 };
        assert(r.state().assignments =~= Seq::<AssignSpec>::empty());
        assert(r.state().partitions =~= Seq::<PartSpec>::empty());
        r
    }

    /// Set communication timeout.
    pub fn with_timeout(self, timeout_ms: u64) -> (r: Self)
        ensures r.state() == self.state(), r.timeout_spec() == timeout_ms,
    {
        DistributedExecutor { timeout_ms, ..self }
    }

    fn find_assignment(&self, id: &String) -> (r: Option<usize>)
        ensures
            r matches Some(i) ==> i < self.assignments@.len() && assign_pos(self.state().assignments, id@) == i,
            r is None ==> assign_pos(self.state().assignments, id@) == -1,
    {
        let ghost a = self.state().assignments;
        let mut i: usize = 0;
        while i < self.assignments.len()
            invariant i <= self.assignments.len(), a == self.state().assignments, forall|j: int| 0 <= j < i ==> a[j].node_id != id@,
            decreases self.assignments.len() - i,
        {
            if self.assignments[i].node_id.eq(id) {
                proof { lemma_assign_pos(a, id@, i as int); }
                return Some(i);
            }
            i += 1;
        }
        proof { lemma_assign_pos(a, id@, i as int); }
        None
    }

    fn find_partition(&self, w: &String) -> (r: Option<usize>)
        ensures
            r matches Some(i) ==> i < self.partitions@.len() && part_pos(self.state().partitions, w@) == i,
            r is None ==> part_pos(self.state().partitions, w@) == -1,
    {
        let ghost p = self.state().partitions;
        let mut i: usize = 0;
        while i < self.partitions.len()
            invariant i <= self.partitions.len(), p == self.state().partitions, forall|j: int| 0 <= j < i ==> p[j].worker_id != w@,
            decreases self.partitions.len() - i,
        {
            if self.partitions[i].worker_id.eq(w) {
                proof { lemma_part_pos(p, w@, i as int); }
                return Some(i);
            }
            i += 1;
        }
        proof { lemma_part_pos(p, w@, i as int); }
        None
    }

    /// Puts `part` in place of the partition of its worker, or appends it.
    fn put_partition(&mut self, part: GraphPartition)
        ensures
            final(self).state() == (DistState { partitions: part_put(old(self).state().partitions, part@), ..old(self).state() }),
            final(self).timeout_spec() == old(self).timeout_spec(),
    {
        let ghost pv = part@;
        match self.find_partition(&part.worker_id) {
            Some(i) => {
                let ghost before = self.state().partitions;
                self.partitions.set(i, part);
                assert(self.state().partitions =~= before.update(i as int, pv));
            },
            None => {
                let ghost before = self.state().partitions;
                self.partitions.push(part);
                assert(self.state().partitions =~= before.push(pv));
            },
        }
    }

    fn put_assignment(&mut self, a: NodeAssignment)
        ensures
            final(self).state() == (DistState { assignments: assign_put(old(self).state().assignments, a@), ..old(self).state() }),
            final(self).timeout_spec() == old(self).timeout_spec(),
    {
        let ghost av = a@;
        match self.find_assignment(&a.node_id) {
            Some(i) => {
                let ghost before = self.state().assignments;
                self.assignments.set(i, a);
                assert(self.state().assignments =~= before.update(i as int, av));
            },
            None => {
                let ghost before = self.state().assignments;
                self.assignments.push(a);
                assert(self.state().assignments =~= before.push(av));
            },
        }
    }

    /// Takes the partition at `i` out, leaving an empty one in its place.
    fn take_partition(&mut self, i: usize) -> (r: GraphPartition)
        requires i < old(self).partitions@.len(),
        ensures
            r@ == old(self).state().partitions[i as int],
            final(self).partitions@.len() == old(self).partitions@.len(),
            forall|j: int| 0 <= j < old(self).partitions@.len() && j != i ==> #[trigger] final(self).state().partitions[j] == old(self).state().partitions[j],
            final(self).state().assignments == old(self).state().assignments,
            final(self).timeout_spec() == old(self).timeout_spec(),
    {
        let mut tmp = GraphPartition::new(String::new());
        core::mem::swap(&mut tmp, &mut self.partitions[i]);
        tmp
    }
}

/// The subgraph of partition `p` of `graph` (see `part_subgraph`).
fn build_subgraph(graph: &ComputationGraph, p: &GraphPartition) -> (r: ComputationGraph)
    ensures r@ == part_subgraph(graph@, p@),
{
    let ghost g = graph@;
    let ghost pv = p@;
    let mut sg = ComputationGraph::new();
    let mut k: usize = 0;
    while k < p.nodes.len()
        invariant k <= p.nodes.len(), g == graph@, pv == p@,
            sg@.nodes == sub_nodes(g.nodes, pv.nodes, k as nat),
            sg@.inputs.len() == 0, sg@.outputs.len() == 0, sg@.metadata.len() == 0, sg@.cid is None,
        decreases p.nodes.len() - k,
    {
        assert(p.nodes@[k as int]@ == pv.nodes[k as int]);
        match find_node(&graph.nodes, &p.nodes[k]) {
            Some(u) => {
                insert_node_vec(&mut sg.nodes, graph.nodes[u].clone());
            },
            None => {},
        }
        k += 1;
    }
    let ghost sn = sg@.nodes;
    let ghost ext_in = keys_of(pv.external_inputs);
    k = 0;
    while k < p.external_inputs.len()
        invariant k <= p.external_inputs.len(), g == graph@, pv == p@, sn == sg@.nodes, ext_in == keys_of(pv.external_inputs),
            sg@.inputs == mark_if(Seq::empty(), ext_in, node_or_input(sn, g.inputs), k as nat),
            sg@.outputs.len() == 0, sg@.metadata.len() == 0, sg@.cid is None,
        decreases p.external_inputs.len() - k,
    {
        let x = &p.external_inputs[k].0;
        assert(x@ == ext_in[k as int]);
        if sg.node_index(x).is_some() || contains_string(&graph.inputs, x) {
            sg.mark_input(x.clone());
        }
        k += 1;
    }
    let ghost ins1 = sg@.inputs;
    k = 0;
    while k < p.external_outputs.len()
        invariant k <= p.external_outputs.len(), g == graph@, pv == p@, sn == sg@.nodes, sg@.inputs == ins1,
            sg@.outputs == mark_if(Seq::empty(), pv.external_outputs, node_or_input(sn, Seq::empty()), k as nat),
            sg@.metadata.len() == 0, sg@.cid is None,
        decreases p.external_outputs.len() - k,
    {
        let x = &p.external_outputs[k];
        assert(x@ == pv.external_outputs[k as int]);
        if sg.node_index(x).is_some() {
            sg.mark_output(x.clone());
        }
        k += 1;
    }
    let ghost outs1 = sg@.outputs;
    k = 0;
    while k < graph.inputs.len()
        invariant k <= graph.inputs.len(), g == graph@, pv == p@, sn == sg@.nodes, sg@.outputs == outs1,
            sg@.inputs == mark_if(ins1, g.inputs, member_of(pv.nodes), k as nat),
            sg@.metadata.len() == 0, sg@.cid is None,
        decreases graph.inputs.len() - k,
    {
        let x = &graph.inputs[k];
        assert(x@ == g.inputs[k as int]);
        if contains_string(&p.nodes, x) {
            sg.mark_input(x.clone());
        }
        k += 1;
    }
    k = 0;
    while k < graph.outputs.len()
        invariant k <= graph.outputs.len(), g == graph@, pv == p@, sn == sg@.nodes,
            sg@.inputs == mark_if(ins1, g.inputs, member_of(pv.nodes), g.inputs.len()),
            sg@.outputs == mark_if(outs1, g.outputs, member_of(pv.nodes), k as nat),
            sg@.metadata.len() == 0, sg@.cid is None,
        decreases graph.outputs.len() - k,
    {
        let x = &graph.outputs[k];
        assert(x@ == g.outputs[k as int]);
        if contains_string(&p.nodes, x) {
            sg.mark_output(x.clone());
        }
        k += 1;
    }
    assert(sg@.metadata =~= Seq::<(Seq<char>, Seq<char>)>::empty());
    sg
}

impl DistributedExecutor {
    /// Partition a graph across workers, round-robin over a topological
    /// order: each worker gets a fresh partition; the node at position `k`
    /// goes to worker `k % workers` with priority `k`; an input assigned to
    /// another worker is recorded as an external input of the consumer's
    /// partition and an external output of the producer's; then each
    /// partition gets its subgraph (see `partitioned`). `InvalidGraph` with
    /// no workers, `CircularDependency` on a cycle; either leaves the
    /// executor unchanged.
    pub fn partition_graph(&mut self, graph: &ComputationGraph, worker_ids: &Vec<String>) -> (r: Result<(), GraphError>)
        ensures
            final(self).timeout_spec() == old(self).timeout_spec(),
            worker_ids@.len() == 0 ==> (r matches Err(e) && e is InvalidGraph),
            r is Err ==> final(self).state() == old(self).state(),
            worker_ids@.len() > 0 ==> (r matches Err(e) ==> e.kind() == GraphErrorKind::CircularDependency && has_cycle(graph@.nodes)),
            r is Ok ==> exists|ord: Seq<int>| #[trigger] is_topo_order(graph@.nodes, ord) && final(self).state()
                == partitioned(old(self).state(), graph@, ord.map_values(|i: int| graph@.nodes[i].id), strs(worker_ids@)),
    {
        if worker_ids.len() == 0 {
            return Err(GraphError::InvalidGraph(String::from_str("No workers available")));
        }
        let ghost g = graph@;
        let ghost st0 = self.state();
        let ghost wv = strs(worker_ids@);
        let sorted = match graph.topological_sort() {
            Ok(ids) => ids,
            Err(e) => { return Err(e); },
        };
        let ghost order = strs(sorted@);
        let mut k: usize = 0;
        while k < worker_ids.len()
            invariant k <= worker_ids.len(), wv == strs(worker_ids@),
                self.state() == (DistState { partitions: init_parts(st0.partitions, wv, k as nat), ..st0 }),
                self.timeout_spec() == old(self).timeout_spec(),
            decreases worker_ids.len() - k,
        {
            let p = GraphPartition::new(worker_ids[k].clone());
            self.put_partition(p);
            k += 1;
        }
        let ghost s1 = self.state();
        let n = worker_ids.len();
        k = 0;
        while k < sorted.len()
            invariant k <= sorted.len(), n == worker_ids@.len(), n > 0, wv == strs(worker_ids@), order == strs(sorted@),
                self.state() == assign_run(s1, order, wv, k as nat),
                self.timeout_spec() == old(self).timeout_spec(),
            decreases sorted.len() - k,
        {
            let w = &worker_ids[k % n];
            assert(w@ == wv[(k % n) as int]);
            let a = NodeAssignment { node_id: sorted[k].clone(), worker_id: w.clone(), priority: k };
            let ghost prev = self.state();
            self.put_assignment(a);
            let ghost mid = self.state();
            match self.find_partition(w) {
                Some(i) => {
                    let mut p = self.take_partition(i);
                    let ghost taken = self.state().partitions;
                    p.add_node(sorted[k].clone());
                    let ghost pv = p@;
                    self.partitions.set(i, p);
                    proof { assert(self.state().partitions =~= taken.update(i as int, pv)); lemma_replace_part(mid.partitions, taken, self.state().partitions, i as int, pv); }
                },
                None => {},
            }
            k += 1;
        }
        let ghost s2 = self.state();
        let mut v: usize = 0;
        while v < graph.nodes.len()
            invariant v <= graph.nodes.len(), g == graph@,
                self.state() == link_run(s2, g.nodes, v as nat),
                self.timeout_spec() == old(self).timeout_spec(),
            decreases graph.nodes.len() - v,
        {
            let node = &graph.nodes[v];
            assert(node@ == g.nodes[v as int]);
            let ghost sv = self.state();
            let mut j: usize = 0;
            while j < node.inputs.len()
                invariant j <= node.inputs.len(), g == graph@, node@ == g.nodes[v as int], v < g.nodes.len(),
                    self.state() == link_inputs(sv, g.nodes, v as int, j as nat),
                    self.timeout_spec() == old(self).timeout_spec(),
                decreases node.inputs.len() - j,
            {
                let x = &node.inputs[j];
                assert(x@ == g.nodes[v as int].inputs[j as int]);
                match self.find_assignment(&node.id) {
                    None => {},
                    Some(av) => {
                        let wv_id = self.assignments[av].worker_id.clone();
                        match self.find_assignment(x) {
                            None => {},
                            Some(ai) => {
                                if !self.assignments[ai].worker_id.eq(&wv_id) {
                                    let wu = self.assignments[ai].worker_id.clone();
                                    let ghost st_a = self.state();
                                    match self.find_partition(&wv_id) {
                                        Some(pv) => {
                                            let mut p = self.take_partition(pv);
                                            let ghost taken = self.state().partitions;
                                            p.add_external_input(x.clone(), wu.clone());
                                            let ghost pp = p@;
                                            self.partitions.set(pv, p);
                                            proof { assert(self.state().partitions =~= taken.update(pv as int, pp)); lemma_replace_part(st_a.partitions, taken, self.state().partitions, pv as int, pp); }
                                        },
                                        None => {},
                                    }
                                    let ghost st_b = self.state();
                                    match self.find_partition(&wu) {
                                        Some(pu) => {
                                            let mut p = self.take_partition(pu);
                                            let ghost taken = self.state().partitions;
                                            p.mark_external_output(x.clone());
                                            let ghost pp = p@;
                                            self.partitions.set(pu, p);
                                            proof { assert(self.state().partitions =~= taken.update(pu as int, pp)); lemma_replace_part(st_b.partitions, taken, self.state().partitions, pu as int, pp); }
                                        },
                                        None => {},
                                    }
                                }
                            },
                        }
                    },
                }
                j += 1;
            }
            v += 1;
        }
        let ghost s3 = self.state();
        let mut i: usize = 0;
        while i < self.partitions.len()
            invariant i <= self.partitions@.len(), g == graph@, self.partitions@.len() == s3.partitions.len(),
                self.state().assignments == s3.assignments,
                forall|q: int| 0 <= q < i ==> #[trigger] self.state().partitions[q]
                    == (PartSpec { subgraph: Some(part_subgraph(g, s3.partitions[q])), ..s3.partitions[q] }),
                forall|q: int| i <= q < s3.partitions.len() ==> #[trigger] self.state().partitions[q] == s3.partitions[q],
                self.timeout_spec() == old(self).timeout_spec(),
            decreases self.partitions@.len() - i,
        {
            let ghost before = self.state().partitions;
            let mut p = self.take_partition(i);
            let ghost taken = self.state().partitions;
            let sg = build_subgraph(graph, &p);
            p.subgraph = Some(sg);
            let ghost pp = p@;
            self.partitions.set(i, p);
            proof { assert(self.state().partitions =~= taken.update(i as int, pp)); lemma_replace_part(before, taken, self.state().partitions, i as int, pp); }
            i += 1;
        }
        assert(self.state().partitions =~= s3.partitions.map_values(|p: PartSpec| PartSpec { subgraph: Some(part_subgraph(g, p)), ..p }));
        Ok(())
    }

    /// Get the partition of a worker.
    pub fn get_partition(&self, worker_id: &str) -> (r: Option<&GraphPartition>)
        ensures
            part_pos(self.state().partitions, worker_id@) >= 0 ==> (r matches Some(p) && p@ == self.state().partitions[part_pos(self.state().partitions, worker_id@)]),
            part_pos(self.state().partitions, worker_id@) < 0 ==> r is None,
    {
        let w = String::from_str(worker_id);
        match self.find_partition(&w) {
            Some(i) => Some(&self.partitions[i]),
            None => None,
        }
    }

    /// Get all partitions.
    pub fn get_partitions(&self) -> (r: &Vec<GraphPartition>)
        ensures r@.map_values(|p: GraphPartition| p@) == self.state().partitions,
    {
        &self.partitions
    }

    /// Get the assignment of a node.
    pub fn get_assignment(&self, node_id: &str) -> (r: Option<&NodeAssignment>)
        ensures
            assign_pos(self.state().assignments, node_id@) >= 0 ==> (r matches Some(a) && a@ == self.state().assignments[assign_pos(self.state().assignments, node_id@)]),
            assign_pos(self.state().assignments, node_id@) < 0 ==> r is None,
    {
        let id = String::from_str(node_id);
        match self.find_assignment(&id) {
            Some(i) => Some(&self.assignments[i]),
            None => None,
        }
    }

    /// Execute a distributed graph: not available without a network layer;
    /// always `ExecutionError`.
    pub fn execute_distributed<T>(&self, graph: &ComputationGraph) -> (r: Result<Vec<(String, Vec<T>)>, GraphError>)
        ensures r matches Err(e) && e is ExecutionError,
    {
        Err(GraphError::ExecutionError(String::from_str("Distributed execution requires ipfrs-network integration")))
    }

    /// Estimate communication cost for a partition: its external inputs and
    /// outputs; 0 for an unknown worker.
    pub fn estimate_communication_cost(&self, worker_id: &str) -> (r: usize)
        requires ({
            let i = part_pos(self.state().partitions, worker_id@);
            i >= 0 ==> self.state().partitions[i].external_inputs.len() + self.state().partitions[i].external_outputs.len() <= usize::MAX
        }),
        ensures ({
            let i = part_pos(self.state().partitions, worker_id@);
            r == if i >= 0 {
                self.state().partitions[i].external_inputs.len() + self.state().partitions[i].external_outputs.len()
            } else { 0 }
        }),
    {
        match self.get_partition(worker_id) {
            Some(p) => p.external_inputs.len() + p.external_outputs.len(),
            None => 0,
        }
    }

    /// Get total number of workers.
    pub fn worker_count(&self) -> (r: usize)
        ensures r == self.state().partitions.len(),
    {
        self.partitions.len()
    }

    /// Get timeout in milliseconds.
    pub fn timeout(&self) -> (r: u64)
        ensures r == self.timeout_spec(),
    {
        self.timeout_ms
    }
}

impl Default for DistributedExecutor {
    fn default() -> (r: Self)
        ensures r.state().assignments.len() == 0, r.state().partitions.len() == 0, r.timeout_spec() == 30000,
    {
        Self::new()
    }
}

} // verus!
