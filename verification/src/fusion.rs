//! Operator fusion: a node and the single-consumer producer it reads are
//! replaced by one fused node.
use vstd::prelude::*;
use crate::graph::{
    clone_shape, clone_strings, contains_string, find_node, insert_node, insert_node_vec, lemma_index_of_id_some,
    lemma_select_unique, node_ids, nodes_view, pairs_view, ref_count, select, strs, unique_ids, occurrences,
    index_of_id, cse_run, dedup, has_cycle, in_closure, is_topo_order, ComputationGraph, GraphNode, GraphOptimizer,
    GraphSpec, NodeSpec,
};
use crate::graph_op::{copy_vec, GraphError, GraphErrorKind, OpSpec, TensorOp};

verus! {

/// The id of the node that fuses node `id` with its producer.
pub open spec fn fused_id(id: Seq<char>) -> Seq<char> {
    id + "_fused"@
}

/// Exactly one input, over all nodes, names `x`.
pub open spec fn consumed_once(nodes: Seq<NodeSpec>, x: Seq<char>) -> bool {
    ref_count(nodes, x, nodes.len()) == 1
}

/// The fusions decided so far: the fused nodes, the ids of the nodes they
/// replace, and how many fusions there were.
pub struct FusePlan {
    pub new_nodes: Seq<NodeSpec>,
    pub removed: Seq<Seq<char>>,
    pub count: nat,
}

pub open spec fn empty_plan() -> FusePlan {
    FusePlan { new_nodes: Seq::empty(), removed: Seq::empty(), count: 0 }
}

/// Fuse node `v` with the node `x` it consumes into a node computing `op` on `inputs`.
pub open spec fn plan_fuse(st: FusePlan, nodes: Seq<NodeSpec>, v: int, x: Seq<char>, op: OpSpec, inputs: Seq<Seq<char>>) -> FusePlan {
    FusePlan {
        new_nodes: insert_node(st.new_nodes, NodeSpec {
            id: fused_id(nodes[v].id),
            op: op,
            inputs: inputs,
            output_shape: nodes[v].output_shape,
            metadata: Seq::empty(),
        }),
        removed: st.removed.push(nodes[v].id).push(x),
        count: st.count + 1,
    }
}

/// Node `v` consumes a node of the given kind that nothing else consumes, and
/// has not been fused yet.
pub open spec fn fusable(st: FusePlan, nodes: Seq<NodeSpec>, v: int, x: Seq<char>, producer: spec_fn(OpSpec) -> bool) -> bool {
    let i = index_of_id(nodes, x);
    &&& i >= 0
    &&& producer(nodes[i].op)
    &&& consumed_once(nodes, x)
    &&& !st.removed.contains(nodes[v].id)
}

/// MatMul + Add -> FusedLinear, for input `j` of node `v`.
pub open spec fn linear_step(nodes: Seq<NodeSpec>, st: FusePlan, v: int, j: int) -> FusePlan {
    let n = nodes[v];
    if n.op is Add && n.inputs.len() == 2 {
        let x = n.inputs[j];
        if fusable(st, nodes, v, x, |o: OpSpec| o is MatMul) {
            let m = nodes[index_of_id(nodes, x)];
            let other = if n.inputs[0] != x { n.inputs[0] } else { n.inputs[1] };
            plan_fuse(st, nodes, v, x, OpSpec::FusedLinear, seq![m.inputs[0], m.inputs[1], other])
        } else {
            st
        }
    } else {
        st
    }
}

/// Building the fused node of `linear_step` does not index a MatMul node's
/// inputs out of range.
pub open spec fn linear_step_ok(nodes: Seq<NodeSpec>, st: FusePlan, v: int, j: int) -> bool {
    let n = nodes[v];
    n.op is Add && n.inputs.len() == 2 && fusable(st, nodes, v, n.inputs[j], |o: OpSpec| o is MatMul)
        ==> nodes[index_of_id(nodes, n.inputs[j])].inputs.len() >= 2
}

/// The MatMul + Add fusions over the first `t` (node, input) pairs.
pub open spec fn linear_run(nodes: Seq<NodeSpec>, t: nat) -> FusePlan
    decreases t,
{
    if t == 0 { empty_plan() } else {
        let k = (t - 1) as int;
        linear_step(nodes, linear_run(nodes, (t - 1) as nat), k / 2, k % 2)
    }
}

/// ReLU after an Add that nothing else consumes -> FusedAddReLU.
pub open spec fn add_relu_step(nodes: Seq<NodeSpec>, st: FusePlan, v: int) -> FusePlan {
    let n = nodes[v];
    let x = n.inputs[0];
    let i = index_of_id(nodes, x);
    if n.op is ReLU && n.inputs.len() == 1 && fusable(st, nodes, v, x, |o: OpSpec| o is Add) {
        plan_fuse(st, nodes, v, x, OpSpec::FusedAddReLU, nodes[i].inputs)
    } else {
        st
    }
}

/// ReLU after a BatchNorm that nothing else consumes -> FusedBatchNormReLU.
pub open spec fn bn_relu_step(nodes: Seq<NodeSpec>, st: FusePlan, v: int) -> FusePlan {
    let n = nodes[v];
    let x = n.inputs[0];
    let i = index_of_id(nodes, x);
    if n.op is ReLU && n.inputs.len() == 1 && fusable(st, nodes, v, x, |o: OpSpec| o is BatchNorm) {
        match nodes[i].op {
            OpSpec::BatchNorm { eps, momentum } =>
                plan_fuse(st, nodes, v, x, OpSpec::FusedBatchNormReLU { eps, momentum }, nodes[i].inputs),
            _ => st,
        }
    } else {
        st
    }
}

/// Dropout after a LayerNorm that nothing else consumes -> FusedLayerNormDropout.
pub open spec fn ln_dropout_step(nodes: Seq<NodeSpec>, st: FusePlan, v: int) -> FusePlan {
    let n = nodes[v];
    let x = n.inputs[0];
    let i = index_of_id(nodes, x);
    if n.op is Dropout && n.inputs.len() == 1 && fusable(st, nodes, v, x, |o: OpSpec| o is LayerNorm) {
        match (n.op, nodes[i].op) {
            (OpSpec::Dropout { p }, OpSpec::LayerNorm { normalized_shape, eps }) =>
                plan_fuse(st, nodes, v, x,
                    OpSpec::FusedLayerNormDropout { normalized_shape, eps, dropout_p: p }, nodes[i].inputs),
            _ => st,
        }
    } else {
        st
    }
}

/// The single-input pattern `p` (1: Add+ReLU, 2: BatchNorm+ReLU, 3: LayerNorm+Dropout) at node `v`.
pub open spec fn unary_step(nodes: Seq<NodeSpec>, st: FusePlan, p: int, v: int) -> FusePlan {
    if p == 1 { add_relu_step(nodes, st, v) }
    else if p == 2 { bn_relu_step(nodes, st, v) }
    else { ln_dropout_step(nodes, st, v) }
}

/// Pattern `p` over the first `k` nodes.
pub open spec fn unary_run(nodes: Seq<NodeSpec>, start: FusePlan, p: int, k: nat) -> FusePlan
    decreases k,
{
    if k == 0 { start } else { unary_step(nodes, unary_run(nodes, start, p, (k - 1) as nat), p, k - 1) }
}

/// All fusions of the graph's nodes.
pub open spec fn fusion_plan(nodes: Seq<NodeSpec>) -> FusePlan {
    let p1 = linear_run(nodes, 2 * nodes.len());
    let p2 = unary_run(nodes, p1, 1, nodes.len());
    let p3 = unary_run(nodes, p2, 2, nodes.len());
    unary_run(nodes, p3, 3, nodes.len())
}

/// Fusion does not index a MatMul node's inputs out of range.
pub open spec fn fusion_defined(nodes: Seq<NodeSpec>) -> bool {
    forall|t: nat| t < 2 * nodes.len() ==>
        linear_step_ok(nodes, #[trigger] linear_run(nodes, t), t as int / 2, t as int % 2)
}

/// `nodes` with each node of `extra` inserted in turn.
pub open spec fn insert_all(nodes: Seq<NodeSpec>, extra: Seq<NodeSpec>) -> Seq<NodeSpec>
    decreases extra.len(),
{
    if extra.len() == 0 { nodes } else { insert_node(insert_all(nodes, extra.drop_last()), extra.last()) }
}

/// An input naming a removed node is redirected to that node's fused node, if present.
pub open spec fn redirect(nodes: Seq<NodeSpec>, removed: Seq<Seq<char>>, x: Seq<char>) -> Seq<char> {
    if removed.contains(x) && node_ids(nodes).contains(fused_id(x)) { fused_id(x) } else { x }
}

/// The graph's nodes after applying a fusion plan.
pub open spec fn apply_plan(nodes: Seq<NodeSpec>, plan: FusePlan) -> Seq<NodeSpec> {
    let merged = insert_all(select(nodes, |n: NodeSpec| !plan.removed.contains(n.id)), plan.new_nodes);
    merged.map_values(|n: NodeSpec| NodeSpec { inputs: n.inputs.map_values(|x: Seq<char>| redirect(merged, plan.removed, x)), ..n })
}


/// `n` if it is below 2, else 2.
pub open spec fn capped(n: nat) -> nat {
    if n < 2 { n } else { 2 }
}

/// Whether exactly one input, over all nodes, names `x`.
fn consumed_once_exec(nodes: &Vec<GraphNode>, x: &String) -> (r: bool)
    ensures r == consumed_once(nodes_view(nodes@), x@),
{
    let ghost nv = nodes_view(nodes@);
    let mut count: usize = 0;
    let mut u: usize = 0;
    while u < nodes.len()
        invariant u <= nodes.len(), nv == nodes_view(nodes@), count == capped(ref_count(nv, x@, u as nat)),
        decreases nodes.len() - u,
    {
        let ins = &nodes[u].inputs;
        assert(nv[u as int].inputs == strs(ins@));
        let mut j: usize = 0;
        while j < ins.len()
            invariant
                j <= ins.len(), u < nodes.len(), nv == nodes_view(nodes@), nv[u as int].inputs == strs(ins@),
                count == capped(ref_count(nv, x@, u as nat) + occurrences(nv[u as int].inputs.subrange(0, j as int), x@)),
            decreases ins.len() - j,
        {
            assert(nv[u as int].inputs.subrange(0, j + 1).drop_last() =~= nv[u as int].inputs.subrange(0, j as int));
            if ins[j].eq(x) && count < 2 {
                count = count + 1;
            }
            j += 1;
        }
        assert(nv[u as int].inputs.subrange(0, ins.len() as int) =~= nv[u as int].inputs);
        u += 1;
    }
    count == 1
}

/// Whether some node has the id `id`.
fn has_node_id(nodes: &Vec<GraphNode>, id: &String) -> (r: bool)
    ensures r == node_ids(nodes_view(nodes@)).contains(id@),
{
    match find_node(nodes, id) {
        Some(i) => {
            assert(node_ids(nodes_view(nodes@))[i as int] == id@);
            true
        },
        None => {
            proof {
                if node_ids(nodes_view(nodes@)).contains(id@) {
                    let w = choose|w: int| 0 <= w < node_ids(nodes_view(nodes@)).len() && node_ids(nodes_view(nodes@))[w] == id@;
                    assert(nodes@[w].id@ == id@);
                }
            }
            false
        },
    }
}

/// The fusions decided so far.
struct FuseState {
    new_nodes: Vec<GraphNode>,
    removed: Vec<String>,
}

impl FuseState {
    spec fn plan(&self) -> FusePlan {
        FusePlan { new_nodes: nodes_view(self.new_nodes@), removed: strs(self.removed@), count: self.removed@.len() / 2 }
    }
}

/// Records the fusion of node `v` with the node `x` it consumes.
fn plan_fuse_exec(nodes: &Vec<GraphNode>, st: &mut FuseState, v: usize, x: &String, op: TensorOp, inputs: Vec<String>)
    requires v < nodes@.len(),
    ensures final(st).plan() == plan_fuse(old(st).plan(), nodes_view(nodes@), v as int, x@, op@, strs(inputs@)),
{
    let mut id = nodes[v].id.clone();
    id.append("_fused");
    let node = GraphNode { id, op, inputs, output_shape: clone_shape(&nodes[v].output_shape), metadata: Vec::new() };
    assert(pairs_view(node.metadata@) =~= Seq::<(Seq<char>, Seq<char>)>::empty());
    insert_node_vec(&mut st.new_nodes, node);
    let ghost before = strs(st.removed@);
    st.removed.push(nodes[v].id.clone());
    st.removed.push(x.clone());
    assert(strs(st.removed@) =~= before.push(nodes@[v as int].id@).push(x@));
}

/// MatMul + Add -> FusedLinear, for input `j` of node `v`.
fn linear_step_exec(nodes: &Vec<GraphNode>, st: &mut FuseState, v: usize, j: usize)
    requires v < nodes@.len(), j < 2, linear_step_ok(nodes_view(nodes@), old(st).plan(), v as int, j as int),
    ensures final(st).plan() == linear_step(nodes_view(nodes@), old(st).plan(), v as int, j as int),
{
    let ghost nv = nodes_view(nodes@);
    let n = &nodes[v];
    assert(nv[v as int] == n@);
    if !(matches!(n.op, TensorOp::Add) && n.inputs.len() == 2) {
        return;
    }
    let x = &n.inputs[j];
    assert(x@ == nv[v as int].inputs[j as int]);
    proof { lemma_index_of_id_some(nv, x@); }
    let i = match find_node(nodes, x) {
        Some(i) => i,
        None => { return; },
    };
    assert(nv[i as int] == nodes@[i as int]@);
    if !matches!(nodes[i].op, TensorOp::MatMul) {
        return;
    }
    if !consumed_once_exec(nodes, x) {
        return;
    }
    if contains_string(&st.removed, &n.id) {
        return;
    }
    let m = &nodes[i];
    let other = if !n.inputs[0].eq(x) { n.inputs[0].clone() } else { n.inputs[1].clone() };
    let inputs = vec![m.inputs[0].clone(), m.inputs[1].clone(), other];
    assert(strs(inputs@) =~= seq![nv[i as int].inputs[0], nv[i as int].inputs[1],
        if nv[v as int].inputs[0] != x@ { nv[v as int].inputs[0] } else { nv[v as int].inputs[1] }]);
    plan_fuse_exec(nodes, st, v, x, TensorOp::FusedLinear, inputs);
}

/// The single-input pattern `p` at node `v`.
fn unary_step_exec(nodes: &Vec<GraphNode>, st: &mut FuseState, p: u8, v: usize)
    requires v < nodes@.len(), 1 <= p <= 3,
    ensures final(st).plan() == unary_step(nodes_view(nodes@), old(st).plan(), p as int, v as int),
{
    let ghost nv = nodes_view(nodes@);
    let n = &nodes[v];
    assert(nv[v as int] == n@);
    if n.inputs.len() != 1 {
        return;
    }
    let consumer_ok = if p == 3 { matches!(n.op, TensorOp::Dropout { .. }) } else { matches!(n.op, TensorOp::ReLU) };
    if !consumer_ok {
        return;
    }
    let x = &n.inputs[0];
    assert(x@ == nv[v as int].inputs[0]);
    proof { lemma_index_of_id_some(nv, x@); }
    let i = match find_node(nodes, x) {
        Some(i) => i,
        None => { return; },
    };
    assert(nv[i as int] == nodes@[i as int]@);
    let prod = &nodes[i].op;
    let producer_ok = if p == 1 {
        matches!(*prod, TensorOp::Add)
    } else if p == 2 {
        matches!(*prod, TensorOp::BatchNorm { .. })
    } else {
        matches!(*prod, TensorOp::LayerNorm { .. })
    };
    if !producer_ok {
        return;
    }
    if !consumed_once_exec(nodes, x) {
        return;
    }
    if contains_string(&st.removed, &n.id) {
        return;
    }
    let op = match (&n.op, prod) {
        (_, TensorOp::BatchNorm { eps, momentum }) => TensorOp::FusedBatchNormReLU { eps: *eps, momentum: *momentum },
        (TensorOp::Dropout { p: dp }, TensorOp::LayerNorm { normalized_shape, eps }) =>
            TensorOp::FusedLayerNormDropout { normalized_shape: copy_vec(normalized_shape), eps: *eps, dropout_p: *dp },
        _ => TensorOp::FusedAddReLU,
    };
    let inputs = clone_strings(&nodes[i].inputs);
    plan_fuse_exec(nodes, st, v, x, op, inputs);
}

/// MatMul + Add fusions over every node and both of its inputs.
fn linear_pass(nodes: &Vec<GraphNode>, st: &mut FuseState)
    requires old(st).plan() == empty_plan(), fusion_defined(nodes_view(nodes@)),
    ensures final(st).plan() == linear_run(nodes_view(nodes@), 2 * nodes@.len()),
{
    let ghost nv = nodes_view(nodes@);
    let mut v: usize = 0;
    while v < nodes.len()
        invariant v <= nodes.len(), nv == nodes_view(nodes@), fusion_defined(nv), st.plan() == linear_run(nv, 2 * v as nat),
        decreases nodes.len() - v,
    {
        let mut j: usize = 0;
        while j < 2
            invariant j <= 2, v < nodes.len(), nv == nodes_view(nodes@), fusion_defined(nv),
                st.plan() == linear_run(nv, (2 * v + j) as nat),
            decreases 2 - j,
        {
            let ghost t: nat = (2 * v + j) as nat;
            assert(linear_step_ok(nv, linear_run(nv, t), t as int / 2, t as int % 2));
            linear_step_exec(nodes, st, v, j);
            assert(linear_run(nv, t + 1) == linear_step(nv, linear_run(nv, t), v as int, j as int));
            j += 1;
        }
        v += 1;
    }
}

/// The single-input pattern `p` over every node.
fn unary_pass(nodes: &Vec<GraphNode>, st: &mut FuseState, p: u8)
    requires 1 <= p <= 3,
    ensures final(st).plan() == unary_run(nodes_view(nodes@), old(st).plan(), p as int, nodes@.len()),
{
    let ghost nv = nodes_view(nodes@);
    let ghost start = st.plan();
    let mut v: usize = 0;
    while v < nodes.len()
        invariant v <= nodes.len(), nv == nodes_view(nodes@), 1 <= p <= 3,
            st.plan() == unary_run(nv, start, p as int, v as nat),
        decreases nodes.len() - v,
    {
        unary_step_exec(nodes, st, p, v);
        v += 1;
    }
}

/// The nodes whose ids are not in `removed`, in order.
fn retain_nodes(nodes: &Vec<GraphNode>, removed: &Vec<String>) -> (r: Vec<GraphNode>)
    ensures nodes_view(r@) == select(nodes_view(nodes@), |n: NodeSpec| !strs(removed@).contains(n.id)),
{
    let ghost nv = nodes_view(nodes@);
    let ghost keep = |n: NodeSpec| !strs(removed@).contains(n.id);
    let mut r: Vec<GraphNode> = Vec::new();
    let mut u: usize = 0;
    assert(nodes_view(r@) =~= select(nv.subrange(0, 0), keep));
    while u < nodes.len()
        invariant u <= nodes.len(), nv == nodes_view(nodes@),
            keep == (|n: NodeSpec| !strs(removed@).contains(n.id)),
            nodes_view(r@) == select(nv.subrange(0, u as int), keep),
        decreases nodes.len() - u,
    {
        assert(nv.subrange(0, u + 1).drop_last() =~= nv.subrange(0, u as int));
        assert(nv.subrange(0, u + 1).last() == nodes@[u as int]@);
        if !contains_string(removed, &nodes[u].id) {
            let ghost before = nodes_view(r@);
            r.push(nodes[u].clone());
            assert(nodes_view(r@) =~= before.push(nodes@[u as int]@));
        }
        u += 1;
    }
    assert(nv.subrange(0, nodes.len() as int) =~= nv);
    r
}

/// Inserts each node of `extra` in turn.
fn insert_all_exec(nodes: &mut Vec<GraphNode>, extra: &Vec<GraphNode>)
    ensures
        nodes_view(final(nodes)@) == insert_all(nodes_view(old(nodes)@), nodes_view(extra@)),
        unique_ids(nodes_view(old(nodes)@)) ==> unique_ids(nodes_view(final(nodes)@)),
{
    let ghost start = nodes_view(nodes@);
    let ghost ev = nodes_view(extra@);
    let mut k: usize = 0;
    assert(ev.subrange(0, 0) =~= Seq::<NodeSpec>::empty());
    while k < extra.len()
        invariant k <= extra.len(), ev == nodes_view(extra@),
            nodes_view(nodes@) == insert_all(start, ev.subrange(0, k as int)),
            unique_ids(start) ==> unique_ids(nodes_view(nodes@)),
        decreases extra.len() - k,
    {
        assert(ev.subrange(0, k + 1).drop_last() =~= ev.subrange(0, k as int));
        assert(ev.subrange(0, k + 1).last() == extra@[k as int]@);
        insert_node_vec(nodes, extra[k].clone());
        k += 1;
    }
    assert(ev.subrange(0, extra.len() as int) =~= ev);
}

/// Redirects each input naming a removed node to that node's fused node, where present.
fn redirect_inputs(nodes: &mut Vec<GraphNode>, removed: &Vec<String>)
    ensures
        nodes_view(final(nodes)@) == nodes_view(old(nodes)@).map_values(|n: NodeSpec| NodeSpec {
            inputs: n.inputs.map_values(|x: Seq<char>| redirect(nodes_view(old(nodes)@), strs(removed@), x)), ..n }),
{
    let ghost start = nodes_view(nodes@);
    let ghost target = start.map_values(|n: NodeSpec| NodeSpec {
        inputs: n.inputs.map_values(|x: Seq<char>| redirect(start, strs(removed@), x)), ..n });
    let mut u: usize = 0;
    while u < nodes.len()
        invariant
            u <= nodes.len(), nodes@.len() == start.len(),
            node_ids(nodes_view(nodes@)) == node_ids(start),
            target == start.map_values(|n: NodeSpec| NodeSpec {
                inputs: n.inputs.map_values(|x: Seq<char>| redirect(start, strs(removed@), x)), ..n }),
            forall|w: int| 0 <= w < u ==> nodes_view(nodes@)[w] == target[w],
            forall|w: int| u <= w < start.len() ==> nodes_view(nodes@)[w] == start[w],
        decreases nodes.len() - u,
    {
        let mut nd = nodes[u].clone();
        let ghost orig = nd@;
        assert(orig == start[u as int]);
        let mut j: usize = 0;
        while j < nd.inputs.len()
            invariant
                j <= nd.inputs.len(), nd.inputs@.len() == orig.inputs.len(), u < nodes@.len(),
                nd@.id == orig.id, nd@.op == orig.op, nd@.output_shape == orig.output_shape, nd@.metadata == orig.metadata,
                node_ids(nodes_view(nodes@)) == node_ids(start),
                forall|a: int| 0 <= a < j ==> nd@.inputs[a] == redirect(start, strs(removed@), orig.inputs[a]),
                forall|a: int| j <= a < nd.inputs@.len() ==> nd@.inputs[a] == orig.inputs[a],
            decreases nd.inputs.len() - j,
        {
            if contains_string(removed, &nd.inputs[j]) {
                let mut fid = nd.inputs[j].clone();
                fid.append("_fused");
                if has_node_id(nodes, &fid) {
                    let ghost before = nd@;
                    nd.inputs.set(j, fid);
                    assert(strs(nd.inputs@) =~= before.inputs.update(j as int, fused_id(orig.inputs[j as int])));
                }
            }
            j += 1;
        }
        assert(nd@.inputs =~= orig.inputs.map_values(|x: Seq<char>| redirect(start, strs(removed@), x)));
        let ghost prev = nodes_view(nodes@);
        nodes.set(u, nd);
        assert(nodes_view(nodes@) =~= prev.update(u as int, target[u as int]));
        assert(node_ids(nodes_view(nodes@)) =~= node_ids(prev));
        u += 1;
    }
    assert(nodes_view(nodes@) =~= target);
}

impl GraphOptimizer {
    /// Fuse consecutive operations: MatMul + Add, Add + ReLU, BatchNorm + ReLU
    /// and LayerNorm + Dropout, where the producer has a single consumer.
    /// The fused node replaces both; inputs naming a replaced node are
    /// redirected to its fused node. Returns the number of fusions.
    pub fn fusion(graph: &mut ComputationGraph) -> (r: Result<usize, GraphError>)
        requires fusion_defined(old(graph)@.nodes),
        ensures
            r matches Ok(c) && c == fusion_plan(old(graph)@.nodes).count,
            final(graph)@ == (GraphSpec { nodes: apply_plan(old(graph)@.nodes, fusion_plan(old(graph)@.nodes)), ..old(graph)@ }),
            old(graph).wf() ==> final(graph).wf(),
    {
        let ghost nv = graph@.nodes;
        let mut st = FuseState { new_nodes: Vec::new(), removed: Vec::new() };
        assert(st.plan().new_nodes =~= Seq::<NodeSpec>::empty());
        assert(st.plan().removed =~= Seq::<Seq<char>>::empty());
        linear_pass(&graph.nodes, &mut st);
        unary_pass(&graph.nodes, &mut st, 1);
        unary_pass(&graph.nodes, &mut st, 2);
        unary_pass(&graph.nodes, &mut st, 3);
        let ghost plan = st.plan();
        assert(plan == fusion_plan(nv));
        let mut merged = retain_nodes(&graph.nodes, &st.removed);
        proof {
            if unique_ids(nv) {
                lemma_select_unique(nv, |n: NodeSpec| !plan.removed.contains(n.id));
            }
        }
        insert_all_exec(&mut merged, &st.new_nodes);
        let ghost m = nodes_view(merged@);
        redirect_inputs(&mut merged, &st.removed);
        proof {
            if unique_ids(nv) {
                assert(unique_ids(nodes_view(merged@))) by {
                    assert forall|a: int, b: int| 0 <= a < b < nodes_view(merged@).len()
                        implies nodes_view(merged@)[a].id != nodes_view(merged@)[b].id by {
                        assert(nodes_view(merged@)[a].id == m[a].id);
                        assert(nodes_view(merged@)[b].id == m[b].id);
                    }
                }
            }
        }
        graph.nodes = merged;
        Ok(st.removed.len() / 2)
    }
}


/// The graph without the nodes and inputs its outputs do not depend on, as
/// dead-node removal leaves it.
pub open spec fn dead_removed(g: GraphSpec) -> GraphSpec {
    GraphSpec {
        nodes: select(g.nodes, |n: NodeSpec| in_closure(g.nodes, g.outputs, n.id)),
        inputs: dedup(select(g.inputs, |x: Seq<char>| in_closure(g.nodes, g.outputs, x))),
        outputs: dedup(g.outputs),
        metadata: Seq::empty(),
        cid: None,
    }
}

/// The graph after one optimization round under topological order `ord`:
/// common-subexpression elimination, fusion, dead-node removal.
pub open spec fn after_round(g: GraphSpec, ord: Seq<int>) -> GraphSpec {
    let c = cse_run(g.nodes, ord, ord.len()).0;
    dead_removed(GraphSpec { nodes: apply_plan(c, fusion_plan(c)), ..g })
}

/// `h` is `g` after one optimization round; `g` has no cycle.
pub open spec fn round(g: GraphSpec, h: GraphSpec) -> bool {
    &&& !has_cycle(g.nodes)
    &&& exists|ord: Seq<int>| #[trigger] is_topo_order(g.nodes, ord) && h == after_round(g, ord)
}

/// A round on `g` neither overflows its count nor indexes out of range.
pub open spec fn round_defined(g: GraphSpec) -> bool {
    forall|ord: Seq<int>| #[trigger] is_topo_order(g.nodes, ord) ==>
        cse_run(g.nodes, ord, ord.len()).2 <= usize::MAX && fusion_defined(cse_run(g.nodes, ord, ord.len()).0)
}

/// Graph `i + 1` of `t` is graph `i` after a round.
pub open spec fn trace_step(t: Seq<GraphSpec>, i: int) -> bool {
    round(t[i], t[i + 1])
}

/// `t` lists the graphs of the rounds run from `g`, each round but possibly
/// the last having changed the node count.
pub open spec fn round_trace(g: GraphSpec, t: Seq<GraphSpec>) -> bool {
    &&& 1 <= t.len() && t[0] == g
    &&& forall|i: int| 0 <= i < t.len() - 1 ==> #[trigger] trace_step(t, i)
    &&& forall|i: int| 1 <= i < t.len() - 1 ==> #[trigger] t[i].nodes.len() != t[i - 1].nodes.len()
}

/// A trace after which the rounds go on: its last round, if any, changed the node count.
pub open spec fn running_trace(g: GraphSpec, t: Seq<GraphSpec>) -> bool {
    &&& round_trace(g, t)
    &&& t.len() >= 2 ==> t.last().nodes.len() != t[t.len() - 2].nodes.len()
}

proof fn lemma_trace_push(g: GraphSpec, t: Seq<GraphSpec>, h: GraphSpec)
    requires running_trace(g, t), round(t.last(), h),
    ensures round_trace(g, t.push(h)),
{
    let t2 = t.push(h);
    assert forall|i: int| 0 <= i < t2.len() - 1 implies #[trigger] trace_step(t2, i) by {
        if i < t.len() - 1 {
            assert(trace_step(t, i));
        }
    }
    assert forall|i: int| 1 <= i < t2.len() - 1 implies #[trigger] t2[i].nodes.len() != t2[i - 1].nodes.len() by {
        if i < t.len() - 1 {
            assert(t[i].nodes.len() != t[i - 1].nodes.len());
        }
    }
}

impl GraphOptimizer {
    /// Apply all optimizations: rounds of constant folding, common-subexpression
    /// elimination, fusion and dead-node removal, at most ten, until a round
    /// leaves the node count unchanged. `CircularDependency` when a round
    /// starts on a graph with a cycle.
    pub fn optimize_all(graph: &mut ComputationGraph) -> (r: Result<(), GraphError>)
        requires
            forall|t: Seq<GraphSpec>| #[trigger] running_trace(old(graph)@, t) && t.len() <= 10 ==> round_defined(t.last()),
        ensures
            old(graph).wf() ==> final(graph).wf(),
            match r {
                Ok(()) => exists|t: Seq<GraphSpec>| #[trigger] round_trace(old(graph)@, t) && t.last() == final(graph)@
                    && 2 <= t.len() <= 11 && (t.len() == 11 || t.last().nodes.len() == t[t.len() - 2].nodes.len()),
                Err(e) => e.kind() == GraphErrorKind::CircularDependency && has_cycle(final(graph)@.nodes)
                    && exists|t: Seq<GraphSpec>| #[trigger] running_trace(old(graph)@, t) && t.len() <= 10 && t.last() == final(graph)@,
            },
    {
        let ghost g0 = graph@;
        let ghost mut t: Seq<GraphSpec> = seq![graph@];
        let mut prev_count = graph.node_count();
        let mut rounds: usize = 0;
        while rounds < 10
            invariant
                rounds <= 10, t.len() == rounds + 1, running_trace(g0, t), t.last() == graph@,
                prev_count == graph@.nodes.len(), g0 == old(graph)@,
                forall|t2: Seq<GraphSpec>| #[trigger] running_trace(g0, t2) && t2.len() <= 10 ==> round_defined(t2.last()),
                old(graph).wf() ==> graph.wf(),
            decreases 10 - rounds,
        {
            let ghost g = graph@;
            assert(round_defined(g));
            match Self::constant_folding(graph) {
                Err(e) => { return Err(e); },
                Ok(_) => {},
            }
            graph.optimize_cse();
            let ghost ord = choose|ord: Seq<int>| is_topo_order(g.nodes, ord)
                && cse_run(g.nodes, ord, ord.len()).0 == graph@.nodes
                && cse_run(g.nodes, ord, ord.len()).2 == 0 + cse_run(g.nodes, ord, ord.len()).2;
            assert(is_topo_order(g.nodes, ord));
            let _ = Self::fusion(graph);
            let _ = Self::remove_dead_nodes(graph);
            assert(graph@ == after_round(g, ord));
            assert(round(g, graph@));
            proof { lemma_trace_push(g0, t, graph@); }
            proof { t = t.push(graph@); }
            let curr_count = graph.node_count();
            if curr_count == prev_count {
                return Ok(());
            }
            prev_count = curr_count;
            rounds += 1;
        }
        Ok(())
    }
}

}
