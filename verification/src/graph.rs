//! Computation graphs: nodes, topological order, subgraphs, shape propagation.
use vstd::prelude::*;
use crate::cid::Cid;
use crate::graph_op::{copy_vec, infer_defined, infer_spec, msg, op_num_inputs, shapes_view, GraphError, GraphErrorKind, OpSpec, TensorOp};

verus! {

/// The views of a list of strings.
pub open spec fn strs(v: Seq<String>) -> Seq<Seq<char>> {
    v.map_values(|s: String| s@)
}

/// A list with each element kept at its first occurrence only.
pub open spec fn dedup(s: Seq<Seq<char>>) -> Seq<Seq<char>>
    decreases s.len(),
{
    if s.len() == 0 {
        s
    } else {
        let p = dedup(s.drop_last());
        if p.contains(s.last()) { p } else { p.push(s.last()) }
    }
}

/// Copies a list of strings.
pub fn clone_strings(v: &Vec<String>) -> (r: Vec<String>)
    ensures strs(r@) == strs(v@), r@.len() == v@.len(),
{
    let mut r: Vec<String> = Vec::new();
    let mut i: usize = 0;
    while i < v.len()
        invariant i <= v.len(), strs(r@) == strs(v@.subrange(0, i as int)), r@.len() == i,
        decreases v.len() - i,
    {
        r.push(v[i].clone());
        assert(strs(v@.subrange(0, i + 1)) =~= strs(v@.subrange(0, i as int)).push(v@[i as int]@));
        assert(strs(r@) =~= strs(v@.subrange(0, i as int)).push(v@[i as int]@));
        i += 1;
    }
    assert(v@.subrange(0, v.len() as int) =~= v@);
    r
}

/// Whether `v` holds a string equal to `s`.
pub fn contains_string(v: &Vec<String>, s: &String) -> (r: bool)
    ensures r == strs(v@).contains(s@),
{
    let mut i: usize = 0;
    while i < v.len()
        invariant i <= v.len(), forall|j: int| 0 <= j < i ==> v@[j]@ != s@,
        decreases v.len() - i,
    {
        if v[i].eq(s) {
            assert(strs(v@)[i as int] == s@);
            return true;
        }
        i += 1;
    }
    assert(!strs(v@).contains(s@)) by {
        if strs(v@).contains(s@) {
            let w = choose|w: int| 0 <= w < strs(v@).len() && strs(v@)[w] == s@;
            assert(v@[w]@ == s@);
        }
    }
    false
}

/// Appends `s` unless an equal string is already present.
pub fn push_unique(v: &mut Vec<String>, s: String)
    ensures
        strs(final(v)@) == (if strs(old(v)@).contains(s@) { strs(old(v)@) } else { strs(old(v)@).push(s@) }),
{
    if !contains_string(v, &s) {
        let ghost sv = s@;
        v.push(s);
        assert(strs(v@) =~= strs(old(v)@).push(sv));
    }
}

/// The mathematical value of a graph node.
pub struct NodeSpec {
    pub id: Seq<char>,
    pub op: OpSpec,
    pub inputs: Seq<Seq<char>>,
    pub output_shape: Option<Seq<usize>>,
    pub metadata: Seq<(Seq<char>, Seq<char>)>,
}

/// Node in the computation graph.
#[derive(Debug)]
pub struct GraphNode {
    /// Unique node ID
    pub id: String,
    /// Operation type
    pub op: TensorOp,
    /// Input node IDs
    pub inputs: Vec<String>,
    /// Output shape (if known)
    pub output_shape: Option<Vec<usize>>,
    /// Metadata, one entry per key
    pub metadata: Vec<(String, String)>,
}

pub open spec fn pairs_view(v: Seq<(String, String)>) -> Seq<(Seq<char>, Seq<char>)> {
    v.map_values(|p: (String, String)| (p.0@, p.1@))
}

pub open spec fn opt_shape(s: Option<Vec<usize>>) -> Option<Seq<usize>> {
    match s {
        Some(v) => Some(v@),
        None => None,
    }
}

impl View for GraphNode {
    type V = NodeSpec;

    open spec fn view(&self) -> NodeSpec {
        NodeSpec {
            id: self.id@,
            op: self.op@,
            inputs: strs(self.inputs@),
            output_shape: opt_shape(self.output_shape),
            metadata: pairs_view(self.metadata@),
        }
    }
}

/// Copies a list of string pairs.
pub fn clone_pairs(v: &Vec<(String, String)>) -> (r: Vec<(String, String)>)
    ensures pairs_view(r@) == pairs_view(v@),
{
    let mut r: Vec<(String, String)> = Vec::new();
    let mut i: usize = 0;
    while i < v.len()
        invariant i <= v.len(), pairs_view(r@) == pairs_view(v@.subrange(0, i as int)),
        decreases v.len() - i,
    {
        let (a, b) = &v[i];
        r.push((a.clone(), b.clone()));
        assert(pairs_view(v@.subrange(0, i + 1)) =~= pairs_view(v@.subrange(0, i as int)).push((v@[i as int].0@, v@[i as int].1@)));
        assert(pairs_view(r@) =~= pairs_view(v@.subrange(0, i as int)).push((v@[i as int].0@, v@[i as int].1@)));
        i += 1;
    }
    assert(v@.subrange(0, v.len() as int) =~= v@);
    r
}

/// Copies an optional shape.
pub fn clone_shape(s: &Option<Vec<usize>>) -> (r: Option<Vec<usize>>)
    ensures opt_shape(r) == opt_shape(*s),
{
    match s {
        Some(v) => Some(copy_vec(v)),
        None => None,
    }
}

impl Clone for GraphNode {
    fn clone(&self) -> (r: Self)
        ensures r@ == self@,
    {
        GraphNode {
            id: self.id.clone(),
            op: self.op.clone(),
            inputs: clone_strings(&self.inputs),
            output_shape: clone_shape(&self.output_shape),
            metadata: clone_pairs(&self.metadata),
        }
    }
}

/// `meta` with `key` bound to `value`, replacing an earlier binding of `key`.
pub open spec fn meta_insert(meta: Seq<(Seq<char>, Seq<char>)>, key: Seq<char>, value: Seq<char>) -> Seq<(Seq<char>, Seq<char>)> {
    if exists|i: int| 0 <= i < meta.len() && meta[i].0 == key {
        meta.update(choose|i: int| 0 <= i < meta.len() && meta[i].0 == key, (key, value))
    } else {
        meta.push((key, value))
    }
}

/// Binds `key` to `value` in a list of string pairs whose keys are distinct.
pub fn insert_pair(meta: &mut Vec<(String, String)>, key: String, value: String)
    requires forall|i: int, j: int| 0 <= i < j < old(meta)@.len() ==> old(meta)@[i].0@ != old(meta)@[j].0@,
    ensures
        pairs_view(final(meta)@) == meta_insert(pairs_view(old(meta)@), key@, value@),
        forall|i: int, j: int| 0 <= i < j < final(meta)@.len() ==> final(meta)@[i].0@ != final(meta)@[j].0@,
{
    let ghost pv = pairs_view(meta@);
    let mut i: usize = 0;
    while i < meta.len()
        invariant i <= meta.len(), meta@ == old(meta)@, pv == pairs_view(meta@),
            forall|j: int| 0 <= j < i ==> meta@[j].0@ != key@,
            forall|a: int, b: int| 0 <= a < b < meta@.len() ==> meta@[a].0@ != meta@[b].0@,
        decreases meta.len() - i,
    {
        if meta[i].0.eq(&key) {
            proof {
                assert(pv[i as int].0 == key@);
                let c = choose|c: int| 0 <= c < pv.len() && pv[c].0 == key@;
                assert(c == i as int) by {
                    if c != i as int {
                        assert(meta@[c].0@ == key@);
                    }
                }
            }
            let ghost kv = key@;
            let ghost vv = value@;
            meta.set(i, (key, value));
            assert(pairs_view(meta@) =~= pv.update(i as int, (kv, vv)));
            return;
        }
        i += 1;
    }
    assert(!exists|c: int| 0 <= c < pv.len() && pv[c].0 == key@) by {
        if exists|c: int| 0 <= c < pv.len() && pv[c].0 == key@ {
            let c = choose|c: int| 0 <= c < pv.len() && pv[c].0 == key@;
            assert(meta@[c].0@ == key@);
        }
    }
    let ghost kv = key@;
    let ghost vv = value@;
    meta.push((key, value));
    assert(pairs_view(meta@) =~= pv.push((kv, vv)));
}

pub open spec fn distinct_keys(meta: Seq<(String, String)>) -> bool {
    forall|i: int, j: int| 0 <= i < j < meta.len() ==> meta[i].0@ != meta[j].0@
}

impl GraphNode {
    /// Create a new graph node.
    pub fn new(id: String, op: TensorOp) -> (r: Self)
        ensures
            r@.id == id@, r@.op == op@, r@.inputs == Seq::<Seq<char>>::empty(),
            r@.output_shape is None, r@.metadata == Seq::<(Seq<char>, Seq<char>)>::empty(),
    {
        let r = GraphNode { id, op, inputs: Vec::new(), output_shape: None, metadata: Vec::new() };
        assert(r@.inputs =~= Seq::<Seq<char>>::empty());
        assert(r@.metadata =~= Seq::<(Seq<char>, Seq<char>)>::empty());
        r
    }

    /// Add an input node.
    pub fn add_input(self, input_id: String) -> (r: Self)
        ensures r@ == (NodeSpec { inputs: self@.inputs.push(input_id@), ..self@ }),
    {
        let mut s = self;
        let ghost v = input_id@;
        s.inputs.push(input_id);
        assert(strs(s.inputs@) =~= self@.inputs.push(v));
        s
    }

    /// Set the output shape.
    pub fn with_output_shape(self, shape: Vec<usize>) -> (r: Self)
        ensures r@ == (NodeSpec { output_shape: Some(shape@), ..self@ }),
    {
        let mut s = self;
        s.output_shape = Some(shape);
        s
    }

    /// Add metadata, replacing an earlier value of the same key.
    pub fn add_metadata(self, key: String, value: String) -> (r: Self)
        requires distinct_keys(self.metadata@),
        ensures
            r@ == (NodeSpec { metadata: meta_insert(self@.metadata, key@, value@), ..self@ }),
            distinct_keys(r.metadata@),
    {
        let mut s = self;
        insert_pair(&mut s.metadata, key, value);
        s
    }
}

pub open spec fn node_ids(nodes: Seq<NodeSpec>) -> Seq<Seq<char>> {
    nodes.map_values(|n: NodeSpec| n.id)
}

pub open spec fn nodes_view(nodes: Seq<GraphNode>) -> Seq<NodeSpec> {
    nodes.map_values(|n: GraphNode| n@)
}

/// Node `v` takes an input named like node `u`.
pub open spec fn depends(nodes: Seq<NodeSpec>, v: int, u: int) -> bool {
    exists|j: int| 0 <= j < nodes[v].inputs.len() && nodes[v].inputs[j] == nodes[u].id
}

/// `ord` lists every node index once, each node after every node it depends on.
pub open spec fn is_topo_order(nodes: Seq<NodeSpec>, ord: Seq<int>) -> bool {
    &&& ord.len() == nodes.len()
    &&& forall|k: int| 0 <= k < ord.len() ==> 0 <= #[trigger] ord[k] < nodes.len()
    &&& ord.no_duplicates()
    &&& forall|k1: int, k2: int|
        0 <= k1 < ord.len() && 0 <= k2 < ord.len() && depends(nodes, #[trigger] ord[k1], #[trigger] ord[k2]) ==> k2 < k1
}

/// Some nonempty set of nodes each of which depends on a node of the set.
pub open spec fn has_cycle(nodes: Seq<NodeSpec>) -> bool {
    exists|s: Set<int>| #[trigger] cycle_witness(nodes, s)
}

/// `s` is a nonempty set of nodes each of which depends on a node of `s`.
pub open spec fn cycle_witness(nodes: Seq<NodeSpec>, s: Set<int>) -> bool {
    &&& exists|v: int| s.contains(v)
    &&& forall|v: int| #[trigger] s.contains(v) ==> 0 <= v < nodes.len()
    &&& forall|v: int| #[trigger] s.contains(v) ==> exists|u: int| s.contains(u) && depends(nodes, v, u)
}

/// Index of the first node with id `id`, or -1.
pub open spec fn index_of_id(nodes: Seq<NodeSpec>, id: Seq<char>) -> int
    decreases nodes.len(),
{
    if nodes.len() == 0 {
        -1
    } else if index_of_id(nodes.drop_last(), id) >= 0 {
        index_of_id(nodes.drop_last(), id)
    } else if nodes.last().id == id {
        nodes.len() - 1
    } else {
        -1
    }
}

/// `nodes` with `n` in place of the node of the same id, or appended.
pub open spec fn insert_node(nodes: Seq<NodeSpec>, n: NodeSpec) -> Seq<NodeSpec> {
    let i = index_of_id(nodes, n.id);
    if i >= 0 { nodes.update(i, n) } else { nodes.push(n) }
}

pub open spec fn unique_ids(nodes: Seq<NodeSpec>) -> bool {
    forall|i: int, j: int| 0 <= i < j < nodes.len() ==> nodes[i].id != nodes[j].id
}

/// The mathematical value of a computation graph.
pub struct GraphSpec {
    pub nodes: Seq<NodeSpec>,
    pub inputs: Seq<Seq<char>>,
    pub outputs: Seq<Seq<char>>,
    pub metadata: Seq<(Seq<char>, Seq<char>)>,
    pub cid: Option<Seq<u8>>,
}

/// Computation graph.
#[derive(Debug)]
pub struct ComputationGraph {
    /// Graph nodes, one per id (see `wf`)
    pub nodes: Vec<GraphNode>,
    /// Input node IDs
    pub inputs: Vec<String>,
    /// Output node IDs
    pub outputs: Vec<String>,
    /// Graph metadata
    pub metadata: Vec<(String, String)>,
    /// Graph CID (if stored in IPFS)
    pub cid: Option<Cid>,
}

pub open spec fn opt_cid(c: Option<Cid>) -> Option<Seq<u8>> {
    match c {
        Some(c) => Some(c@),
        None => None,
    }
}

impl View for ComputationGraph {
    type V = GraphSpec;

    open spec fn view(&self) -> GraphSpec {
        GraphSpec {
            nodes: nodes_view(self.nodes@),
            inputs: strs(self.inputs@),
            outputs: strs(self.outputs@),
            metadata: pairs_view(self.metadata@),
            cid: opt_cid(self.cid),
        }
    }
}

/// Index of the node with the given id, if any.
pub fn find_node(nodes: &Vec<GraphNode>, id: &String) -> (r: Option<usize>)
    ensures
        match r {
            Some(i) => i < nodes@.len() && nodes@[i as int].id@ == id@
                && i == index_of_id(nodes_view(nodes@), id@),
            None => index_of_id(nodes_view(nodes@), id@) == -1
                && forall|i: int| 0 <= i < nodes@.len() ==> nodes@[i].id@ != id@,
        },
{
    let ghost nv = nodes_view(nodes@);
    let mut i: usize = 0;
    while i < nodes.len()
        invariant i <= nodes.len(), nv == nodes_view(nodes@),
            forall|j: int| 0 <= j < i ==> nodes@[j].id@ != id@,
        decreases nodes.len() - i,
    {
        if nodes[i].id.eq(id) {
            proof { lemma_index_of_id_first(nv, id@, i as int); }
            return Some(i);
        }
        i += 1;
    }
    proof { lemma_index_of_id_none(nv, id@); }
    None
}

/// Puts `node` in place of the node with the same id, or appends it.
pub fn insert_node_vec(nodes: &mut Vec<GraphNode>, node: GraphNode)
    ensures
        nodes_view(final(nodes)@) == insert_node(nodes_view(old(nodes)@), node@),
        unique_ids(nodes_view(old(nodes)@)) ==> unique_ids(nodes_view(final(nodes)@)),
{
    let ghost nv = node@;
    let ghost old_nodes = nodes_view(nodes@);
    proof { lemma_index_of_id_some(old_nodes, nv.id); }
    match find_node(nodes, &node.id) {
        Some(i) => {
            nodes.set(i, node);
            assert(nodes_view(nodes@) =~= old_nodes.update(i as int, nv));
            proof {
                if unique_ids(old_nodes) {
                    let cur = nodes_view(nodes@);
                    assert forall|a: int, b: int| 0 <= a < b < cur.len() implies cur[a].id != cur[b].id by {
                        if a != i as int && b != i as int {
                            assert(cur[a] == old_nodes[a] && cur[b] == old_nodes[b]);
                        } else if a == i as int {
                            assert(cur[b] == old_nodes[b]);
                        } else {
                            assert(cur[a] == old_nodes[a]);
                        }
                    }
                }
            }
        },
        None => {
            nodes.push(node);
            assert(nodes_view(nodes@) =~= old_nodes.push(nv));
        },
    }
}

pub proof fn lemma_index_of_id_first(nodes: Seq<NodeSpec>, id: Seq<char>, i: int)
    requires
        0 <= i < nodes.len(), nodes[i].id == id,
        forall|j: int| 0 <= j < i ==> nodes[j].id != id,
    ensures index_of_id(nodes, id) == i,
    decreases nodes.len(),
{
    if i < nodes.len() - 1 {
        lemma_index_of_id_first(nodes.drop_last(), id, i);
    } else {
        lemma_index_of_id_none(nodes.drop_last(), id);
    }
}

pub proof fn lemma_index_of_id_none(nodes: Seq<NodeSpec>, id: Seq<char>)
    requires forall|j: int| 0 <= j < nodes.len() ==> nodes[j].id != id,
    ensures index_of_id(nodes, id) == -1,
    decreases nodes.len(),
{
    if nodes.len() > 0 {
        lemma_index_of_id_none(nodes.drop_last(), id);
    }
}

pub proof fn lemma_index_of_id_some(nodes: Seq<NodeSpec>, id: Seq<char>)
    ensures
        index_of_id(nodes, id) >= 0 ==> index_of_id(nodes, id) < nodes.len() && nodes[index_of_id(nodes, id)].id == id,
        index_of_id(nodes, id) == -1 ==> forall|j: int| 0 <= j < nodes.len() ==> nodes[j].id != id,
        index_of_id(nodes, id) >= -1,
    decreases nodes.len(),
{
    if nodes.len() > 0 {
        lemma_index_of_id_some(nodes.drop_last(), id);
        assert forall|j: int| 0 <= j < nodes.len() - 1 implies nodes.drop_last()[j] == nodes[j] by {}
    }
}


/// The integer values of a list of indices.
pub open spec fn ints(s: Seq<usize>) -> Seq<int> {
    s.map_values(|x: usize| x as int)
}

/// Whether node `v` takes an input named like node `u`.
fn node_depends(nodes: &Vec<GraphNode>, v: usize, u: usize) -> (r: bool)
    requires v < nodes@.len(), u < nodes@.len(),
    ensures r == depends(nodes_view(nodes@), v as int, u as int),
{
    let ghost nv = nodes_view(nodes@);
    let inputs = &nodes[v].inputs;
    let target = &nodes[u].id;
    let mut j: usize = 0;
    while j < inputs.len()
        invariant j <= inputs.len(), nv == nodes_view(nodes@), inputs@ == nodes@[v as int].inputs@,
            target@ == nv[u as int].id, v < nodes@.len(), u < nodes@.len(),
            forall|k: int| 0 <= k < j ==> nv[v as int].inputs[k] != nv[u as int].id,
        decreases inputs.len() - j,
    {
        if inputs[j].eq(target) {
            assert(nv[v as int].inputs[j as int] == nv[u as int].id);
            return true;
        }
        j += 1;
    }
    false
}

/// For each node, the indices of the nodes it depends on.
fn dependency_lists(nodes: &Vec<GraphNode>) -> (r: Vec<Vec<usize>>)
    ensures
        r@.len() == nodes@.len(),
        forall|v: int, k: int| 0 <= v < r@.len() && 0 <= k < r@[v]@.len() ==> #[trigger] r@[v]@[k] < nodes@.len(),
        forall|v: int, u: int| 0 <= v < r@.len() && 0 <= u < nodes@.len() ==>
            (#[trigger] r@[v]@.contains(u as usize) <==> depends(nodes_view(nodes@), v, u)),
{
    let n = nodes.len();
    let mut r: Vec<Vec<usize>> = Vec::new();
    let mut v: usize = 0;
    while v < n
        invariant v <= n, n == nodes@.len(), r@.len() == v,
            forall|a: int, k: int| 0 <= a < r@.len() && 0 <= k < r@[a]@.len() ==> #[trigger] r@[a]@[k] < n,
            forall|a: int, u: int| 0 <= a < r@.len() && 0 <= u < n ==>
                (#[trigger] r@[a]@.contains(u as usize) <==> depends(nodes_view(nodes@), a, u)),
        decreases n - v,
    {
        let mut list: Vec<usize> = Vec::new();
        let mut u: usize = 0;
        while u < n
            invariant u <= n, n == nodes@.len(), v < n,
                forall|k: int| 0 <= k < list@.len() ==> #[trigger] list@[k] < u,
                forall|w: int| 0 <= w < u ==> (#[trigger] list@.contains(w as usize) <==> depends(nodes_view(nodes@), v as int, w)),
            decreases n - u,
        {
            let ghost old_list = list@;
            if node_depends(nodes, v, u) {
                list.push(u);
            }
            proof {
                assert forall|w: int| 0 <= w < u + 1 implies (#[trigger] list@.contains(w as usize) <==> depends(nodes_view(nodes@), v as int, w)) by {
                    if w < u {
                        if list@.contains(w as usize) {
                            let k = choose|k: int| 0 <= k < list@.len() && list@[k] == w as usize;
                            if k < old_list.len() {
                                assert(old_list[k] == w as usize);
                            }
                        }
                        if old_list.contains(w as usize) {
                            let k = choose|k: int| 0 <= k < old_list.len() && old_list[k] == w as usize;
                            assert(list@[k] == w as usize);
                        }
                    } else {
                        if depends(nodes_view(nodes@), v as int, w) {
                            assert(list@[list@.len() - 1] == w as usize);
                        }
                        if list@.contains(w as usize) {
                            let k = choose|k: int| 0 <= k < list@.len() && list@[k] == w as usize;
                            if k < old_list.len() {
                                assert(old_list[k] < u);
                            }
                        }
                    }
                }
            }
            u += 1;
        }
        r.push(list);
        proof {
            assert forall|a: int, w: int| 0 <= a < r@.len() && 0 <= w < n implies
                (#[trigger] r@[a]@.contains(w as usize) <==> depends(nodes_view(nodes@), a, w)) by {
                if a == v as int {
                    assert(r@[a] == list);
                }
            }
        }
        v += 1;
    }
    r
}

/// Whether every index listed in `deps` is marked done.
fn all_done(deps: &Vec<usize>, done: &Vec<bool>) -> (r: bool)
    requires forall|k: int| 0 <= k < deps@.len() ==> #[trigger] deps@[k] < done@.len(),
    ensures r == all_deps_done(deps@, done@),
{
    let mut k: usize = 0;
    while k < deps.len()
        invariant k <= deps.len(),
            forall|a: int| 0 <= a < deps@.len() ==> #[trigger] deps@[a] < done@.len(),
            forall|a: int| 0 <= a < k ==> done@[#[trigger] deps@[a] as int],
        decreases deps.len() - k,
    {
        if !done[deps[k]] {
            return false;
        }
        k += 1;
    }
    true
}

/// `format!` of the message for a graph input or output (`which`) that names
/// no node. Nothing is stated of the text.
#[verifier::external_body]
fn io_missing_message(which: &str, id: &String) -> String {
    format!("{} node {} not found", which, id)
}

/// `format!` of the message for a node input that names no node. Nothing is
/// stated of the text.
#[verifier::external_body]
fn dangling_input_message(node_id: &String, input_id: &String) -> String {
    format!("Node {} references non-existent input {}", node_id, input_id)
}

/// `format!` of the message for a node with the wrong number of inputs.
/// Nothing is stated of the text.
#[verifier::external_body]
fn arity_message(node_id: &String, expected: usize, actual: usize) -> String {
    format!("Node {} expects {} inputs but has {}", node_id, expected, actual)
}

/// `format!` of the message for an input node without a shape. Nothing is
/// stated of the text.
#[verifier::external_body]
fn no_shape_message(input_id: &String) -> String {
    format!("Input node {} has no shape information", input_id)
}

impl ComputationGraph {
    /// The node ids are distinct.
    pub open spec fn wf(&self) -> bool {
        unique_ids(nodes_view(self.nodes@))
    }

    /// Create a new empty computation graph.
    pub fn new() -> (r: Self)
        ensures
            r@.nodes == Seq::<NodeSpec>::empty(), r@.inputs == Seq::<Seq<char>>::empty(),
            r@.outputs == Seq::<Seq<char>>::empty(), r@.cid is None,
            r@.metadata == Seq::<(Seq<char>, Seq<char>)>::empty(), r.wf(),
    {
        let r = ComputationGraph { nodes: Vec::new(), inputs: Vec::new(), outputs: Vec::new(), metadata: Vec::new(), cid: None };
        assert(r@.nodes =~= Seq::<NodeSpec>::empty());
        assert(r@.inputs =~= Seq::<Seq<char>>::empty());
        assert(r@.outputs =~= Seq::<Seq<char>>::empty());
        assert(r@.metadata =~= Seq::<(Seq<char>, Seq<char>)>::empty());
        r
    }

    /// Index of the node with the given id, if any.
    pub fn node_index(&self, id: &String) -> (r: Option<usize>)
        ensures
            match r {
                Some(i) => i < self@.nodes.len() && self@.nodes[i as int].id == id@
                    && node_ids(self@.nodes).contains(id@),
                None => !node_ids(self@.nodes).contains(id@),
            },
    {
        let r = find_node(&self.nodes, id);
        proof {
            if let Some(i) = r {
                assert(node_ids(self@.nodes)[i as int] == id@);
            }
            if r is None {
                if node_ids(self@.nodes).contains(id@) {
                    let w = choose|w: int| 0 <= w < node_ids(self@.nodes).len() && node_ids(self@.nodes)[w] == id@;
                    assert(self.nodes@[w].id@ == id@);
                }
            }
        }
        r
    }

    /// The node with the given id, if any.
    pub fn get_node(&self, id: &str) -> (r: Option<&GraphNode>)
        ensures
            match r {
                Some(n) => node_ids(self@.nodes).contains(id@) && n@.id == id@
                    && n@ == self@.nodes[index_of_id(self@.nodes, id@)],
                None => !node_ids(self@.nodes).contains(id@),
            },
    {
        let key = String::from_str(id);
        match find_node(&self.nodes, &key) {
            Some(i) => {
                assert(node_ids(self@.nodes)[i as int] == id@);
                Some(&self.nodes[i])
            },
            None => {
                proof {
                    if node_ids(self@.nodes).contains(id@) {
                        let w = choose|w: int| 0 <= w < node_ids(self@.nodes).len() && node_ids(self@.nodes)[w] == id@;
                        assert(self.nodes@[w].id@ == id@);
                    }
                }
                None
            },
        }
    }

    /// Whether the graph has a node with the given id.
    pub fn contains_node(&self, id: &str) -> (r: bool)
        ensures r == node_ids(self@.nodes).contains(id@),
    {
        self.get_node(id).is_some()
    }

    /// Add a node to the graph; every input must name a node or a graph input.
    pub fn add_node(&mut self, node: GraphNode) -> (r: Result<(), GraphError>)
        ensures
            r is Ok <==> (forall|j: int| 0 <= j < node@.inputs.len() ==>
                node_ids(old(self)@.nodes).contains(#[trigger] node@.inputs[j]) || old(self)@.inputs.contains(node@.inputs[j])),
            r is Ok ==> final(self)@ == (GraphSpec { nodes: insert_node(old(self)@.nodes, node@), ..old(self)@ }),
            r matches Err(e) ==> final(self)@ == old(self)@ && e.kind() == GraphErrorKind::NodeNotFound,
            r matches Err(GraphError::NodeNotFound(m)) ==> exists|k: int| 0 <= k < node@.inputs.len() && {
                &&& m@ == #[trigger] node@.inputs[k]
                &&& !node_ids(old(self)@.nodes).contains(node@.inputs[k]) && !old(self)@.inputs.contains(node@.inputs[k])
                &&& forall|j: int| 0 <= j < k ==>
                    node_ids(old(self)@.nodes).contains(#[trigger] node@.inputs[j]) || old(self)@.inputs.contains(node@.inputs[j])
            },
            old(self).wf() ==> final(self).wf(),
    {
        let mut j: usize = 0;
        while j < node.inputs.len()
            invariant j <= node.inputs.len(),
                forall|k: int| 0 <= k < j ==>
                    node_ids(self@.nodes).contains(#[trigger] node@.inputs[k]) || self@.inputs.contains(node@.inputs[k]),
            decreases node.inputs.len() - j,
        {
            let input_id = &node.inputs[j];
            assert(input_id@ == node@.inputs[j as int]);
            if self.node_index(input_id).is_none() && !contains_string(&self.inputs, input_id) {
                let m = input_id.clone();
                assert(m@ == node@.inputs[j as int]);
                return Err(GraphError::NodeNotFound(m));
            }
            j += 1;
        }
        insert_node_vec(&mut self.nodes, node);
        Ok(())
    }

    /// Mark a node as an input.
    pub fn mark_input(&mut self, node_id: String)
        ensures
            final(self)@ == (GraphSpec {
                inputs: if old(self)@.inputs.contains(node_id@) { old(self)@.inputs } else { old(self)@.inputs.push(node_id@) },
                ..old(self)@
            }),
            final(self).nodes@ == old(self).nodes@,
    {
        push_unique(&mut self.inputs, node_id);
    }

    /// Mark a node as an output.
    pub fn mark_output(&mut self, node_id: String)
        ensures
            final(self)@ == (GraphSpec {
                outputs: if old(self)@.outputs.contains(node_id@) { old(self)@.outputs } else { old(self)@.outputs.push(node_id@) },
                ..old(self)@
            }),
            final(self).nodes@ == old(self).nodes@,
    {
        push_unique(&mut self.outputs, node_id);
    }

    /// A topological order of the node indices, or `None` when the graph has a cycle.
    pub fn topo_order(&self) -> (r: Option<Vec<usize>>)
        ensures
            match r {
                Some(o) => is_topo_order(self@.nodes, ints(o@)),
                None => has_cycle(self@.nodes),
            },
    {
        let ghost nv = self@.nodes;
        let n = self.nodes.len();
        let deps = dependency_lists(&self.nodes);
        let mut done: Vec<bool> = Vec::new();
        let mut i: usize = 0;
        while i < n
            invariant i <= n, done@.len() == i, forall|k: int| 0 <= k < i ==> !done@[k],
            decreases n - i,
        {
            done.push(false);
            i += 1;
        }
        let mut order: Vec<usize> = Vec::new();
        proof {
            assert(ints(order@) =~= Seq::<int>::empty());
            assert(deps_view(deps@) =~= deps@.map_values(|d: Vec<usize>| d@));
        }
        loop
            invariant
                n == self.nodes@.len(), nv == self@.nodes, nv.len() == n,
                deps@.len() == n,
                deps_ok(nv, deps_view(deps@)),
                done@.len() == n,
                topo_inv(nv, done@, ints(order@)),
            decreases n - order@.len(),
        {
            if order.len() == n {
                proof { lemma_topo_done(nv, done@, ints(order@)); }
                return Some(order);
            }
            let mut v: usize = 0;
            let mut found = false;
            while v < n && !found
                invariant v <= n, done@.len() == n, deps@.len() == n,
                    deps_ok(nv, deps_view(deps@)),
                    forall|w: int| 0 <= w < v ==> done@[w] || !all_deps_done(deps_view(deps@)[w], done@),
                    found ==> v < n && !done@[v as int] && all_deps_done(deps_view(deps@)[v as int], done@),
                decreases n - v, (if found { 0int } else { 1int }),
            {
                proof {
                    lemma_deps_bound(nv, deps_view(deps@), v as int);
                    assert(deps_view(deps@)[v as int] == deps@[v as int]@);
                }
                if !done[v] && all_done(&deps[v], &done) {
                    found = true;
                } else {
                    v += 1;
                }
            }
            if !found {
                proof { lemma_topo_stuck(nv, deps_view(deps@), done@, ints(order@)); }
                return None;
            }
            let ghost old_order = ints(order@);
            let ghost old_done = done@;
            order.push(v);
            done.set(v, true);
            proof {
                assert(ints(order@) =~= old_order.push(v as int));
                lemma_topo_step(nv, deps_view(deps@), old_done, old_order, v as int);
                assert(done@ =~= old_done.update(v as int, true));
            }
        }
    }
}

pub open spec fn deps_view(d: Seq<Vec<usize>>) -> Seq<Seq<usize>> {
    d.map_values(|v: Vec<usize>| v@)
}

/// `deps[v]` lists exactly the nodes that node `v` depends on.
pub open spec fn deps_ok(nv: Seq<NodeSpec>, deps: Seq<Seq<usize>>) -> bool {
    &&& deps.len() == nv.len()
    &&& forall|v: int, k: int| 0 <= v < deps.len() && 0 <= k < deps[v].len() ==> #[trigger] deps[v][k] < nv.len()
    &&& forall|v: int, u: int| 0 <= v < deps.len() && 0 <= u < nv.len() ==>
        (#[trigger] deps[v].contains(u as usize) <==> depends(nv, v, u))
}

pub open spec fn all_deps_done(d: Seq<usize>, done: Seq<bool>) -> bool {
    forall|k: int| 0 <= k < d.len() ==> done[#[trigger] d[k] as int]
}

/// The invariant of the topological ordering: `order` lists the done nodes,
/// each after the nodes it depends on, all of which are done.
pub open spec fn topo_inv(nv: Seq<NodeSpec>, done: Seq<bool>, order: Seq<int>) -> bool {
    let n = nv.len();
    &&& done.len() == n
    &&& order.len() <= n
    &&& forall|k: int| 0 <= k < order.len() ==> 0 <= #[trigger] order[k] < n
    &&& order.no_duplicates()
    &&& forall|v: int| 0 <= v < n ==> (done[v] <==> #[trigger] order.contains(v))
    &&& forall|k: int, u: int| 0 <= k < order.len() && 0 <= u < n && #[trigger] depends(nv, order[k], u) ==> done[u]
    &&& forall|k1: int, k2: int| 0 <= k1 < order.len() && 0 <= k2 < order.len()
        && depends(nv, #[trigger] order[k1], #[trigger] order[k2]) ==> k2 < k1
}

proof fn lemma_deps_bound(nv: Seq<NodeSpec>, deps: Seq<Seq<usize>>, v: int)
    requires deps_ok(nv, deps), 0 <= v < deps.len(),
    ensures forall|k: int| 0 <= k < deps[v].len() ==> #[trigger] deps[v][k] < nv.len(),
{
}

proof fn lemma_topo_done(nv: Seq<NodeSpec>, done: Seq<bool>, order: Seq<int>)
    requires topo_inv(nv, done, order), order.len() == nv.len(),
    ensures is_topo_order(nv, order),
{
}

proof fn lemma_topo_stuck(nv: Seq<NodeSpec>, deps: Seq<Seq<usize>>, done: Seq<bool>, order: Seq<int>)
    requires
        deps_ok(nv, deps),
        topo_inv(nv, done, order),
        order.len() != nv.len(),
        forall|w: int| 0 <= w < nv.len() ==> done[w] || !all_deps_done(deps[w], done),
    ensures has_cycle(nv),
{
    let n = nv.len();
    if forall|w: int| 0 <= w < n ==> done[w] {
        assert forall|w: int| 0 <= w < n implies order.contains(w) by {
            assert(done[w]);
        }
        lemma_cover_len(order, n);
    }
    let w0 = choose|w: int| 0 <= w < n && !done[w];
    let s = Set::new(|w: int| 0 <= w < n && !done[w]);
    assert(s.contains(w0));
    assert forall|w: int| #[trigger] s.contains(w) implies exists|u: int| s.contains(u) && depends(nv, w, u) by {
        assert(!all_deps_done(deps[w], done));
        let k = choose|k: int| 0 <= k < deps[w].len() && !done[#[trigger] deps[w][k] as int];
        let u = deps[w][k] as int;
        assert(deps[w].contains(u as usize));
        assert(s.contains(u));
    }
    assert(cycle_witness(nv, s));
}

proof fn lemma_topo_step(nv: Seq<NodeSpec>, deps: Seq<Seq<usize>>, done: Seq<bool>, order: Seq<int>, v: int)
    requires
        deps_ok(nv, deps),
        topo_inv(nv, done, order),
        0 <= v < nv.len(),
        nv.len() <= usize::MAX,
        !done[v],
        all_deps_done(deps[v], done),
    ensures topo_inv(nv, done.update(v, true), order.push(v)),
{
    let n = nv.len();
    let no = order.push(v);
    let nd = done.update(v, true);
    assert forall|k: int| 0 <= k < order.len() implies !depends(nv, #[trigger] order[k], v) by {
        if depends(nv, order[k], v) {
            assert(done[v]);
        }
    }
    assert forall|u: int| 0 <= u < n && depends(nv, v, u) implies done[u] by {
        assert(deps[v].contains(u as usize));
        let k = choose|k: int| 0 <= k < deps[v].len() && deps[v][k] == u as usize;
        assert(done[deps[v][k] as int]);
        assert(deps[v][k] as int == u);
    }
    assert(!order.contains(v));
    assert forall|a: int, b: int| 0 <= a < no.len() && 0 <= b < no.len() && a != b implies no[a] != no[b] by {
        if a == order.len() as int {
            if no[a] == no[b] { assert(order.contains(no[b])); }
        } else if b == order.len() as int {
            if no[a] == no[b] { assert(order.contains(no[a])); }
        }
    }
    assert forall|k: int| 0 <= k < no.len() implies 0 <= #[trigger] no[k] < n by {}
    lemma_bound_len(no, n);
    assert forall|w: int| 0 <= w < n implies (nd[w] <==> #[trigger] no.contains(w)) by {
        if w == v {
            assert(no[order.len() as int] == w);
            assert(nd[w]);
        } else {
            assert(nd[w] == done[w]);
            assert(done[w] <==> order.contains(w));
            if no.contains(w) {
                let k = choose|k: int| 0 <= k < no.len() && no[k] == w;
                assert(k != order.len() as int);
                assert(order[k] == w);
                assert(order.contains(w));
            }
            if order.contains(w) {
                let k = choose|k: int| 0 <= k < order.len() && order[k] == w;
                assert(no[k] == w);
            }
        }
    }
    assert forall|k: int, u: int| 0 <= k < no.len() && 0 <= u < n && #[trigger] depends(nv, no[k], u) implies nd[u] by {
        if k < order.len() {
            assert(order[k] == no[k]);
        }
    }
    assert forall|k1: int, k2: int| 0 <= k1 < no.len() && 0 <= k2 < no.len()
        && depends(nv, #[trigger] no[k1], #[trigger] no[k2]) implies k2 < k1 by {
        if k2 == order.len() as int && k1 < k2 {
            assert(order[k1] == no[k1]);
            assert(!depends(nv, order[k1], v));
        } else if k1 == order.len() as int && k2 == k1 {
            assert(done[v]);
        } else if k1 < order.len() && k2 < order.len() {
            assert(order[k1] == no[k1]);
            assert(order[k2] == no[k2]);
        }
    }
}


/// The elements of `s` that satisfy `p`, in order.
pub open spec fn select<A>(s: Seq<A>, p: spec_fn(A) -> bool) -> Seq<A>
    decreases s.len(),
{
    if s.len() == 0 {
        Seq::empty()
    } else {
        let prev = select(s.drop_last(), p);
        if p(s.last()) { prev.push(s.last()) } else { prev }
    }
}

/// Every input of a node whose id is in `c` is in `c`.
pub open spec fn closed_under_inputs(nodes: Seq<NodeSpec>, c: Set<Seq<char>>) -> bool {
    forall|i: int, j: int| 0 <= i < nodes.len() && 0 <= j < nodes[i].inputs.len() && c.contains(nodes[i].id)
        ==> #[trigger] c.contains(nodes[i].inputs[j])
}

/// `x` is an id the `roots` depend on (or a root): it is in every set that holds
/// the roots and is closed under taking the inputs of nodes.
pub open spec fn in_closure(nodes: Seq<NodeSpec>, roots: Seq<Seq<char>>, x: Seq<char>) -> bool {
    forall|c: Set<Seq<char>>| #[trigger] closed_under_inputs(nodes, c)
        && (forall|k: int| 0 <= k < roots.len() ==> c.contains(roots[k])) ==> c.contains(x)
}

/// Node `u` takes `x` as an input.
pub open spec fn has_input(nodes: Seq<NodeSpec>, u: int, x: Seq<char>) -> bool {
    nodes[u].inputs.contains(x)
}

/// The ids the roots depend on, found from the nodes marked as needed.
pub open spec fn visited(nodes: Seq<NodeSpec>, roots: Seq<Seq<char>>, marked: Seq<bool>, x: Seq<char>) -> bool {
    roots.contains(x) || exists|u: int| 0 <= u < nodes.len() && marked[u] && #[trigger] has_input(nodes, u, x)
}

/// The marking invariant: marked nodes are needed, roots are marked.
pub open spec fn mark_inv(nodes: Seq<NodeSpec>, roots: Seq<Seq<char>>, marked: Seq<bool>) -> bool {
    &&& marked.len() == nodes.len()
    &&& forall|v: int| 0 <= v < nodes.len() && #[trigger] marked[v] ==> in_closure(nodes, roots, nodes[v].id)
    &&& forall|v: int| 0 <= v < nodes.len() && roots.contains(#[trigger] nodes[v].id) ==> marked[v]
}

/// No unmarked node is an input of a marked node.
pub open spec fn mark_fixpoint(nodes: Seq<NodeSpec>, marked: Seq<bool>) -> bool {
    forall|v: int, u: int| 0 <= v < nodes.len() && 0 <= u < nodes.len() && marked[u]
        && #[trigger] has_input(nodes, u, nodes[v].id) ==> #[trigger] marked[v]
}

pub open spec fn count_false(s: Seq<bool>) -> nat
    decreases s.len(),
{
    if s.len() == 0 { 0 } else { count_false(s.drop_last()) + if s.last() { 0nat } else { 1nat } }
}

proof fn lemma_count_false_set(s: Seq<bool>, i: int)
    requires 0 <= i < s.len(), !s[i],
    ensures count_false(s.update(i, true)) < count_false(s),
    decreases s.len(),
{
    let t = s.update(i, true);
    assert(t.drop_last() =~= if i < s.len() - 1 { s.drop_last().update(i, true) } else { s.drop_last() });
    if i < s.len() - 1 {
        lemma_count_false_set(s.drop_last(), i);
    }
}

proof fn lemma_count_false_mono(s: Seq<bool>, t: Seq<bool>)
    requires s.len() == t.len(), forall|i: int| 0 <= i < s.len() && s[i] ==> t[i],
    ensures count_false(t) <= count_false(s),
    decreases s.len(),
{
    if s.len() > 0 {
        lemma_count_false_mono(s.drop_last(), t.drop_last());
    }
}

proof fn lemma_root_in_closure(nodes: Seq<NodeSpec>, roots: Seq<Seq<char>>, k: int)
    requires 0 <= k < roots.len(),
    ensures in_closure(nodes, roots, roots[k]),
{
}

proof fn lemma_input_in_closure(nodes: Seq<NodeSpec>, roots: Seq<Seq<char>>, u: int, x: Seq<char>)
    requires 0 <= u < nodes.len(), in_closure(nodes, roots, nodes[u].id), has_input(nodes, u, x),
    ensures in_closure(nodes, roots, x),
{
    let j = choose|j: int| 0 <= j < nodes[u].inputs.len() && nodes[u].inputs[j] == x;
    assert forall|c: Set<Seq<char>>| #[trigger] closed_under_inputs(nodes, c)
        && (forall|k: int| 0 <= k < roots.len() ==> c.contains(roots[k])) implies c.contains(x) by {
        assert(c.contains(nodes[u].id));
        assert(c.contains(nodes[u].inputs[j]));
    }
}

/// At the fixpoint, the visited ids are exactly the ids the roots depend on.
proof fn lemma_visited_closure(nodes: Seq<NodeSpec>, roots: Seq<Seq<char>>, marked: Seq<bool>, x: Seq<char>)
    requires mark_inv(nodes, roots, marked), mark_fixpoint(nodes, marked),
    ensures visited(nodes, roots, marked, x) <==> in_closure(nodes, roots, x),
{
    let c = Set::new(|y: Seq<char>| visited(nodes, roots, marked, y));
    assert(closed_under_inputs(nodes, c)) by {
        assert forall|i: int, j: int| 0 <= i < nodes.len() && 0 <= j < nodes[i].inputs.len() && c.contains(nodes[i].id)
            implies #[trigger] c.contains(nodes[i].inputs[j]) by {
            if roots.contains(nodes[i].id) {
                assert(marked[i]);
            } else {
                let u = choose|u: int| 0 <= u < nodes.len() && marked[u] && #[trigger] has_input(nodes, u, nodes[i].id);
                assert(marked[i]);
            }
            assert(has_input(nodes, i, nodes[i].inputs[j]));
        }
    }
    assert forall|k: int| 0 <= k < roots.len() implies c.contains(roots[k]) by {
        assert(roots.contains(roots[k]));
    }
    if in_closure(nodes, roots, x) {
        assert(c.contains(x));
    }
    if visited(nodes, roots, marked, x) {
        if roots.contains(x) {
            let k = choose|k: int| 0 <= k < roots.len() && roots[k] == x;
            lemma_root_in_closure(nodes, roots, k);
        } else {
            let u = choose|u: int| 0 <= u < nodes.len() && marked[u] && #[trigger] has_input(nodes, u, x);
            lemma_input_in_closure(nodes, roots, u, x);
        }
    }
}

/// Whether node `u` takes `x` as an input.
fn node_has_input(nodes: &Vec<GraphNode>, u: usize, x: &String) -> (r: bool)
    requires u < nodes@.len(),
    ensures r == has_input(nodes_view(nodes@), u as int, x@),
{
    let r = contains_string(&nodes[u].inputs, x);
    assert(strs(nodes@[u as int].inputs@) == nodes_view(nodes@)[u as int].inputs);
    r
}

/// One marking round: marks every node that is an input of a marked node.
fn mark_round(nodes: &Vec<GraphNode>, roots: Ghost<Seq<Seq<char>>>, marked: &mut Vec<bool>) -> (changed: bool)
    requires mark_inv(nodes_view(nodes@), roots@, old(marked)@),
    ensures
        mark_inv(nodes_view(nodes@), roots@, final(marked)@),
        changed ==> count_false(final(marked)@) < count_false(old(marked)@),
        !changed ==> final(marked)@ == old(marked)@ && mark_fixpoint(nodes_view(nodes@), final(marked)@),
{
    let ghost nv = nodes_view(nodes@);
    let n = nodes.len();
    let mut changed = false;
    let mut v: usize = 0;
    while v < n
        invariant
            n == nodes@.len(), nv == nodes_view(nodes@), v <= n,
            mark_inv(nv, roots@, marked@),
            changed ==> count_false(marked@) < count_false(old(marked)@),
            !changed ==> marked@ == old(marked)@,
            old(marked)@.len() == n,
            forall|a: int| 0 <= a < marked@.len() && old(marked)@[a] ==> marked@[a],
            !changed ==> forall|w: int, u: int| 0 <= w < v && 0 <= u < n && marked@[u]
                && #[trigger] has_input(nv, u, nv[w].id) ==> #[trigger] marked@[w],
        decreases n - v,
    {
        if !marked[v] {
            let mut u: usize = 0;
            let mut hit = false;
            while u < n && !hit
                invariant u <= n, n == nodes@.len(), nv == nodes_view(nodes@), v < n, marked@.len() == n,
                    !hit ==> forall|w: int| 0 <= w < u && marked@[w] ==> !has_input(nv, w, nv[v as int].id),
                    hit ==> u < n && marked@[u as int] && has_input(nv, u as int, nv[v as int].id),
                decreases n - u, (if hit { 0int } else { 1int }),
            {
                if marked[u] && node_has_input(nodes, u, &nodes[v].id) {
                    hit = true;
                } else {
                    u += 1;
                }
            }
            if hit {
                proof {
                    lemma_input_in_closure(nv, roots@, u as int, nv[v as int].id);
                    lemma_count_false_set(marked@, v as int);
                    lemma_count_false_mono(old(marked)@, marked@);
                }
                marked.set(v, true);
                changed = true;
            }
        }
        v += 1;
    }
    changed
}

impl ComputationGraph {
    /// The ids of the nodes at the given indices.
    fn ids_at(&self, order: &Vec<usize>) -> (r: Vec<String>)
        requires forall|k: int| 0 <= k < order@.len() ==> #[trigger] order@[k] < self.nodes@.len(),
        ensures strs(r@) == ints(order@).map_values(|i: int| self@.nodes[i].id),
    {
        let mut r: Vec<String> = Vec::new();
        let mut k: usize = 0;
        while k < order.len()
            invariant k <= order.len(),
                forall|a: int| 0 <= a < order@.len() ==> #[trigger] order@[a] < self.nodes@.len(),
                strs(r@) == ints(order@.subrange(0, k as int)).map_values(|i: int| self@.nodes[i].id),
            decreases order.len() - k,
        {
            let ghost prev = strs(r@);
            r.push(self.nodes[order[k]].id.clone());
            assert(ints(order@.subrange(0, k + 1)) =~= ints(order@.subrange(0, k as int)).push(order@[k as int] as int));
            assert(strs(r@) =~= prev.push(self@.nodes[order@[k as int] as int].id));
            assert(strs(r@) =~= ints(order@.subrange(0, k + 1)).map_values(|i: int| self@.nodes[i].id));
            k += 1;
        }
        assert(order@.subrange(0, order.len() as int) =~= order@);
        r
    }

    /// The node ids in a topological order (each node after its inputs),
    /// or `CircularDependency` when the graph has a cycle.
    pub fn topological_sort(&self) -> (r: Result<Vec<String>, GraphError>)
        ensures
            match r {
                Ok(ids) => exists|ord: Seq<int>| is_topo_order(self@.nodes, ord)
                    && strs(ids@) == ord.map_values(|i: int| self@.nodes[i].id),
                Err(e) => e.kind() == GraphErrorKind::CircularDependency && has_cycle(self@.nodes),
            },
    {
        match self.topo_order() {
            Some(order) => {
                assert forall|k: int| 0 <= k < order@.len() implies #[trigger] order@[k] < self.nodes@.len() by {
                    assert(0 <= ints(order@)[k] < self@.nodes.len());
                }
                let ids = self.ids_at(&order);
                Ok(ids)
            },
            None => Err(GraphError::CircularDependency),
        }
    }

    /// Extract the subgraph the given outputs depend on.
    pub fn extract_subgraph(&self, output_ids: &Vec<String>) -> (r: Result<ComputationGraph, GraphError>)
        ensures
            r matches Ok(sub) && {
                let roots = strs(output_ids@);
                &&& sub@.nodes == select(self@.nodes, |n: NodeSpec| in_closure(self@.nodes, roots, n.id))
                &&& sub@.inputs == dedup(select(self@.inputs, |x: Seq<char>| in_closure(self@.nodes, roots, x)))
                &&& sub@.outputs == dedup(roots)
                &&& sub@.metadata == Seq::<(Seq<char>, Seq<char>)>::empty()
                &&& sub@.cid is None
                &&& (self.wf() ==> sub.wf())
            },
    {
        let ghost nv = self@.nodes;
        let ghost roots = strs(output_ids@);
        let n = self.nodes.len();
        let mut marked: Vec<bool> = Vec::new();
        let mut i: usize = 0;
        while i < n
            invariant i <= n, n == self.nodes@.len(), nv == self@.nodes, roots == strs(output_ids@),
                marked@.len() == i,
                forall|v: int| 0 <= v < i && #[trigger] marked@[v] ==> in_closure(nv, roots, nv[v].id),
                forall|v: int| 0 <= v < i && roots.contains(#[trigger] nv[v].id) ==> marked@[v],
            decreases n - i,
        {
            let is_root = contains_string(output_ids, &self.nodes[i].id);
            proof {
                if is_root {
                    let k = choose|k: int| 0 <= k < roots.len() && roots[k] == nv[i as int].id;
                    lemma_root_in_closure(nv, roots, k);
                }
            }
            marked.push(is_root);
            i += 1;
        }
        let mut fix = false;
        while !fix
            invariant n == self.nodes@.len(), nv == self@.nodes, roots == strs(output_ids@),
                mark_inv(nv, roots, marked@),
                fix ==> mark_fixpoint(nv, marked@),
            decreases count_false(marked@), (if fix { 0int } else { 1int }),
        {
            if !mark_round(&self.nodes, Ghost(roots), &mut marked) {
                fix = true;
            }
        }
        let ghost pred = |nd: NodeSpec| in_closure(nv, roots, nd.id);
        let ghost ipred = |x: Seq<char>| in_closure(nv, roots, x);
        // the needed nodes, in order
        let mut sub_nodes: Vec<GraphNode> = Vec::new();
        let mut v: usize = 0;
        while v < n
            invariant v <= n, n == self.nodes@.len(), nv == self@.nodes, roots == strs(output_ids@),
                mark_inv(nv, roots, marked@), mark_fixpoint(nv, marked@),
                nodes_view(sub_nodes@) == select(nv.subrange(0, v as int), pred),
                pred == (|nd: NodeSpec| in_closure(nv, roots, nd.id)),
            decreases n - v,
        {
            proof {
                lemma_marked_iff(nv, roots, marked@, v as int);
                assert(nv.subrange(0, v + 1).drop_last() =~= nv.subrange(0, v as int));
                assert(nv.subrange(0, v + 1).last() == nv[v as int]);
                assert(pred(nv[v as int]) == in_closure(nv, roots, nv[v as int].id));
                assert(select(nv.subrange(0, v + 1), pred) == (if pred(nv[v as int]) {
                    select(nv.subrange(0, v as int), pred).push(nv[v as int]) } else { select(nv.subrange(0, v as int), pred) }));
            }
            let ghost prev = nodes_view(sub_nodes@);
            if marked[v] {
                let c = self.nodes[v].clone();
                sub_nodes.push(c);
                assert(nodes_view(sub_nodes@) =~= prev.push(nv[v as int]));
            }
            v += 1;
        }
        assert(nv.subrange(0, n as int) =~= nv);
        let mut sub = ComputationGraph::new();
        sub.nodes = sub_nodes;
        // graph inputs the outputs depend on
        let ghost ins = self@.inputs;
        let mut k: usize = 0;
        while k < self.inputs.len()
            invariant k <= self.inputs.len(), n == self.nodes@.len(), nv == self@.nodes, roots == strs(output_ids@),
                ins == self@.inputs,
                mark_inv(nv, roots, marked@), mark_fixpoint(nv, marked@),
                sub@.nodes == select(nv, pred),
                sub@.inputs == dedup(select(ins.subrange(0, k as int), ipred)),
                ipred == (|x: Seq<char>| in_closure(nv, roots, x)),
                pred == (|nd: NodeSpec| in_closure(nv, roots, nd.id)),
                sub@.outputs == Seq::<Seq<char>>::empty(),
                sub@.metadata == Seq::<(Seq<char>, Seq<char>)>::empty(),
                sub@.cid is None,
            decreases self.inputs.len() - k,
        {
            let x = &self.inputs[k];
            let mut hit = contains_string(output_ids, x);
            let mut u: usize = 0;
            while u < n && !hit
                invariant u <= n, n == self.nodes@.len(), nv == self@.nodes, marked@.len() == n,
                    !hit ==> !roots.contains(x@) && forall|w: int| 0 <= w < u && marked@[w] ==> !has_input(nv, w, x@),
                    hit ==> visited(nv, roots, marked@, x@),
                    roots == strs(output_ids@),
                decreases n - u, (if hit { 0int } else { 1int }),
            {
                if marked[u] && node_has_input(&self.nodes, u, x) {
                    hit = true;
                } else {
                    u += 1;
                }
            }
            proof {
                lemma_visited_closure(nv, roots, marked@, x@);
                assert(ins.subrange(0, k + 1).drop_last() =~= ins.subrange(0, k as int));
                assert(ins[k as int] == x@);
                assert(ins.subrange(0, k + 1).last() == x@);
                assert(ipred(x@) == in_closure(nv, roots, x@));
                assert(select(ins.subrange(0, k + 1), ipred) == (if ipred(x@) {
                    select(ins.subrange(0, k as int), ipred).push(x@) } else { select(ins.subrange(0, k as int), ipred) }));
                if !hit {
                    assert(!visited(nv, roots, marked@, x@)) by {
                        if visited(nv, roots, marked@, x@) && !roots.contains(x@) {
                            let w = choose|w: int| 0 <= w < nv.len() && marked@[w] && #[trigger] has_input(nv, w, x@);
                        }
                    }
                }
            }
            if hit {
                let xc = x.clone();
                sub.mark_input(xc);
                proof { lemma_dedup_push(select(ins.subrange(0, k as int), ipred), x@); }
            }
            k += 1;
        }
        assert(ins.subrange(0, self.inputs.len() as int) =~= ins);
        // the outputs, once each
        let mut k: usize = 0;
        while k < output_ids.len()
            invariant k <= output_ids.len(), roots == strs(output_ids@),
                sub@.nodes == select(nv, pred),
                sub@.inputs == dedup(select(ins, ipred)),
                sub@.outputs == dedup(roots.subrange(0, k as int)),
                ipred == (|x: Seq<char>| in_closure(nv, roots, x)),
                pred == (|nd: NodeSpec| in_closure(nv, roots, nd.id)),
                sub@.metadata == Seq::<(Seq<char>, Seq<char>)>::empty(),
                sub@.cid is None,
            decreases output_ids.len() - k,
        {
            let oc = output_ids[k].clone();
            proof {
                assert(roots.subrange(0, k + 1).drop_last() =~= roots.subrange(0, k as int));
                assert(roots[k as int] == oc@);
                lemma_dedup_push(roots.subrange(0, k as int), oc@);
            }
            sub.mark_output(oc);
            k += 1;
        }
        assert(roots.subrange(0, output_ids.len() as int) =~= roots);
        proof {
            if self.wf() {
                lemma_select_unique(nv, pred);
            }
        }
        Ok(sub)
    }
}

proof fn lemma_marked_iff(nv: Seq<NodeSpec>, roots: Seq<Seq<char>>, marked: Seq<bool>, v: int)
    requires mark_inv(nv, roots, marked), mark_fixpoint(nv, marked), 0 <= v < nv.len(),
    ensures marked[v] <==> in_closure(nv, roots, nv[v].id),
{
    if in_closure(nv, roots, nv[v].id) {
        lemma_visited_closure(nv, roots, marked, nv[v].id);
        if !roots.contains(nv[v].id) {
            let u = choose|u: int| 0 <= u < nv.len() && marked[u] && #[trigger] has_input(nv, u, nv[v].id);
            assert(marked[v]);
        }
    }
}

proof fn lemma_dedup_push(s: Seq<Seq<char>>, x: Seq<char>)
    ensures dedup(s.push(x)) == (if dedup(s).contains(x) { dedup(s) } else { dedup(s).push(x) }),
{
    assert(s.push(x).drop_last() =~= s);
}

/// The elements of `select(s, p)` are elements of `s`.
pub proof fn lemma_select_sub<A>(s: Seq<A>, p: spec_fn(A) -> bool, k: int)
    requires 0 <= k < select(s, p).len(),
    ensures exists|i: int| 0 <= i < s.len() && s[i] == select(s, p)[k] && p(s[i]),
    decreases s.len(),
{
    let prev = select(s.drop_last(), p);
    if p(s.last()) && k == prev.len() {
        assert(s[s.len() - 1] == select(s, p)[k]);
    } else {
        lemma_select_sub(s.drop_last(), p, k);
        let i = choose|i: int| 0 <= i < s.drop_last().len() && s.drop_last()[i] == prev[k] && p(s.drop_last()[i]);
        assert(s[i] == select(s, p)[k]);
    }
}

pub proof fn lemma_select_unique(nodes: Seq<NodeSpec>, p: spec_fn(NodeSpec) -> bool)
    requires unique_ids(nodes),
    ensures unique_ids(select(nodes, p)),
    decreases nodes.len(),
{
    if nodes.len() > 0 {
        let d = nodes.drop_last();
        assert(unique_ids(d)) by {
            assert forall|i: int, j: int| 0 <= i < j < d.len() implies d[i].id != d[j].id by {
                assert(d[i] == nodes[i] && d[j] == nodes[j]);
            }
        }
        lemma_select_unique(d, p);
        let prev = select(d, p);
        if p(nodes.last()) {
            let r = prev.push(nodes.last());
            assert forall|i: int, j: int| 0 <= i < j < r.len() implies r[i].id != r[j].id by {
                if j == prev.len() {
                    lemma_select_sub(d, p, i);
                    let w = choose|w: int| 0 <= w < d.len() && d[w] == prev[i] && p(d[w]);
                    assert(nodes[w] == d[w]);
                    assert(nodes[nodes.len() - 1] == nodes.last());
                }
            }
        }
    }
}


/// `x` names a node of the graph or a graph input.
pub open spec fn known_id(g: GraphSpec, x: Seq<char>) -> bool {
    node_ids(g.nodes).contains(x) || g.inputs.contains(x)
}

/// The problem with node `i`, if any: an input that names nothing known,
/// or a number of inputs its operation does not take.
pub open spec fn node_error(g: GraphSpec, i: int) -> Option<GraphErrorKind> {
    if exists|j: int| 0 <= j < g.nodes[i].inputs.len() && !known_id(g, #[trigger] g.nodes[i].inputs[j]) {
        Some(GraphErrorKind::NodeNotFound)
    } else if op_num_inputs(g.nodes[i].op) > 0 && g.nodes[i].inputs.len() != op_num_inputs(g.nodes[i].op) {
        Some(GraphErrorKind::InvalidGraph)
    } else {
        None
    }
}

/// The problem with the first faulty node among the first `k`.
pub open spec fn first_node_error(g: GraphSpec, k: nat) -> Option<GraphErrorKind>
    decreases k,
{
    if k == 0 {
        None
    } else {
        match first_node_error(g, (k - 1) as nat) {
            Some(e) => Some(e),
            None => node_error(g, k - 1),
        }
    }
}

proof fn lemma_first_error_stable(g: GraphSpec, i: nat, k: nat)
    requires i < k, first_node_error(g, i) is None, node_error(g, i as int) is Some,
    ensures first_node_error(g, k) == node_error(g, i as int),
    decreases k - i,
{
    if k > i + 1 {
        lemma_first_error_stable(g, i, (k - 1) as nat);
    }
}

/// What validating a graph yields.
pub open spec fn validate_spec(g: GraphSpec) -> Result<(), GraphErrorKind> {
    if exists|k: int| 0 <= k < g.inputs.len() && !node_ids(g.nodes).contains(#[trigger] g.inputs[k]) {
        Err(GraphErrorKind::NodeNotFound)
    } else if exists|k: int| 0 <= k < g.outputs.len() && !node_ids(g.nodes).contains(#[trigger] g.outputs[k]) {
        Err(GraphErrorKind::NodeNotFound)
    } else {
        match first_node_error(g, g.nodes.len()) {
            Some(e) => Err(e),
            None => if has_cycle(g.nodes) { Err(GraphErrorKind::CircularDependency) } else { Ok(()) },
        }
    }
}

proof fn lemma_first_node_error_none(g: GraphSpec, k: nat)
    requires k <= g.nodes.len(),
    ensures first_node_error(g, k) is None <==> forall|i: int| 0 <= i < k ==> #[trigger] node_error(g, i) is None,
    decreases k,
{
    if k > 0 {
        lemma_first_node_error_none(g, (k - 1) as nat);
    }
}

/// Validation accepts a graph exactly when its inputs and outputs name
/// nodes, every input of every node names a node or a graph input, every
/// node whose operation takes a fixed number of inputs has exactly that
/// many, and the nodes form no cycle.
pub proof fn lemma_validate_accepts(g: GraphSpec, r: Result<(), GraphError>)
    requires
        match (r, validate_spec(g)) {
            (Ok(()), Ok(())) => true,
            (Err(e), Err(k)) => e.kind() == k,
            _ => false,
        },
    ensures
        r is Ok <==> {
            &&& forall|k: int| 0 <= k < g.inputs.len() ==> node_ids(g.nodes).contains(#[trigger] g.inputs[k])
            &&& forall|k: int| 0 <= k < g.outputs.len() ==> node_ids(g.nodes).contains(#[trigger] g.outputs[k])
            &&& forall|i: int, j: int| 0 <= i < g.nodes.len() && 0 <= j < g.nodes[i].inputs.len() ==>
                node_ids(g.nodes).contains(#[trigger] g.nodes[i].inputs[j]) || g.inputs.contains(g.nodes[i].inputs[j])
            &&& forall|i: int| 0 <= i < g.nodes.len() && op_num_inputs((#[trigger] g.nodes[i]).op) > 0
                ==> g.nodes[i].inputs.len() == op_num_inputs(g.nodes[i].op)
            &&& !has_cycle(g.nodes)
        },
{
    lemma_first_node_error_none(g, g.nodes.len());
    if r is Ok {
        assert forall|i: int, j: int| 0 <= i < g.nodes.len() && 0 <= j < g.nodes[i].inputs.len() implies
            node_ids(g.nodes).contains(#[trigger] g.nodes[i].inputs[j]) || g.inputs.contains(g.nodes[i].inputs[j]) by {
            assert(node_error(g, i) is None);
            assert(known_id(g, g.nodes[i].inputs[j]));
        }
        assert forall|i: int| 0 <= i < g.nodes.len() && op_num_inputs((#[trigger] g.nodes[i]).op) > 0
            implies g.nodes[i].inputs.len() == op_num_inputs(g.nodes[i].op) by {
            assert(node_error(g, i) is None);
        }
    } else {
        let all_known = forall|i: int, j: int| 0 <= i < g.nodes.len() && 0 <= j < g.nodes[i].inputs.len() ==>
            node_ids(g.nodes).contains(#[trigger] g.nodes[i].inputs[j]) || g.inputs.contains(g.nodes[i].inputs[j]);
        let all_arity = forall|i: int| 0 <= i < g.nodes.len() && op_num_inputs((#[trigger] g.nodes[i]).op) > 0
            ==> g.nodes[i].inputs.len() == op_num_inputs(g.nodes[i].op);
        if all_known && all_arity {
            assert forall|i: int| 0 <= i < g.nodes.len() implies #[trigger] node_error(g, i) is None by {
                assert(forall|j: int| 0 <= j < g.nodes[i].inputs.len() ==> known_id(g, #[trigger] g.nodes[i].inputs[j]));
                assert(op_num_inputs(g.nodes[i].op) > 0 ==> g.nodes[i].inputs.len() == op_num_inputs(g.nodes[i].op));
            }
        }
    }
}

/// Product of the dimensions of a shape.
pub open spec fn shape_product(s: Seq<usize>) -> int
    decreases s.len(),
{
    if s.len() == 0 { 1 } else { shape_product(s.drop_last()) * s.last() }
}

/// Every prefix product of the shape fits in a `usize`.
pub open spec fn product_fits(s: Seq<usize>) -> bool {
    forall|k: int| 0 <= k <= s.len() ==> #[trigger] shape_product(s.subrange(0, k)) <= usize::MAX
}

/// Bytes a node's output takes as `f32` values.
pub open spec fn node_bytes(n: NodeSpec) -> int {
    match n.output_shape {
        Some(s) => shape_product(s) * 4,
        None => 0,
    }
}

pub open spec fn memory_sum(nodes: Seq<NodeSpec>, k: nat) -> int
    decreases k,
{
    if k == 0 { 0 } else { memory_sum(nodes, (k - 1) as nat) + node_bytes(nodes[k - 1]) }
}

/// The memory estimate of the graph does not overflow.
pub open spec fn memory_fits(nodes: Seq<NodeSpec>) -> bool {
    &&& forall|i: int| 0 <= i < nodes.len() && (#[trigger] nodes[i]).output_shape is Some ==>
        product_fits(nodes[i].output_shape.unwrap()) && shape_product(nodes[i].output_shape.unwrap()) * 4 <= usize::MAX
    &&& forall|k: nat| k <= nodes.len() ==> #[trigger] memory_sum(nodes, k) <= usize::MAX
}

proof fn lemma_product_nonneg(s: Seq<usize>)
    ensures shape_product(s) >= 0,
    decreases s.len(),
{
    if s.len() > 0 {
        lemma_product_nonneg(s.drop_last());
        vstd::arithmetic::mul::lemma_mul_nonnegative(shape_product(s.drop_last()), s.last() as int);
    }
}

proof fn lemma_memory_nonneg(nodes: Seq<NodeSpec>, k: nat)
    ensures memory_sum(nodes, k) >= 0,
    decreases k,
{
    if k > 0 {
        lemma_memory_nonneg(nodes, (k - 1) as nat);
        if let Some(s) = nodes[k - 1].output_shape {
            lemma_product_nonneg(s);
        }
    }
}

/// Product of the dimensions of a shape.
pub fn product(s: &Vec<usize>) -> (r: usize)
    requires product_fits(s@),
    ensures r == shape_product(s@),
{
    let mut p: usize = 1;
    let mut i: usize = 0;
    assert(s@.subrange(0, 0) =~= Seq::<usize>::empty());
    while i < s.len()
        invariant i <= s.len(), product_fits(s@), p == shape_product(s@.subrange(0, i as int)),
        decreases s.len() - i,
    {
        assert(s@.subrange(0, i + 1).drop_last() =~= s@.subrange(0, i as int));
        assert(shape_product(s@.subrange(0, i + 1)) <= usize::MAX);
        p = p * s[i];
        i += 1;
    }
    assert(s@.subrange(0, s.len() as int) =~= s@);
    p
}

impl ComputationGraph {
    /// Count the number of nodes.
    pub fn node_count(&self) -> (r: usize)
        ensures r == self@.nodes.len(),
    {
        self.nodes.len()
    }

    /// Get the number of inputs.
    pub fn input_count(&self) -> (r: usize)
        ensures r == self@.inputs.len(),
    {
        self.inputs.len()
    }

    /// Get the number of outputs.
    pub fn output_count(&self) -> (r: usize)
        ensures r == self@.outputs.len(),
    {
        self.outputs.len()
    }

    /// Validate graph structure: inputs and outputs name nodes, node inputs name
    /// nodes or graph inputs, nodes take as many inputs as their operation, and
    /// there is no cycle.
    pub fn validate(&self) -> (r: Result<(), GraphError>)
        ensures
            match (r, validate_spec(self@)) {
                (Ok(()), Ok(())) => true,
                (Err(e), Err(k)) => e.kind() == k,
                _ => false,
            },
    {
        let ghost g = self@;
        let mut k: usize = 0;
        while k < self.inputs.len()
            invariant k <= self.inputs.len(), g == self@,
                forall|a: int| 0 <= a < k ==> node_ids(g.nodes).contains(#[trigger] g.inputs[a]),
            decreases self.inputs.len() - k,
        {
            if self.node_index(&self.inputs[k]).is_none() {
                assert(!node_ids(g.nodes).contains(g.inputs[k as int]));
                return Err(GraphError::NodeNotFound(io_missing_message("Input", &self.inputs[k])));
            }
            k += 1;
        }
        let mut k: usize = 0;
        while k < self.outputs.len()
            invariant k <= self.outputs.len(), g == self@,
                forall|a: int| 0 <= a < g.inputs.len() ==> node_ids(g.nodes).contains(#[trigger] g.inputs[a]),
                forall|a: int| 0 <= a < k ==> node_ids(g.nodes).contains(#[trigger] g.outputs[a]),
            decreases self.outputs.len() - k,
        {
            if self.node_index(&self.outputs[k]).is_none() {
                assert(!node_ids(g.nodes).contains(g.outputs[k as int]));
                return Err(GraphError::NodeNotFound(io_missing_message("Output", &self.outputs[k])));
            }
            k += 1;
        }
        let mut i: usize = 0;
        while i < self.nodes.len()
            invariant i <= self.nodes.len(), g == self@,
                forall|a: int| 0 <= a < g.inputs.len() ==> node_ids(g.nodes).contains(#[trigger] g.inputs[a]),
                forall|a: int| 0 <= a < g.outputs.len() ==> node_ids(g.nodes).contains(#[trigger] g.outputs[a]),
                first_node_error(g, i as nat) is None,
            decreases self.nodes.len() - i,
        {
            let node = &self.nodes[i];
            assert(node@ == g.nodes[i as int]);
            let mut j: usize = 0;
            while j < node.inputs.len()
                invariant j <= node.inputs.len(), g == self@, node@ == g.nodes[i as int], i < g.nodes.len(),
                    first_node_error(g, i as nat) is None,
                    forall|a: int| 0 <= a < j ==> known_id(g, #[trigger] g.nodes[i as int].inputs[a]),
                decreases node.inputs.len() - j,
            {
                let x = &node.inputs[j];
                assert(x@ == g.nodes[i as int].inputs[j as int]);
                if self.node_index(x).is_none() && !contains_string(&self.inputs, x) {
                    assert(node_error(g, i as int) == Some(GraphErrorKind::NodeNotFound));
                    proof { lemma_first_error_stable(g, i as nat, g.nodes.len()); }
                    return Err(GraphError::NodeNotFound(dangling_input_message(&node.id, x)));
                }
                j += 1;
            }
            let expected = node.op.num_inputs();
            if node.inputs.len() != expected && expected > 0 {
                assert(node_error(g, i as int) == Some(GraphErrorKind::InvalidGraph));
                proof { lemma_first_error_stable(g, i as nat, g.nodes.len()); }
                return Err(GraphError::InvalidGraph(arity_message(&node.id, expected, node.inputs.len())));
            }
            assert(node_error(g, i as int) is None);
            i += 1;
        }
        match self.topological_sort() {
            Ok(ids) => {
                proof {
                    let ord = choose|ord: Seq<int>| is_topo_order(g.nodes, ord)
                        && strs(ids@) == ord.map_values(|i: int| g.nodes[i].id);
                    if has_cycle(g.nodes) {
                        lemma_cycle_no_order(g.nodes, ord);
                    }
                }
                Ok(())
            },
            Err(e) => Err(e),
        }
    }

    /// Estimated memory footprint: 4 bytes per element of every known output shape.
    pub fn estimate_memory(&self) -> (r: usize)
        requires memory_fits(self@.nodes),
        ensures r == memory_sum(self@.nodes, self@.nodes.len()),
    {
        let ghost nv = self@.nodes;
        let mut total: usize = 0;
        let mut i: usize = 0;
        while i < self.nodes.len()
            invariant i <= self.nodes.len(), nv == self@.nodes, memory_fits(nv),
                total == memory_sum(nv, i as nat),
            decreases self.nodes.len() - i,
        {
            assert(memory_sum(nv, (i + 1) as nat) <= usize::MAX);
            proof { lemma_memory_nonneg(nv, i as nat); }
            match &self.nodes[i].output_shape {
                Some(shape) => {
                    assert(nv[i as int].output_shape == Some(shape@));
                    let elements = product(shape);
                    proof { lemma_product_nonneg(shape@); }
                    total = total + elements * 4;
                },
                None => {},
            }
            i += 1;
        }
        total
    }
}


/// The output shapes of the nodes named by the first `k` of `inputs`, or the
/// problem with the first that names no node or a node of unknown shape.
pub open spec fn collect_shapes(nodes: Seq<NodeSpec>, inputs: Seq<Seq<char>>, k: nat) -> Result<Seq<Seq<usize>>, GraphErrorKind>
    decreases k,
{
    if k == 0 {
        Ok(Seq::empty())
    } else {
        match collect_shapes(nodes, inputs, (k - 1) as nat) {
            Err(e) => Err(e),
            Ok(p) => {
                let idx = index_of_id(nodes, inputs[k - 1]);
                if idx < 0 {
                    Err(GraphErrorKind::NodeNotFound)
                } else {
                    match nodes[idx].output_shape {
                        None => Err(GraphErrorKind::InvalidGraph),
                        Some(sh) => Ok(p.push(sh)),
                    }
                }
            },
        }
    }
}

/// Shape inference for node `v`: nodes with a known shape are left alone.
pub open spec fn prop_step(nodes: Seq<NodeSpec>, v: int) -> (Seq<NodeSpec>, Option<GraphErrorKind>) {
    if nodes[v].output_shape is Some {
        (nodes, None)
    } else {
        match collect_shapes(nodes, nodes[v].inputs, nodes[v].inputs.len()) {
            Err(e) => (nodes, Some(e)),
            Ok(shapes) => match infer_spec(nodes[v].op, shapes) {
                Err(e) => (nodes, Some(e)),
                Ok(sh) => (nodes.update(v, NodeSpec { output_shape: Some(sh), ..nodes[v] }), None),
            },
        }
    }
}

/// Shape inference over the first `k` nodes of `ord`, stopping at the first problem.
pub open spec fn prop_run(nodes: Seq<NodeSpec>, ord: Seq<int>, k: nat) -> (Seq<NodeSpec>, Option<GraphErrorKind>)
    decreases k,
{
    if k == 0 {
        (nodes, None)
    } else {
        let prev = prop_run(nodes, ord, (k - 1) as nat);
        if prev.1 is Some { prev } else { prop_step(prev.0, ord[k - 1]) }
    }
}

/// Shape inference does not overflow at any node reached along `ord`.
pub open spec fn prop_defined(nodes: Seq<NodeSpec>, ord: Seq<int>) -> bool {
    forall|k: nat| k < ord.len() ==> {
        let st = #[trigger] prop_run(nodes, ord, k);
        let n = st.0[ord[k as int]];
        st.1 is None && n.output_shape is None ==>
            match collect_shapes(st.0, n.inputs, n.inputs.len()) {
                Ok(shapes) => infer_defined(n.op, shapes),
                Err(_) => true,
            }
    }
}

proof fn lemma_prop_run_ids(nodes: Seq<NodeSpec>, ord: Seq<int>, k: nat)
    requires k <= ord.len(), forall|i: int| 0 <= i < ord.len() ==> 0 <= #[trigger] ord[i] < nodes.len(),
    ensures
        prop_run(nodes, ord, k).0.len() == nodes.len(),
        forall|i: int| 0 <= i < nodes.len() ==> (#[trigger] prop_run(nodes, ord, k).0[i]).id == nodes[i].id
            && prop_run(nodes, ord, k).0[i].inputs == nodes[i].inputs && prop_run(nodes, ord, k).0[i].op == nodes[i].op
            && prop_run(nodes, ord, k).0[i].metadata == nodes[i].metadata,
    decreases k,
{
    if k > 0 {
        lemma_prop_run_ids(nodes, ord, (k - 1) as nat);
    }
}

proof fn lemma_index_of_id_same_ids(a: Seq<NodeSpec>, b: Seq<NodeSpec>, id: Seq<char>)
    requires a.len() == b.len(), forall|i: int| 0 <= i < a.len() ==> #[trigger] a[i].id == b[i].id,
    ensures index_of_id(a, id) == index_of_id(b, id),
    decreases a.len(),
{
    if a.len() > 0 {
        lemma_index_of_id_same_ids(a.drop_last(), b.drop_last(), id);
    }
}

impl ComputationGraph {
    /// The output shapes of the nodes named by `inputs`.
    fn input_shapes(&self, inputs: &Vec<String>) -> (r: Result<Vec<Vec<usize>>, GraphError>)
        ensures
            match (r, collect_shapes(self@.nodes, strs(inputs@), inputs@.len())) {
                (Ok(v), Ok(w)) => v@.map_values(|x: Vec<usize>| x@) == w,
                (Err(e), Err(k)) => e.kind() == k,
                _ => false,
            },
    {
        let ghost nv = self@.nodes;
        let mut out: Vec<Vec<usize>> = Vec::new();
        assert(out@.map_values(|x: Vec<usize>| x@) =~= Seq::<Seq<usize>>::empty());
        let mut j: usize = 0;
        while j < inputs.len()
            invariant j <= inputs.len(), nv == self@.nodes,
                collect_shapes(nv, strs(inputs@), j as nat) == Ok::<Seq<Seq<usize>>, GraphErrorKind>(out@.map_values(|x: Vec<usize>| x@)),
            decreases inputs.len() - j,
        {
            let x = &inputs[j];
            assert(strs(inputs@)[j as int] == x@);
            match find_node(&self.nodes, x) {
                None => {
                    proof { lemma_collect_err(nv, strs(inputs@), (j + 1) as nat, inputs@.len()); }
                    return Err(GraphError::NodeNotFound(x.clone()));
                },
                Some(idx) => {
                    match &self.nodes[idx].output_shape {
                        None => {
                            assert(nv[idx as int].output_shape is None);
                            proof { lemma_collect_err(nv, strs(inputs@), (j + 1) as nat, inputs@.len()); }
                            return Err(GraphError::InvalidGraph(no_shape_message(x)));
                        },
                        Some(sh) => {
                            let ghost prev = out@.map_values(|x: Vec<usize>| x@);
                            assert(nv[idx as int].output_shape == Some(sh@));
                            out.push(copy_vec(sh));
                            assert(out@.map_values(|x: Vec<usize>| x@) =~= prev.push(sh@));
                        },
                    }
                },
            }
            j += 1;
        }
        Ok(out)
    }

    /// Propagate shapes through the graph in a topological order, inferring the
    /// output shape of every node whose shape is not yet known.
    pub fn propagate_shapes(&mut self) -> (r: Result<(), GraphError>)
        requires
            forall|ord: Seq<int>| is_topo_order(old(self)@.nodes, ord) ==> #[trigger] prop_defined(old(self)@.nodes, ord),
        ensures
            final(self)@.inputs == old(self)@.inputs, final(self)@.outputs == old(self)@.outputs,
            final(self)@.metadata == old(self)@.metadata, final(self)@.cid == old(self)@.cid,
            old(self).wf() ==> final(self).wf(),
            match r {
                Ok(()) => exists|ord: Seq<int>| is_topo_order(old(self)@.nodes, ord)
                    && prop_run(old(self)@.nodes, ord, ord.len()) == (final(self)@.nodes, None::<GraphErrorKind>),
                Err(e) => (e.kind() == GraphErrorKind::CircularDependency && has_cycle(old(self)@.nodes)
                        && final(self)@ == old(self)@)
                    || exists|ord: Seq<int>| is_topo_order(old(self)@.nodes, ord)
                        && prop_run(old(self)@.nodes, ord, ord.len()) == (final(self)@.nodes, Some(e.kind())),
            },
    {
        let ghost start = self@.nodes;
        let order = match self.topo_order() {
            Some(o) => o,
            None => { return Err(GraphError::CircularDependency); },
        };
        let ghost ord = ints(order@);
        assert(prop_defined(start, ord));
        let mut k: usize = 0;
        while k < order.len()
            invariant
                k <= order.len(), ord == ints(order@), is_topo_order(start, ord), prop_defined(start, ord),
                prop_run(start, ord, k as nat) == (self@.nodes, None::<GraphErrorKind>),
                self@.inputs == old(self)@.inputs, self@.outputs == old(self)@.outputs,
                self@.metadata == old(self)@.metadata, self@.cid == old(self)@.cid,
                start == old(self)@.nodes,
            decreases order.len() - k,
        {
            proof {
                lemma_prop_run_ids(start, ord, k as nat);
                assert(0 <= ord[k as int] < start.len());
            }
            let v = order[k];
            assert(v as int == ord[k as int]);
            if self.nodes[v].output_shape.is_none() {
                let shapes = match self.input_shapes(&self.nodes[v].inputs) {
                    Ok(sh) => sh,
                    Err(e) => {
                        proof { lemma_prop_run_stop(start, ord, (k + 1) as nat); }
                        return Err(e);
                    },
                };
                proof {
                    assert(shapes_view(shapes@) == shapes@.map_values(|x: Vec<usize>| x@));
                    assert(prop_run(start, ord, k as nat) == #[trigger] prop_run(start, ord, k as nat));
                }
                let shape = match self.nodes[v].op.infer_output_shape(&shapes) {
                    Ok(sh) => sh,
                    Err(e) => {
                        proof { lemma_prop_run_stop(start, ord, (k + 1) as nat); }
                        return Err(e);
                    },
                };
                let ghost before = self@.nodes;
                let mut nd = self.nodes[v].clone();
                nd.output_shape = Some(shape);
                self.nodes.set(v, nd);
                assert(self@.nodes =~= before.update(v as int, NodeSpec { output_shape: Some(shape@), ..before[v as int] }));
            }
            k += 1;
        }
        proof {
            if old(self).wf() {
                lemma_prop_run_ids(start, ord, ord.len());
            }
        }
        Ok(())
    }
}

proof fn lemma_collect_err(nodes: Seq<NodeSpec>, inputs: Seq<Seq<char>>, j: nat, k: nat)
    requires j <= k, collect_shapes(nodes, inputs, j) is Err,
    ensures collect_shapes(nodes, inputs, k) == collect_shapes(nodes, inputs, j),
    decreases k - j,
{
    if k > j {
        lemma_collect_err(nodes, inputs, j, (k - 1) as nat);
    }
}

proof fn lemma_prop_run_stop(nodes: Seq<NodeSpec>, ord: Seq<int>, k: nat)
    requires k <= ord.len(), prop_run(nodes, ord, k).1 is Some,
    ensures prop_run(nodes, ord, ord.len()) == prop_run(nodes, ord, k),
    decreases ord.len() - k,
{
    if k < ord.len() {
        lemma_prop_run_stop_up(nodes, ord, k, ord.len());
    }
}

proof fn lemma_prop_run_stop_up(nodes: Seq<NodeSpec>, ord: Seq<int>, k: nat, m: nat)
    requires k <= m, prop_run(nodes, ord, k).1 is Some,
    ensures prop_run(nodes, ord, m) == prop_run(nodes, ord, k),
    decreases m - k,
{
    if m > k {
        lemma_prop_run_stop_up(nodes, ord, k, (m - 1) as nat);
    }
}


/// Occurrences of `x` in `s`.
pub open spec fn occurrences(s: Seq<Seq<char>>, x: Seq<char>) -> nat
    decreases s.len(),
{
    if s.len() == 0 { 0 } else { occurrences(s.drop_last(), x) + if s.last() == x { 1nat } else { 0nat } }
}

/// References to `x` among the inputs of the first `k` nodes.
pub open spec fn ref_count(nodes: Seq<NodeSpec>, x: Seq<char>, k: nat) -> nat
    decreases k,
{
    if k == 0 { 0 } else { ref_count(nodes, x, (k - 1) as nat) + occurrences(nodes[k - 1].inputs, x) }
}

pub open spec fn rename_inputs(s: Seq<Seq<char>>, from: Seq<char>, to: Seq<char>) -> Seq<Seq<char>> {
    s.map_values(|x: Seq<char>| if x == from { to } else { x })
}

/// Every node with its inputs named `from` renamed to `to`.
pub open spec fn rename_all(nodes: Seq<NodeSpec>, from: Seq<char>, to: Seq<char>) -> Seq<NodeSpec> {
    nodes.map_values(|n: NodeSpec| NodeSpec { inputs: rename_inputs(n.inputs, from, to), ..n })
}

/// The id recorded for the first entry with this operation and inputs.
pub open spec fn find_sig(map: Seq<(OpSpec, Seq<Seq<char>>, Seq<char>)>, op: OpSpec, inputs: Seq<Seq<char>>) -> Option<Seq<char>>
    decreases map.len(),
{
    if map.len() == 0 {
        None
    } else {
        match find_sig(map.drop_last(), op, inputs) {
            Some(id) => Some(id),
            None => if map.last().0 == op && map.last().1 == inputs { Some(map.last().2) } else { None },
        }
    }
}

/// Common-subexpression elimination state: nodes, expressions seen, references replaced.
pub type CseState = (Seq<NodeSpec>, Seq<(OpSpec, Seq<Seq<char>>, Seq<char>)>, nat);

/// One step of common-subexpression elimination at node `v`: a node computing
/// an expression seen before has every reference to it redirected.
pub open spec fn cse_step(st: CseState, v: int) -> CseState {
    let n = st.0[v];
    match find_sig(st.1, n.op, n.inputs) {
        Some(existing) => (rename_all(st.0, n.id, existing), st.1, st.2 + ref_count(st.0, n.id, st.0.len())),
        None => (st.0, st.1.push((n.op, n.inputs, n.id)), st.2),
    }
}

pub open spec fn cse_run(nodes: Seq<NodeSpec>, ord: Seq<int>, k: nat) -> CseState
    decreases k,
{
    if k == 0 {
        (nodes, Seq::empty(), 0)
    } else {
        cse_step(cse_run(nodes, ord, (k - 1) as nat), ord[k - 1])
    }
}

/// Whether two lists of strings hold equal strings.
pub fn strings_eq(a: &Vec<String>, b: &Vec<String>) -> (r: bool)
    ensures r == (strs(a@) == strs(b@)),
{
    if a.len() != b.len() {
        return false;
    }
    let mut i: usize = 0;
    while i < a.len()
        invariant i <= a.len(), a.len() == b.len(), forall|k: int| 0 <= k < i ==> a@[k]@ == b@[k]@,
        decreases a.len() - i,
    {
        if !a[i].eq(&b[i]) {
            assert(strs(a@)[i as int] != strs(b@)[i as int]);
            return false;
        }
        i += 1;
    }
    assert(strs(a@) =~= strs(b@));
    true
}

pub open spec fn entries_view(m: Seq<(TensorOp, Vec<String>, String)>) -> Seq<(OpSpec, Seq<Seq<char>>, Seq<char>)> {
    m.map_values(|e: (TensorOp, Vec<String>, String)| (e.0@, strs(e.1@), e.2@))
}

fn lookup_sig(map: &Vec<(TensorOp, Vec<String>, String)>, op: &TensorOp, inputs: &Vec<String>) -> (r: Option<String>)
    ensures
        match (r, find_sig(entries_view(map@), op@, strs(inputs@))) {
            (Some(a), Some(b)) => a@ == b,
            (None, None) => true,
            _ => false,
        },
{
    let ghost mv = entries_view(map@);
    let mut i: usize = 0;
    while i < map.len()
        invariant i <= map.len(), mv == entries_view(map@),
            find_sig(mv.subrange(0, i as int), op@, strs(inputs@)) is None,
        decreases map.len() - i,
    {
        assert(mv.subrange(0, i + 1).drop_last() =~= mv.subrange(0, i as int));
        let (eop, ein, eid) = &map[i];
        if eop.same_as(op) && strings_eq(ein, inputs) {
            proof { lemma_find_sig_prefix(mv, op@, strs(inputs@), (i + 1) as nat); }
            return Some(eid.clone());
        }
        i += 1;
    }
    assert(mv.subrange(0, map.len() as int) =~= mv);
    None
}

proof fn lemma_find_sig_prefix(m: Seq<(OpSpec, Seq<Seq<char>>, Seq<char>)>, op: OpSpec, inputs: Seq<Seq<char>>, k: nat)
    requires k <= m.len(), find_sig(m.subrange(0, k as int), op, inputs) is Some,
    ensures find_sig(m, op, inputs) == find_sig(m.subrange(0, k as int), op, inputs),
    decreases m.len() - k,
{
    if k < m.len() {
        assert(m.subrange(0, (k + 1) as int).drop_last() =~= m.subrange(0, k as int));
        lemma_find_sig_prefix(m, op, inputs, k + 1);
    } else {
        assert(m.subrange(0, k as int) =~= m);
    }
}

proof fn lemma_cse_run_shape(nodes: Seq<NodeSpec>, ord: Seq<int>, k: nat)
    requires k <= ord.len(), forall|i: int| 0 <= i < ord.len() ==> 0 <= #[trigger] ord[i] < nodes.len(),
    ensures
        cse_run(nodes, ord, k).0.len() == nodes.len(),
        forall|i: int| 0 <= i < nodes.len() ==> (#[trigger] cse_run(nodes, ord, k).0[i]).id == nodes[i].id,
    decreases k,
{
    if k > 0 {
        lemma_cse_run_shape(nodes, ord, (k - 1) as nat);
    }
}

proof fn lemma_cse_run_mono(nodes: Seq<NodeSpec>, ord: Seq<int>, a: nat, b: nat)
    requires a <= b,
    ensures cse_run(nodes, ord, a).2 <= cse_run(nodes, ord, b).2,
    decreases b - a,
{
    if a < b {
        lemma_cse_run_mono(nodes, ord, a, (b - 1) as nat);
    }
}

impl ComputationGraph {
    /// Redirect every input named `from` to `to`; returns how many inputs changed.
    fn rename_references(&mut self, from: &String, to: &String, bound: Ghost<int>) -> (count: usize)
        requires ref_count(old(self)@.nodes, from@, old(self)@.nodes.len()) <= bound@, bound@ <= usize::MAX,
        ensures
            final(self)@ == (GraphSpec { nodes: rename_all(old(self)@.nodes, from@, to@), ..old(self)@ }),
            count == ref_count(old(self)@.nodes, from@, old(self)@.nodes.len()),
    {
        let ghost start = self@.nodes;
        let mut count: usize = 0;
        let mut u: usize = 0;
        while u < self.nodes.len()
            invariant
                u <= self.nodes.len(), self.nodes@.len() == start.len(),
                ref_count(start, from@, start.len()) <= bound@, bound@ <= usize::MAX,
                count == ref_count(start, from@, u as nat),
                forall|w: int| 0 <= w < u ==> self@.nodes[w] == rename_all(start, from@, to@)[w],
                forall|w: int| u <= w < start.len() ==> self@.nodes[w] == start[w],
                self@.inputs == old(self)@.inputs, self@.outputs == old(self)@.outputs,
                self@.metadata == old(self)@.metadata, self@.cid == old(self)@.cid,
            decreases self.nodes.len() - u,
        {
            proof { lemma_ref_count_mono(start, from@, (u + 1) as nat, start.len()); }
            let mut nd = self.nodes[u].clone();
            let ghost orig = nd@;
            assert(orig == start[u as int]);
            let mut j: usize = 0;
            while j < nd.inputs.len()
                invariant
                    j <= nd.inputs.len(), nd.inputs@.len() == orig.inputs.len(),
                    nd@.id == orig.id, nd@.op == orig.op, nd@.output_shape == orig.output_shape, nd@.metadata == orig.metadata,
                    forall|a: int| 0 <= a < j ==> nd@.inputs[a] == rename_inputs(orig.inputs, from@, to@)[a],
                    forall|a: int| j <= a < nd.inputs@.len() ==> nd@.inputs[a] == orig.inputs[a],
                    count == ref_count(start, from@, u as nat) + occurrences(orig.inputs.subrange(0, j as int), from@),
                    ref_count(start, from@, (u + 1) as nat) <= bound@, bound@ <= usize::MAX, u < start.len(),
                    orig == start[u as int],
                decreases nd.inputs.len() - j,
            {
                assert(orig.inputs.subrange(0, j + 1).drop_last() =~= orig.inputs.subrange(0, j as int));
                proof { lemma_occ_mono(orig.inputs, from@, (j + 1) as nat); }
                if nd.inputs[j].eq(from) {
                    count = count + 1;
                    let ghost before = nd@;
                    nd.inputs.set(j, to.clone());
                    assert(strs(nd.inputs@) =~= before.inputs.update(j as int, to@));
                }
                j += 1;
            }
            assert(orig.inputs.subrange(0, nd.inputs.len() as int) =~= orig.inputs);
            assert(nd@.inputs =~= rename_inputs(orig.inputs, from@, to@));
            let ghost prev = self@.nodes;
            self.nodes.set(u, nd);
            assert(self@.nodes =~= prev.update(u as int, rename_all(start, from@, to@)[u as int]));
            u += 1;
        }
        assert(self@.nodes =~= rename_all(start, from@, to@));
        count
    }

    /// Common subexpression elimination: in a topological order, a node whose
    /// operation and inputs equal those of an earlier node has every reference
    /// to it redirected to the earlier node. Returns the number of redirected
    /// references (0 when the graph has a cycle).
    pub fn optimize_cse(&mut self) -> (r: usize)
        requires
            forall|ord: Seq<int>| is_topo_order(old(self)@.nodes, ord) ==>
                #[trigger] cse_run(old(self)@.nodes, ord, ord.len()).2 <= usize::MAX,
        ensures
            final(self)@.inputs == old(self)@.inputs, final(self)@.outputs == old(self)@.outputs,
            final(self)@.metadata == old(self)@.metadata, final(self)@.cid == old(self)@.cid,
            old(self).wf() ==> final(self).wf(),
            (has_cycle(old(self)@.nodes) && r == 0 && final(self)@ == old(self)@)
            || exists|ord: Seq<int>| is_topo_order(old(self)@.nodes, ord)
                && cse_run(old(self)@.nodes, ord, ord.len()).0 == final(self)@.nodes
                && cse_run(old(self)@.nodes, ord, ord.len()).2 == r,
    {
        let ghost start = self@.nodes;
        let order = match self.topo_order() {
            Some(o) => o,
            None => { return 0; },
        };
        let ghost ord = ints(order@);
        assert(cse_run(start, ord, ord.len()).2 <= usize::MAX);
        let mut map: Vec<(TensorOp, Vec<String>, String)> = Vec::new();
        let mut count: usize = 0;
        let mut k: usize = 0;
        assert(entries_view(map@) =~= Seq::<(OpSpec, Seq<Seq<char>>, Seq<char>)>::empty());
        while k < order.len()
            invariant
                k <= order.len(), ord == ints(order@), is_topo_order(start, ord),
                cse_run(start, ord, ord.len()).2 <= usize::MAX,
                cse_run(start, ord, k as nat) == (self@.nodes, entries_view(map@), count as nat),
                self@.inputs == old(self)@.inputs, self@.outputs == old(self)@.outputs,
                self@.metadata == old(self)@.metadata, self@.cid == old(self)@.cid,
                start == old(self)@.nodes,
            decreases order.len() - k,
        {
            proof {
                lemma_cse_run_shape(start, ord, k as nat);
                lemma_cse_run_mono(start, ord, (k + 1) as nat, ord.len());
                assert(0 <= ord[k as int] < start.len());
            }
            let v = order[k];
            assert(v as int == ord[k as int]);
            let node_id = self.nodes[v].id.clone();
            match lookup_sig(&map, &self.nodes[v].op, &self.nodes[v].inputs) {
                Some(existing) => {
                    let c = self.rename_references(&node_id, &existing, Ghost(usize::MAX - count));
                    count = count + c;
                },
                None => {
                    let ghost before = entries_view(map@);
                    let e = (self.nodes[v].op.clone(), clone_strings(&self.nodes[v].inputs), node_id);
                    map.push(e);
                    assert(entries_view(map@) =~= before.push((self@.nodes[v as int].op, self@.nodes[v as int].inputs, self@.nodes[v as int].id)));
                },
            }
            k += 1;
        }
        proof {
            if old(self).wf() {
                lemma_cse_run_shape(start, ord, ord.len());
            }
        }
        count
    }
}

proof fn lemma_ref_count_mono(nodes: Seq<NodeSpec>, x: Seq<char>, a: nat, b: nat)
    requires a <= b,
    ensures ref_count(nodes, x, a) <= ref_count(nodes, x, b),
    decreases b - a,
{
    if a < b {
        lemma_ref_count_mono(nodes, x, a, (b - 1) as nat);
    }
}

proof fn lemma_occ_mono(s: Seq<Seq<char>>, x: Seq<char>, k: nat)
    requires k <= s.len(),
    ensures occurrences(s.subrange(0, k as int), x) <= occurrences(s, x),
    decreases s.len() - k,
{
    if k < s.len() {
        lemma_occ_mono(s, x, k + 1);
        assert(s.subrange(0, (k + 1) as int).drop_last() =~= s.subrange(0, k as int));
    } else {
        assert(s.subrange(0, k as int) =~= s);
    }
}


impl Default for ComputationGraph {
    fn default() -> (r: Self)
        ensures r@.nodes.len() == 0, r@.inputs.len() == 0, r@.outputs.len() == 0, r.wf(),
    {
        Self::new()
    }
}

/// All inputs of node `v` name Constant nodes.
pub open spec fn all_inputs_constant(nodes: Seq<NodeSpec>, v: int) -> bool {
    forall|j: int| 0 <= j < nodes[v].inputs.len() ==> {
        let i = index_of_id(nodes, #[trigger] nodes[v].inputs[j]);
        i >= 0 && nodes[i].op is Constant
    }
}

/// Nodes among the first `k` whose inputs are all Constant nodes.
pub open spec fn foldable_count(nodes: Seq<NodeSpec>, k: nat) -> nat
    decreases k,
{
    if k == 0 { 0 } else { foldable_count(nodes, (k - 1) as nat) + if all_inputs_constant(nodes, k - 1) { 1nat } else { 0nat } }
}

proof fn lemma_foldable_le(nodes: Seq<NodeSpec>, k: nat)
    ensures foldable_count(nodes, k) <= k,
    decreases k,
{
    if k > 0 { lemma_foldable_le(nodes, (k - 1) as nat); }
}

/// Graph optimizer for applying optimizations.
pub struct GraphOptimizer;

impl GraphOptimizer {
    /// Constant folding: counts the nodes all of whose inputs are Constant nodes
    /// (every operation is pure); `CircularDependency` when the graph has a cycle.
    pub fn constant_folding(graph: &mut ComputationGraph) -> (r: Result<usize, GraphError>)
        ensures
            final(graph)@ == old(graph)@,
            match r {
                Ok(c) => !has_cycle(old(graph)@.nodes) && c == foldable_count(old(graph)@.nodes, old(graph)@.nodes.len()),
                Err(e) => has_cycle(old(graph)@.nodes) && e.kind() == GraphErrorKind::CircularDependency,
            },
    {
        let ghost nv = graph@.nodes;
        match graph.topo_order() {
            None => { return Err(GraphError::CircularDependency); },
            Some(o) => {
                proof { if has_cycle(nv) { lemma_cycle_no_order(nv, ints(o@)); } }
            },
        }
        let mut count: usize = 0;
        let mut v: usize = 0;
        while v < graph.nodes.len()
            invariant v <= graph.nodes.len(), nv == graph@.nodes, count == foldable_count(nv, v as nat),
            decreases graph.nodes.len() - v,
        {
            proof { lemma_foldable_le(nv, v as nat); }
            let node = &graph.nodes[v];
            let mut all_const = true;
            let mut j: usize = 0;
            while j < node.inputs.len() && all_const
                invariant j <= node.inputs.len(), nv == graph@.nodes, node@ == nv[v as int], v < nv.len(),
                    all_const == (forall|a: int| 0 <= a < j ==> {
                        let i = index_of_id(nv, #[trigger] nv[v as int].inputs[a]);
                        i >= 0 && nv[i].op is Constant
                    }),
                decreases node.inputs.len() - j,
            {
                assert(node.inputs@[j as int]@ == nv[v as int].inputs[j as int]);
                match find_node(&graph.nodes, &node.inputs[j]) {
                    Some(i) => {
                        let is_const = match graph.nodes[i].op { TensorOp::Constant { .. } => true, _ => false };
                        if !is_const {
                            all_const = false;
                        }
                    },
                    None => { all_const = false; },
                }
                j += 1;
            }
            if all_const && node.op.is_pure() {
                count = count + 1;
            }
            v += 1;
        }
        Ok(count)
    }

    /// Remove dead nodes (nodes the outputs do not depend on); returns how many were removed.
    pub fn remove_dead_nodes(graph: &mut ComputationGraph) -> (r: Result<usize, GraphError>)
        ensures
            r matches Ok(c) && {
                let roots = old(graph)@.outputs;
                &&& final(graph)@.nodes == select(old(graph)@.nodes, |n: NodeSpec| in_closure(old(graph)@.nodes, roots, n.id))
                &&& final(graph)@.inputs == dedup(select(old(graph)@.inputs, |x: Seq<char>| in_closure(old(graph)@.nodes, roots, x)))
                &&& final(graph)@.outputs == dedup(roots)
                &&& final(graph)@.metadata == Seq::<(Seq<char>, Seq<char>)>::empty()
                &&& final(graph)@.cid is None
                &&& c == old(graph)@.nodes.len() - final(graph)@.nodes.len()
                &&& (old(graph).wf() ==> final(graph).wf())
            },
    {
        let outputs = clone_strings(&graph.outputs);
        let sub = match graph.extract_subgraph(&outputs) {
            Ok(s) => s,
            Err(e) => { return Err(e); },
        };
        proof { lemma_select_len(graph@.nodes, |n: NodeSpec| in_closure(graph@.nodes, strs(outputs@), n.id)); }
        let removed = graph.nodes.len() - sub.nodes.len();
        *graph = sub;
        Ok(removed)
    }
}

pub proof fn lemma_select_len<A>(s: Seq<A>, p: spec_fn(A) -> bool)
    ensures select(s, p).len() <= s.len(),
    decreases s.len(),
{
    if s.len() > 0 { lemma_select_len(s.drop_last(), p); }
}


/// A distinct list of indices below `n` that covers every index below `n` has length at least `n`.
pub proof fn lemma_cover_len(s: Seq<int>, n: nat)
    requires s.no_duplicates(), forall|v: int| 0 <= v < n ==> s.contains(v),
    ensures s.len() >= n,
    decreases n,
{
    if n > 0 {
        let x = n - 1;
        assert(s.contains(x));
        let i = choose|i: int| 0 <= i < s.len() && s[i] == x;
        let t = s.remove(i);
        assert forall|v: int| 0 <= v < n - 1 implies t.contains(v) by {
            assert(s.contains(v));
            let k = choose|k: int| 0 <= k < s.len() && s[k] == v;
            if k < i {
                assert(t[k] == v);
            } else {
                assert(k != i);
                assert(t[k - 1] == v);
            }
        }
        lemma_remove_no_dup(s, i);
        lemma_cover_len(t, (n - 1) as nat);
    }
}

proof fn lemma_remove_no_dup(s: Seq<int>, i: int)
    requires s.no_duplicates(), 0 <= i < s.len(),
    ensures s.remove(i).no_duplicates(),
{
    let t = s.remove(i);
    assert forall|a: int, b: int| 0 <= a < t.len() && 0 <= b < t.len() && a != b implies t[a] != t[b] by {
        let a2 = if a < i { a } else { a + 1 };
        let b2 = if b < i { b } else { b + 1 };
        assert(t[a] == s[a2] && t[b] == s[b2]);
    }
}

/// A distinct list of indices below `n` has length at most `n`.
pub proof fn lemma_bound_len(s: Seq<int>, n: nat)
    requires s.no_duplicates(), forall|k: int| 0 <= k < s.len() ==> 0 <= #[trigger] s[k] < n,
    ensures s.len() <= n,
    decreases n,
{
    if s.len() > 0 {
        if n == 0 {
            assert(0 <= 0 < s.len());
            assert(s[0] < n);
        } else {
            let x = n - 1;
            if s.contains(x) {
                let i = choose|i: int| 0 <= i < s.len() && s[i] == x;
                let t = s.remove(i);
                lemma_remove_no_dup(s, i);
                assert forall|k: int| 0 <= k < t.len() implies 0 <= #[trigger] t[k] < n - 1 by {
                    let k2 = if k < i { k } else { k + 1 };
                    assert(t[k] == s[k2]);
                    assert(k2 != i);
                }
                lemma_bound_len(t, (n - 1) as nat);
            } else {
                assert forall|k: int| 0 <= k < s.len() implies 0 <= #[trigger] s[k] < n - 1 by {
                    if s[k] == x { assert(s.contains(x)); }
                }
                lemma_bound_len(s, (n - 1) as nat);
            }
        }
    }
}

/// A distinct list of `n` indices below `n` holds each index below `n`.
pub proof fn lemma_perm_contains(ord: Seq<int>, n: nat, v: int)
    requires
        ord.len() == n, ord.no_duplicates(),
        forall|k: int| 0 <= k < ord.len() ==> 0 <= #[trigger] ord[k] < n,
        0 <= v < n,
    ensures ord.contains(v),
{
    if !ord.contains(v) {
        // shift every index above v one down: a distinct list below n - 1 of length n
        let t = ord.map_values(|x: int| if x > v { x - 1 } else { x });
        assert(t.no_duplicates()) by {
            assert forall|a: int, b: int| 0 <= a < t.len() && 0 <= b < t.len() && a != b implies t[a] != t[b] by {
                assert(ord[a] != ord[b]);
                assert(ord[a] != v);
                assert(ord[b] != v);
            }
        }
        assert forall|k: int| 0 <= k < t.len() implies 0 <= #[trigger] t[k] < n - 1 by {
            assert(ord[k] != v);
        }
        lemma_bound_len(t, (n - 1) as nat);
    }
}

/// A graph with a cycle has no topological order.
pub proof fn lemma_cycle_no_order(nodes: Seq<NodeSpec>, ord: Seq<int>)
    requires has_cycle(nodes),
    ensures !is_topo_order(nodes, ord),
{
    if is_topo_order(nodes, ord) {
        let s = choose|s: Set<int>| cycle_witness(nodes, s);
        assert forall|v: int| 0 <= v < nodes.len() implies ord.contains(v) by {
            lemma_perm_contains(ord, nodes.len(), v);
        }
        let v0 = choose|v: int| s.contains(v);
        lemma_min_pos(nodes, ord, s, v0);
        assert(false);
    }
}

proof fn lemma_min_pos(nodes: Seq<NodeSpec>, ord: Seq<int>, s: Set<int>, v: int)
    requires
        is_topo_order(nodes, ord),
        forall|x: int| #[trigger] s.contains(x) ==> 0 <= x < nodes.len(),
        forall|x: int| #[trigger] s.contains(x) ==> exists|u: int| s.contains(u) && depends(nodes, x, u),
        forall|x: int| 0 <= x < nodes.len() ==> #[trigger] ord.contains(x),
    ensures !s.contains(v),
    decreases ord.index_of(v),
{
    if !s.contains(v) {
        return;
    }
    let u = choose|u: int| s.contains(u) && depends(nodes, v, u);
    assert(ord.contains(v));
    assert(ord.contains(u));
    let k = choose|k: int| 0 <= k < ord.len() && ord[k] == v;
    let k2 = choose|k2: int| 0 <= k2 < ord.len() && ord[k2] == u;
    assert(depends(nodes, ord[k], ord[k2]));
    assert(k2 < k);
    ord.index_of_first_ensures(v);
    ord.index_of_first_ensures(u);
    assert(ord.index_of(v) == k);
    assert(ord.index_of(u) == k2);
    lemma_min_pos(nodes, ord, s, u);
}

} // verus!
