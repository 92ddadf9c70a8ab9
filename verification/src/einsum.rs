//! Einsum computation graphs: which tensors an output depends on, how deep it
//! sits, and an order in which to fetch tensors so that inputs come first.
use vstd::prelude::*;
use crate::cid::Cid;
use crate::error::Error;
use crate::graph::{clone_strings, contains_string, strs};
use crate::tensorswap::{cid_views, EinsumExpression, TensorMetadata};

verus! {

/// Index of the first entry whose name is `k`, or -1.
pub open spec fn key_pos<V>(s: Seq<(String, V)>, k: Seq<char>) -> int
    decreases s.len(),
{
    if s.len() == 0 {
        -1
    } else if key_pos(s.drop_last(), k) >= 0 {
        key_pos(s.drop_last(), k)
    } else if s.last().0@ == k {
        s.len() - 1
    } else {
        -1
    }
}

/// The value stored under name `k`.
pub open spec fn lookup<V>(s: Seq<(String, V)>, k: Seq<char>) -> Option<V> {
    let p = key_pos(s, k);
    if p >= 0 { Some(s[p].1) } else { None }
}

/// No two entries share a name.
pub open spec fn distinct_keys<V>(s: Seq<(String, V)>) -> bool {
    forall|i: int, j: int| 0 <= i < j < s.len() ==> #[trigger] s[i].0@ != #[trigger] s[j].0@
}

proof fn lemma_key_pos<V>(s: Seq<(String, V)>, k: Seq<char>, i: int)
    requires 0 <= i <= s.len(), forall|j: int| 0 <= j < i ==> s[j].0@ != k,
    ensures
        i < s.len() && s[i].0@ == k ==> key_pos(s, k) == i,
        i == s.len() ==> key_pos(s, k) == -1,
    decreases s.len(),
{
    if s.len() > 0 {
        if i < s.len() {
            lemma_key_pos(s.drop_last(), k, i);
        } else {
            lemma_key_pos(s.drop_last(), k, i - 1);
        }
    }
}

proof fn lemma_key_pos_range<V>(s: Seq<(String, V)>, k: Seq<char>)
    ensures
        -1 <= key_pos(s, k) < s.len(),
        key_pos(s, k) >= 0 ==> s[key_pos(s, k)].0@ == k,
        key_pos(s, k) < 0 ==> forall|j: int| 0 <= j < s.len() ==> s[j].0@ != k,
    decreases s.len(),
{
    if s.len() > 0 {
        lemma_key_pos_range(s.drop_last(), k);
        if key_pos(s, k) < 0 {
            assert forall|j: int| 0 <= j < s.len() implies s[j].0@ != k by {
                if j < s.len() - 1 {
                    assert(s.drop_last()[j] == s[j]);
                }
            }
        }
    }
}

/// In a list with distinct names, the entry named like entry `i` is entry `i`.
proof fn lemma_key_pos_distinct<V>(s: Seq<(String, V)>, i: int)
    requires distinct_keys(s), 0 <= i < s.len(),
    ensures key_pos(s, s[i].0@) == i,
{
    lemma_key_pos(s, s[i].0@, i);
}

/// Replacing the value of entry `i` keeps every name where it was.
proof fn lemma_key_pos_set<V>(s: Seq<(String, V)>, i: int, x: (String, V), k: Seq<char>)
    requires 0 <= i < s.len(), x.0@ == s[i].0@,
    ensures key_pos(s.update(i, x), k) == key_pos(s, k),
    decreases s.len(),
{
    let t = s.update(i, x);
    if i < s.len() - 1 {
        assert(t.drop_last() =~= s.drop_last().update(i, x));
        lemma_key_pos_set(s.drop_last(), i, x, k);
    } else {
        assert(t.drop_last() =~= s.drop_last());
    }
}

/// Index of the entry named `k`.
fn find_key<V>(v: &Vec<(String, V)>, k: &str) -> (r: Option<usize>)
    ensures
        key_pos(v@, k@) >= 0 ==> r == Some(key_pos(v@, k@) as usize),
        key_pos(v@, k@) < 0 ==> r is None,
        r matches Some(i) ==> i < v@.len() && v@[i as int].0@ == k@ && key_pos(v@, k@) == i,
{
    let key = String::from_str(k);
    let n = v.len();
    let mut i: usize = 0;
    while i < n
        invariant i <= n, n == v@.len(), key@ == k@, forall|j: int| 0 <= j < i ==> v@[j].0@ != k@,
        decreases n - i,
    {
        if v[i].0.eq(&key) {
            proof { lemma_key_pos(v@, k@, i as int); }
            return Some(i);
        }
        i += 1;
    }
    proof { lemma_key_pos(v@, k@, i as int); }
    None
}

/// Store `val` under name `k`, replacing what was there.
fn upsert<V>(v: &mut Vec<(String, V)>, k: String, val: V)
    requires distinct_keys(old(v)@),
    ensures
        distinct_keys(final(v)@),
        forall|kk: Seq<char>| #[trigger] lookup(final(v)@, kk) == if kk == k@ { Some(val) } else { lookup(old(v)@, kk) },
{
    let ghost s = v@;
    let ghost kv = k@;
    proof { lemma_key_pos_range(s, kv); }
    match find_key(v, k.as_str()) {
        Some(i) => {
            let ghost x = (k, val);
            v.set(i, (k, val));
            assert(v@ == s.update(i as int, x));
            assert forall|kk: Seq<char>| #[trigger] lookup(v@, kk) == if kk == kv { Some(val) } else { lookup(s, kk) } by {
                lemma_key_pos_set(s, i as int, x, kk);
                lemma_key_pos_range(s, kk);
            }
            assert forall|a: int, b: int| 0 <= a < b < v@.len() implies #[trigger] v@[a].0@ != #[trigger] v@[b].0@ by {
                assert(s[a].0@ != s[b].0@);
            }
        },
        None => {
            v.push((k, val));
            assert(v@.drop_last() =~= s);
            assert forall|kk: Seq<char>| #[trigger] lookup(v@, kk) == if kk == kv { Some(val) } else { lookup(s, kk) } by {
                lemma_key_pos_range(s, kk);
            }
        },
    }
}

/// The CID views of an optional CID.
pub open spec fn opt_cid(c: Option<Cid>) -> Option<Seq<u8>> {
    match c {
        Some(x) => Some(x@),
        None => None,
    }
}

/// The CIDs of the tensors named in `names`, in order; `None` when one of
/// them is not registered.
pub open spec fn resolve(cids: Seq<(String, Cid)>, names: Seq<Seq<char>>) -> Option<Seq<Seq<u8>>>
    decreases names.len(),
{
    if names.len() == 0 {
        Some(Seq::empty())
    } else {
        match (resolve(cids, names.drop_last()), opt_cid(lookup(cids, names.last()))) {
            (Some(p), Some(c)) => Some(p.push(c)),
            _ => None,
        }
    }
}

proof fn lemma_resolve_prefix_none(cids: Seq<(String, Cid)>, names: Seq<Seq<char>>, k: int)
    requires 0 < k <= names.len(), resolve(cids, names.subrange(0, k)) is None,
    ensures resolve(cids, names) is None,
    decreases names.len() - k,
{
    if k < names.len() {
        assert(names.subrange(0, k + 1).drop_last() =~= names.subrange(0, k));
        lemma_resolve_prefix_none(cids, names, k + 1);
    } else {
        assert(names.subrange(0, k) =~= names);
    }
}

/// Every dependency edge goes to a strictly smaller rank, and no rank
/// exceeds the number of outputs with dependencies.
pub open spec fn ranked(deps: Seq<(String, Vec<String>)>, r: spec_fn(Seq<char>) -> nat) -> bool {
    &&& forall|k: Seq<char>| #[trigger] r(k) <= deps.len()
    &&& forall|i: int, j: int| 0 <= i < deps.len() && 0 <= j < deps[i].1@.len()
        ==> #[trigger] r(deps[i].1@[j]@) < r(deps[i].0@)
}

/// The largest depth among `ins`, each counted only where it ranks below `parent`.
pub open spec fn max_depth(deps: Seq<(String, Vec<String>)>, r: spec_fn(Seq<char>) -> nat, parent: Seq<char>, ins: Seq<String>) -> nat
    decreases r(parent), ins.len(),
{
    if ins.len() == 0 {
        0
    } else {
        let rest = max_depth(deps, r, parent, ins.drop_last());
        let d = ins.last()@;
        let here = if r(d) < r(parent) { depth_of(deps, r, d) } else { 0 };
        if here > rest { here } else { rest }
    }
}

/// The depth of `name`: 0 without dependencies, else one more than the
/// deepest dependency.
pub open spec fn depth_of(deps: Seq<(String, Vec<String>)>, r: spec_fn(Seq<char>) -> nat, name: Seq<char>) -> nat
    decreases r(name), (match lookup(deps, name) { Some(ins) => ins@.len(), None => 0 }) + 1,
{
    match lookup(deps, name) {
        Some(ins) => if ins@.len() == 0 { 0 } else { 1 + max_depth(deps, r, name, ins@) },
        None => 0,
    }
}

proof fn lemma_depth_bound(deps: Seq<(String, Vec<String>)>, r: spec_fn(Seq<char>) -> nat, name: Seq<char>)
    requires ranked(deps, r),
    ensures depth_of(deps, r, name) <= r(name),
    decreases r(name), (match lookup(deps, name) { Some(ins) => ins@.len(), None => 0 }) + 1,
{
    lemma_key_pos_range(deps, name);
    match lookup(deps, name) {
        Some(ins) => {
            if ins@.len() > 0 {
                let p = key_pos(deps, name);
                assert(r(deps[p].1@[0]@) < r(deps[p].0@));
                lemma_max_depth_bound(deps, r, name, ins@);
            }
        },
        None => {},
    }
}

proof fn lemma_max_depth_bound(deps: Seq<(String, Vec<String>)>, r: spec_fn(Seq<char>) -> nat, parent: Seq<char>, ins: Seq<String>)
    requires ranked(deps, r), r(parent) >= 1,
    ensures max_depth(deps, r, parent, ins) < r(parent),
    decreases r(parent), ins.len(),
{
    if ins.len() > 0 {
        lemma_max_depth_bound(deps, r, parent, ins.drop_last());
        let d = ins.last()@;
        if r(d) < r(parent) {
            lemma_depth_bound(deps, r, d);
        }
    }
}

/// The names of a keyed list, in order.
pub open spec fn key_names<V>(s: Seq<(String, V)>) -> Seq<Seq<char>> {
    s.map_values(|p: (String, V)| p.0@)
}

/// Every output name and every input name of the dependency table.
pub open spec fn dep_names(d: Seq<(String, Vec<String>)>) -> Seq<Seq<char>>
    decreases d.len(),
{
    if d.len() == 0 {
        Seq::empty()
    } else {
        dep_names(d.drop_last()) + seq![d.last().0@] + strs(d.last().1@)
    }
}

proof fn lemma_dep_names(d: Seq<(String, Vec<String>)>, i: int, j: int)
    requires 0 <= i < d.len(), 0 <= j < d[i].1@.len(),
    ensures dep_names(d).contains(d[i].1@[j]@),
    decreases d.len(),
{
    let p = dep_names(d.drop_last());
    let t = strs(d.last().1@);
    if i < d.len() - 1 {
        lemma_dep_names(d.drop_last(), i, j);
        let w = choose|w: int| 0 <= w < p.len() && p[w] == d[i].1@[j]@;
        assert(dep_names(d)[w] == p[w]);
    } else {
        assert(dep_names(d)[p.len() + 1 + j] == t[j]);
    }
}

/// How many entries of `u` are not in `vis`.
pub open spec fn unvisited(u: Seq<Seq<char>>, vis: Seq<Seq<char>>) -> nat
    decreases u.len(),
{
    if u.len() == 0 {
        0
    } else {
        unvisited(u.drop_last(), vis) + if vis.contains(u.last()) { 0nat } else { 1nat }
    }
}

proof fn lemma_unvisited_mono(u: Seq<Seq<char>>, a: Seq<Seq<char>>, b: Seq<Seq<char>>)
    requires forall|x: Seq<char>| a.contains(x) ==> b.contains(x),
    ensures unvisited(u, b) <= unvisited(u, a),
    decreases u.len(),
{
    if u.len() > 0 {
        lemma_unvisited_mono(u.drop_last(), a, b);
    }
}

proof fn lemma_unvisited_strict(u: Seq<Seq<char>>, a: Seq<Seq<char>>, b: Seq<Seq<char>>, x: Seq<char>)
    requires forall|y: Seq<char>| a.contains(y) ==> b.contains(y), u.contains(x), !a.contains(x), b.contains(x),
    ensures unvisited(u, b) < unvisited(u, a),
    decreases u.len(),
{
    lemma_unvisited_mono(u.drop_last(), a, b);
    if u.last() != x {
        let w = choose|w: int| 0 <= w < u.len() && u[w] == x;
        assert(u.drop_last()[w] == x);
        lemma_unvisited_strict(u.drop_last(), a, b, x);
    }
}

/// Extending a list keeps where the names already in it are found.
proof fn lemma_key_pos_extend<V>(s: Seq<(String, V)>, t: Seq<(String, V)>, k: Seq<char>)
    requires s.len() <= t.len(), t.subrange(0, s.len() as int) == s, key_pos(s, k) >= 0,
    ensures key_pos(t, k) == key_pos(s, k),
    decreases t.len(),
{
    if t.len() > s.len() {
        assert(t.drop_last().subrange(0, s.len() as int) =~= s);
        lemma_key_pos_extend(s, t.drop_last(), k);
    } else {
        assert(t =~= s);
    }
}

/// Einsum computation graph: the expressions, the CID of each named tensor,
/// and for each output the names of its inputs.
#[derive(Debug)]
pub struct EinsumGraph {
    expressions: Vec<EinsumExpression>,
    tensor_cids: Vec<(String, Cid)>,
    dependencies: Vec<(String, Vec<String>)>,
}

impl EinsumGraph {
    /// The registered tensors, each name once.
    pub closed spec fn cids(&self) -> Seq<(String, Cid)> {
        self.tensor_cids@
    }

    /// For each output with an expression, the names of its inputs; each output once.
    pub closed spec fn deps(&self) -> Seq<(String, Vec<String>)> {
        self.dependencies@
    }

    /// The expressions added so far, in order.
    pub closed spec fn exprs(&self) -> Seq<EinsumExpression> {
        self.expressions@
    }

    /// Names are unique in both tables.
    pub open spec fn wf(&self) -> bool {
        distinct_keys(self.cids()) && distinct_keys(self.deps())
    }

    /// The CID registered under `name`.
    pub open spec fn cid_of(&self, name: Seq<char>) -> Option<Seq<u8>> {
        opt_cid(lookup(self.cids(), name))
    }

    /// The input names recorded for output `name`.
    pub open spec fn inputs_of(&self, name: Seq<char>) -> Option<Seq<Seq<char>>> {
        match lookup(self.deps(), name) {
            Some(v) => Some(strs(v@)),
            None => None,
        }
    }

    /// The dependencies admit a ranking: no output depends on itself through a chain.
    pub open spec fn acyclic(&self) -> bool {
        exists|r: spec_fn(Seq<char>) -> nat| ranked(self.deps(), r)
    }

    /// A ranking of the dependencies, where there is one.
    pub open spec fn rank(&self) -> spec_fn(Seq<char>) -> nat {
        choose|r: spec_fn(Seq<char>) -> nat| ranked(self.deps(), r)
    }

    /// The depth of `name` in an acyclic graph.
    pub open spec fn depth(&self, name: Seq<char>) -> nat {
        depth_of(self.deps(), self.rank(), name)
    }

    /// `name` has a registered CID.
    pub open spec fn registered(&self, name: Seq<char>) -> bool {
        key_pos(self.cids(), name) >= 0
    }

    /// `order` lists registered tensors with their CIDs, each name once,
    /// all of them in `vis`.
    pub open spec fn order_ok(&self, order: Seq<(String, Cid)>, vis: Seq<Seq<char>>) -> bool {
        &&& forall|q: int| 0 <= q < order.len() ==> self.cid_of((#[trigger] order[q]).0@) == Some(order[q].1@)
        &&& distinct_keys(order)
        &&& forall|q: int| 0 <= q < order.len() ==> vis.contains((#[trigger] order[q]).0@)
    }

    /// Every registered input of a listed tensor is listed before it.
    pub open spec fn inputs_first(&self, order: Seq<(String, Cid)>) -> bool {
        forall|q: int, j: int| 0 <= q < order.len() && self.inputs_of(order[q].0@) is Some
            && 0 <= j < self.inputs_of(order[q].0@)->Some_0.len()
            && #[trigger] self.registered(self.inputs_of(order[q].0@)->Some_0[j])
            ==> 0 <= key_pos(order, self.inputs_of(order[q].0@)->Some_0[j]) < q
    }

    /// `x` was reached but is not listed yet although registered: its
    /// visit is still under way.
    pub open spec fn is_open(&self, vis: Seq<Seq<char>>, order: Seq<(String, Cid)>, x: Seq<char>) -> bool {
        vis.contains(x) && self.registered(x) && key_pos(order, x) < 0
    }

    /// Create a new einsum graph.
    pub fn new() -> (r: Self)
        ensures r.wf(), r.cids().len() == 0, r.deps().len() == 0, r.exprs().len() == 0,
    {
        EinsumGraph { expressions: Vec::new(), tensor_cids: Vec::new(), dependencies: Vec::new() }
    }

    /// Add an einsum expression: its output now depends on its inputs
    /// (replacing what was recorded for that output).
    pub fn add_expression(&mut self, expr: EinsumExpression)
        requires old(self).wf(),
        ensures
            final(self).wf(),
            final(self).cids() == old(self).cids(),
            final(self).exprs() == old(self).exprs().push(expr),
            forall|k: Seq<char>| #[trigger] final(self).inputs_of(k)
                == if k == expr.output@ { Some(strs(expr.inputs@)) } else { old(self).inputs_of(k) },
    {
        let output = expr.output.clone();
        let inputs = clone_strings(&expr.inputs);
        upsert(&mut self.dependencies, output, inputs);
        self.expressions.push(expr);
    }

    /// Register a tensor CID under `name` (replacing an earlier one).
    pub fn register_tensor(&mut self, name: &str, cid: Cid)
        requires old(self).wf(),
        ensures
            final(self).wf(),
            final(self).deps() == old(self).deps(),
            final(self).exprs() == old(self).exprs(),
            forall|k: Seq<char>| #[trigger] final(self).cid_of(k) == if k == name@ { Some(cid@) } else { old(self).cid_of(k) },
    {
        let ghost cv = cid;
        upsert(&mut self.tensor_cids, String::from_str(name), cid);
        assert forall|k: Seq<char>| #[trigger] self.cid_of(k) == if k == name@ { Some(cv@) } else { old(self).cid_of(k) } by {
            assert(lookup(self.tensor_cids@, k) == if k == name@ { Some(cv) } else { lookup(old(self).tensor_cids@, k) });
        }
    }

    /// All registered tensors with their CIDs.
    pub fn tensor_cids(&self) -> (r: &Vec<(String, Cid)>)
        ensures r@ == self.cids(),
    {
        &self.tensor_cids
    }

    /// The CID registered under `name`.
    fn cid_for(&self, name: &str) -> (r: Option<Cid>)
        ensures opt_cid(r) == self.cid_of(name@),
    {
        match find_key(&self.tensor_cids, name) {
            Some(i) => Some(self.tensor_cids[i].1.clone()),
            None => None,
        }
    }

    /// The CIDs of the inputs of output `tensor_name`, in order; `None` when
    /// it has no expression or one of its inputs is not registered.
    pub fn get_dependencies(&self, tensor_name: &str) -> (r: Option<Vec<Cid>>)
        ensures
            match r {
                Some(v) => self.inputs_of(tensor_name@) matches Some(ins)
                    && resolve(self.cids(), ins) == Some(cid_views(v@)),
                None => match self.inputs_of(tensor_name@) {
                    Some(ins) => resolve(self.cids(), ins) is None,
                    None => true,
                },
            },
    {
        let p = match find_key(&self.dependencies, tensor_name) {
            Some(p) => p,
            None => return None,
        };
        let names = &self.dependencies[p].1;
        let ghost ins = strs(names@);
        assert(self.inputs_of(tensor_name@) == Some(ins));
        let mut out: Vec<Cid> = Vec::new();
        let mut i: usize = 0;
        while i < names.len()
            invariant
                i <= names.len(), ins == strs(names@), self.inputs_of(tensor_name@) == Some(ins),
                resolve(self.cids(), ins.subrange(0, i as int)) == Some(cid_views(out@)),
            decreases names.len() - i,
        {
            assert(ins.subrange(0, i + 1).drop_last() =~= ins.subrange(0, i as int));
            assert(ins.subrange(0, i + 1).last() == names@[i as int]@);
            match self.cid_for(names[i].as_str()) {
                Some(c) => {
                    let ghost before = out@;
                    out.push(c);
                    assert(cid_views(out@) =~= cid_views(before).push(c@));
                },
                None => {
                    proof { lemma_resolve_prefix_none(self.cids(), ins, i as int + 1); }
                    return None;
                },
            }
            i += 1;
        }
        assert(ins.subrange(0, names.len() as int) =~= ins);
        Some(out)
    }

    /// The depth of `name`: 0 without dependencies, else one more than its
    /// deepest input.
    fn compute_depth(&self, name: &str) -> (r: usize)
        requires
            self.wf(), ranked(self.deps(), self.rank()),
        ensures r == self.depth(name@),
        decreases self.rank()(name@),
    {
        let ghost rk = self.rank();
        let ghost deps = self.deps();
        let nd = self.dependencies.len();
        proof { lemma_key_pos_range(deps, name@); }
        let p = match find_key(&self.dependencies, name) {
            Some(p) => p,
            None => return 0,
        };
        let ins = &self.dependencies[p].1;
        if ins.len() == 0 {
            return 0;
        }
        let mut best: usize = 0;
        let mut i: usize = 0;
        while i < ins.len()
            invariant
                i <= ins.len(), self.wf(), deps == self.deps(), ranked(deps, rk),
                rk == self.rank(),
                0 <= p < deps.len(), deps[p as int].0@ == name@, ins@ == deps[p as int].1@,
                best == max_depth(deps, rk, name@, ins@.subrange(0, i as int)),
            decreases ins.len() - i,
        {
            assert(ins@.subrange(0, i + 1).drop_last() =~= ins@.subrange(0, i as int));
            assert(rk(deps[p as int].1@[i as int]@) < rk(deps[p as int].0@));
            let d = self.compute_depth(ins[i].as_str());
            if d > best {
                best = d;
            }
            i += 1;
        }
        assert(ins@.subrange(0, ins.len() as int) =~= ins@);
        proof {
            lemma_depth_bound(deps, rk, name@);
            assert(rk(name@) <= nd);
        }
        best + 1
    }

    /// Priority of `tensor_name`: leaves highest, 100 less per level of depth.
    pub fn compute_priority(&self, tensor_name: &str) -> (r: i32)
        requires self.wf(), self.acyclic(), self.depth(tensor_name@) * 100 <= i32::MAX,
        ensures r == 1000 - 100 * self.depth(tensor_name@),
    {
        let depth = self.compute_depth(tensor_name);
        1000 - (depth as i32) * 100
    }

    /// Metadata for tensor `tensor_name`: its CID, the CIDs of its inputs
    /// (none when they cannot all be resolved) and its priority; `None` when
    /// it is not registered.
    pub fn generate_metadata(&self, tensor_name: &str) -> (r: Option<TensorMetadata>)
        requires self.wf(), self.acyclic(), self.depth(tensor_name@) * 100 <= i32::MAX,
        ensures
            r is Some <==> self.cid_of(tensor_name@) is Some,
            r matches Some(m) ==> {
                &&& Some(m.cid@) == self.cid_of(tensor_name@)
                &&& m.priority_hint == Some((1000 - 100 * self.depth(tensor_name@)) as i32)
                &&& cid_views(m.dependencies@) == match self.inputs_of(tensor_name@) {
                    Some(ins) => match resolve(self.cids(), ins) { Some(c) => c, None => Seq::empty() },
                    None => Seq::empty(),
                }
                &&& m.shape is None && m.dtype is None && m.deadline is None && m.size_bytes is None
                &&& m.chunks@.len() == 0 && m.layer_name is None && !m.is_critical
            },
    {
        let cid = match self.cid_for(tensor_name) {
            Some(c) => c,
            None => return None,
        };
        let deps = match self.get_dependencies(tensor_name) {
            Some(d) => d,
            None => Vec::new(),
        };
        let priority = self.compute_priority(tensor_name);
        Some(TensorMetadata::new(cid).with_dependencies(deps).with_priority_hint(priority))
    }
}

/// An input of an output ranks below it.
proof fn lemma_input_ranked(g: EinsumGraph, name: Seq<char>, j: int)
    requires g.acyclic(), g.inputs_of(name) is Some, 0 <= j < g.inputs_of(name)->Some_0.len(),
    ensures
        g.rank()(g.inputs_of(name)->Some_0[j]) < g.rank()(name),
{
    let deps = g.deps();
    lemma_key_pos_range(deps, name);
    let p = key_pos(deps, name);
    assert(ranked(deps, g.rank()));
    assert(g.inputs_of(name)->Some_0[j] == deps[p].1@[j]@);
}

proof fn lemma_max_depth_at_least(deps: Seq<(String, Vec<String>)>, r: spec_fn(Seq<char>) -> nat, parent: Seq<char>, ins: Seq<String>, j: int)
    requires 0 <= j < ins.len(), r(ins[j]@) < r(parent),
    ensures max_depth(deps, r, parent, ins) >= depth_of(deps, r, ins[j]@),
    decreases ins.len(),
{
    if j < ins.len() - 1 {
        lemma_max_depth_at_least(deps, r, parent, ins.drop_last(), j);
        assert(ins.drop_last()[j] == ins[j]);
    }
}

/// In an acyclic graph every input of an output lies strictly shallower,
/// so it gets a strictly higher priority: inputs are fetched first.
pub proof fn lemma_input_shallower(g: EinsumGraph, name: Seq<char>, j: int)
    requires g.acyclic(), g.inputs_of(name) is Some, 0 <= j < g.inputs_of(name)->Some_0.len(),
    ensures
        g.depth(g.inputs_of(name)->Some_0[j]) < g.depth(name),
        1000 - 100 * g.depth(g.inputs_of(name)->Some_0[j]) > 1000 - 100 * g.depth(name),
{
    let deps = g.deps();
    let rk = g.rank();
    lemma_key_pos_range(deps, name);
    let p = key_pos(deps, name);
    let ins = deps[p].1@;
    assert(ranked(deps, rk));
    assert(g.inputs_of(name)->Some_0[j] == ins[j]@);
    assert(rk(ins[j]@) < rk(deps[p].0@));
    lemma_max_depth_at_least(deps, rk, name, ins, j);
}

/// Every input name of an output belongs to the dependency table's names.
proof fn lemma_input_named(g: EinsumGraph, name: Seq<char>, j: int)
    requires g.inputs_of(name) is Some, 0 <= j < g.inputs_of(name)->Some_0.len(),
    ensures dep_names(g.deps()).contains(g.inputs_of(name)->Some_0[j]),
{
    let deps = g.deps();
    lemma_key_pos_range(deps, name);
    let p = key_pos(deps, name);
    lemma_dep_names(deps, p, j);
}

impl EinsumGraph {
    /// Visit `name` depth first: each input (once per name, registered or
    /// not), then the tensor itself when it is registered.
    fn visit(&self, name: &String, visited: &mut Vec<String>, order: &mut Vec<(String, Cid)>, Ghost(u): Ghost<Seq<Seq<char>>>)
        requires
            self.wf(),
            u == key_names(self.cids()) + dep_names(self.deps()),
            u.contains(name@),
            self.order_ok(old(order)@, strs(old(visited)@)),
            self.acyclic() ==> self.inputs_first(old(order)@),
            self.acyclic() ==> forall|x: Seq<char>| #[trigger] self.is_open(strs(old(visited)@), old(order)@, x)
                ==> self.rank()(x) > self.rank()(name@),
        ensures
            forall|x: Seq<char>| strs(old(visited)@).contains(x) ==> #[trigger] strs(final(visited)@).contains(x),
            strs(final(visited)@).contains(name@),
            old(order)@.len() <= final(order)@.len(),
            final(order)@.subrange(0, old(order)@.len() as int) == old(order)@,
            self.order_ok(final(order)@, strs(final(visited)@)),
            self.acyclic() ==> self.inputs_first(final(order)@),
            forall|x: Seq<char>| #[trigger] self.is_open(strs(final(visited)@), final(order)@, x)
                ==> self.is_open(strs(old(visited)@), old(order)@, x),
            forall|q: int| old(order)@.len() <= q < final(order)@.len()
                ==> !strs(old(visited)@).contains((#[trigger] final(order)@[q]).0@),
            self.acyclic() && self.registered(name@) ==> key_pos(final(order)@, name@) >= 0,
        decreases unvisited(u, strs(old(visited)@)),
    {
        let ghost vis0 = strs(visited@);
        let ghost ord0 = order@;
        if contains_string(visited, name) {
            proof {
                assert(final(order)@.subrange(0, ord0.len() as int) =~= ord0);
                if self.acyclic() && self.registered(name@) && key_pos(order@, name@) < 0 {
                    assert(self.is_open(vis0, ord0, name@));
                }
            }
            return;
        }
        visited.push(name.clone());
        let ghost vis1 = strs(visited@);
        proof {
            assert(vis1 =~= vis0.push(name@));
            assert forall|x: Seq<char>| vis0.contains(x) implies vis1.contains(x) by {
                let w = choose|w: int| 0 <= w < vis0.len() && vis0[w] == x;
                assert(vis1[w] == x);
            }
            assert(vis1[vis0.len() as int] == name@);
            lemma_unvisited_strict(u, vis0, vis1, name@);
            assert(ord0.subrange(0, ord0.len() as int) =~= ord0);
        }
        let ghost ins_spec = match self.inputs_of(name@) { Some(v) => v, None => Seq::<Seq<char>>::empty() };
        let empty: Vec<String> = Vec::new();
        let ins: &Vec<String> = match find_key(&self.dependencies, name.as_str()) {
            Some(p) => &self.dependencies[p].1,
            None => &empty,
        };
        assert(strs(ins@) == ins_spec);
        let mut i: usize = 0;
        while i < ins.len()
            invariant
                self.wf(), u == key_names(self.cids()) + dep_names(self.deps()),
                i <= ins.len(), strs(ins@) == ins_spec,
                ins_spec == match self.inputs_of(name@) { Some(v) => v, None => Seq::<Seq<char>>::empty() },
                vis0 == strs(old(visited)@), ord0 == old(order)@, vis1 == vis0.push(name@), !vis0.contains(name@),
                self.order_ok(ord0, vis0),
                self.acyclic() ==> forall|x: Seq<char>| #[trigger] self.is_open(vis0, ord0, x)
                    ==> self.rank()(x) > self.rank()(name@),
                forall|x: Seq<char>| vis1.contains(x) ==> #[trigger] strs(visited@).contains(x),
                ord0.len() <= order@.len(), order@.subrange(0, ord0.len() as int) == ord0,
                self.order_ok(order@, strs(visited@)),
                self.acyclic() ==> self.inputs_first(order@),
                forall|x: Seq<char>| #[trigger] self.is_open(strs(visited@), order@, x) ==> self.is_open(vis1, ord0, x),
                forall|q: int| ord0.len() <= q < order@.len() ==> !vis1.contains((#[trigger] order@[q]).0@),
                unvisited(u, strs(visited@)) < unvisited(u, vis0),
                self.acyclic() ==> forall|j: int| 0 <= j < i && #[trigger] self.registered(ins_spec[j])
                    ==> key_pos(order@, ins_spec[j]) >= 0,
            decreases ins.len() - i,
        {
            let ghost vis_before = strs(visited@);
            let ghost ord_before = order@;
            proof {
                assert(ins_spec[i as int] == ins@[i as int]@);
                assert(self.inputs_of(name@) is Some);
                lemma_input_named(*self, name@, i as int);
                let dn = dep_names(self.deps());
                let w = choose|w: int| 0 <= w < dn.len() && dn[w] == ins_spec[i as int];
                assert(u[key_names(self.cids()).len() as int + w] == ins_spec[i as int]);
                if self.acyclic() {
                    lemma_input_ranked(*self, name@, i as int);
                    assert forall|x: Seq<char>| #[trigger] self.is_open(vis_before, ord_before, x)
                        implies self.rank()(x) > self.rank()(ins@[i as int]@) by {
                        assert(self.is_open(vis1, ord0, x));
                        if x != name@ {
                            let w2 = choose|w2: int| 0 <= w2 < vis1.len() && vis1[w2] == x;
                            assert(vis0[w2] == x);
                            assert(self.is_open(vis0, ord0, x));
                        }
                    }
                }
            }
            self.visit(&ins[i], visited, order, Ghost(u));
            proof {
                let vis_after = strs(visited@);
                let ord_after = order@;
                lemma_unvisited_mono(u, vis_before, vis_after);
                assert(ord_after.subrange(0, ord0.len() as int) =~= ord_after.subrange(0, ord_before.len() as int).subrange(0, ord0.len() as int));
                assert forall|q: int| ord0.len() <= q < ord_after.len() implies !vis1.contains((#[trigger] ord_after[q]).0@) by {
                    if q < ord_before.len() {
                        assert(ord_after[q] == ord_after.subrange(0, ord_before.len() as int)[q]);
                    }
                }
                if self.acyclic() {
                    assert forall|j: int| 0 <= j < i + 1 && #[trigger] self.registered(ins_spec[j])
                        implies key_pos(ord_after, ins_spec[j]) >= 0 by {
                        if j < i {
                            lemma_key_pos_extend(ord_before, ord_after, ins_spec[j]);
                        } else {
                            assert(ins_spec[j] == ins@[i as int]@);
                        }
                    }
                }
            }
            i += 1;
        }
        let ghost vis2 = strs(visited@);
        let ghost ord2 = order@;
        match self.cid_for(name.as_str()) {
            Some(c) => {
                let ghost entry = (name@, c@);
                order.push((name.clone(), c));
                proof {
                    let ord3 = order@;
                    assert(ord3.drop_last() =~= ord2);
                    lemma_key_pos_range(ord2, name@);
                    assert(vis2.contains(name@)) by { assert(vis1[vis0.len() as int] == name@); }
                    assert forall|q: int| 0 <= q < ord2.len() implies (#[trigger] ord2[q]).0@ != name@ by {
                        if q < ord0.len() {
                            assert(ord2[q] == ord2.subrange(0, ord0.len() as int)[q]);
                            assert(vis0.contains(ord0[q].0@));
                        } else {
                            assert(!vis1.contains(ord2[q].0@));
                        }
                    }
                    assert(key_pos(ord2, name@) < 0);
                    assert(key_pos(ord3, name@) == ord2.len());
                    assert(ord3.subrange(0, ord2.len() as int) =~= ord2);
                    assert(ord3.subrange(0, ord0.len() as int) =~= ord2.subrange(0, ord0.len() as int));
                    assert forall|x: Seq<char>| #[trigger] self.is_open(vis2, ord3, x) implies self.is_open(vis0, ord0, x) by {
                        if key_pos(ord2, x) >= 0 {
                            lemma_key_pos_extend(ord2, ord3, x);
                        }
                        assert(self.is_open(vis2, ord2, x));
                        assert(self.is_open(vis1, ord0, x));
                        let w2 = choose|w2: int| 0 <= w2 < vis1.len() && vis1[w2] == x;
                        assert(vis0[w2] == x);
                    }
                    if self.acyclic() {
                        assert forall|q: int, j: int| 0 <= q < ord3.len() && self.inputs_of(ord3[q].0@) is Some
                            && 0 <= j < self.inputs_of(ord3[q].0@)->Some_0.len()
                            && #[trigger] self.registered(self.inputs_of(ord3[q].0@)->Some_0[j])
                            implies 0 <= key_pos(ord3, self.inputs_of(ord3[q].0@)->Some_0[j]) < q by {
                            let d = self.inputs_of(ord3[q].0@)->Some_0[j];
                            if q < ord2.len() {
                                assert(ord3[q] == ord2[q]);
                                lemma_key_pos_extend(ord2, ord3, d);
                            } else {
                                assert(ord3[q].0@ == name@);
                                assert(d == ins_spec[j]);
                                lemma_key_pos_range(ord2, d);
                                lemma_key_pos_extend(ord2, ord3, d);
                            }
                        }
                    }
                    assert forall|q: int| 0 <= q < ord3.len() implies self.cid_of((#[trigger] ord3[q]).0@) == Some(ord3[q].1@) by {
                        if q < ord2.len() { assert(ord3[q] == ord2[q]); }
                    }
                    assert forall|a: int, b: int| 0 <= a < b < ord3.len() implies #[trigger] ord3[a].0@ != #[trigger] ord3[b].0@ by {
                        if b < ord2.len() {
                            assert(ord3[a] == ord2[a] && ord3[b] == ord2[b]);
                        } else {
                            assert(ord3[a] == ord2[a]);
                        }
                    }
                    assert forall|q: int| 0 <= q < ord3.len() implies vis2.contains((#[trigger] ord3[q]).0@) by {
                        if q < ord2.len() { assert(ord3[q] == ord2[q]); }
                    }
                    assert forall|q: int| ord0.len() <= q < ord3.len() implies !vis0.contains((#[trigger] ord3[q]).0@) by {
                        if q < ord2.len() {
                            assert(ord3[q] == ord2[q]);
                            assert(!vis1.contains(ord2[q].0@));
                            if vis0.contains(ord2[q].0@) {
                                let w2 = choose|w2: int| 0 <= w2 < vis0.len() && vis0[w2] == ord2[q].0@;
                                assert(vis1[w2] == ord2[q].0@);
                            }
                        }
                    }
                }
            },
            None => {
                proof {
                    assert(!self.registered(name@));
                    assert forall|x: Seq<char>| #[trigger] self.is_open(vis2, ord2, x) implies self.is_open(vis0, ord0, x) by {
                        assert(self.is_open(vis1, ord0, x));
                        let w2 = choose|w2: int| 0 <= w2 < vis1.len() && vis1[w2] == x;
                        assert(vis0[w2] == x);
                    }
                    assert forall|q: int| ord0.len() <= q < ord2.len() implies !vis0.contains((#[trigger] ord2[q]).0@) by {
                        assert(!vis1.contains(ord2[q].0@));
                        if vis0.contains(ord2[q].0@) {
                            let w2 = choose|w2: int| 0 <= w2 < vis0.len() && vis0[w2] == ord2[q].0@;
                            assert(vis1[w2] == ord2[q].0@);
                        }
                    }
                    assert(vis2.contains(name@)) by { assert(vis1[vis0.len() as int] == name@); }
                }
            },
        }
    }

    /// An order in which to fetch the registered tensors: each once, names
    /// taken in registration order and visited depth first, so that in an
    /// acyclic graph every registered input comes before its output.
    pub fn topological_order(&self) -> (r: Result<Vec<(String, Cid)>, Error>)
        requires self.wf(),
        ensures
            r is Ok,
            r matches Ok(order) ==> {
                &&& forall|q: int| 0 <= q < order@.len() ==> self.cid_of((#[trigger] order@[q]).0@) == Some(order@[q].1@)
                &&& distinct_keys(order@)
                &&& forall|k: Seq<char>| #[trigger] self.registered(k) ==> key_pos(order@, k) >= 0
                &&& self.acyclic() ==> self.inputs_first(order@)
            },
    {
        let ghost u = key_names(self.cids()) + dep_names(self.deps());
        let mut visited: Vec<String> = Vec::new();
        let mut order: Vec<(String, Cid)> = Vec::new();
        let n = self.tensor_cids.len();
        let mut k: usize = 0;
        while k < n
            invariant
                self.wf(), u == key_names(self.cids()) + dep_names(self.deps()), k <= n, n == self.cids().len(),
                self.order_ok(order@, strs(visited@)),
                self.acyclic() ==> self.inputs_first(order@),
                forall|x: Seq<char>| !#[trigger] self.is_open(strs(visited@), order@, x),
                forall|j: int| 0 <= j < k ==> key_pos(order@, (#[trigger] self.cids()[j]).0@) >= 0,
            decreases n - k,
        {
            let ghost ord_before = order@;
            proof {
                assert(u[k as int] == self.cids()[k as int].0@);
            }
            self.visit(&self.tensor_cids[k].0, &mut visited, &mut order, Ghost(u));
            proof {
                let name = self.cids()[k as int].0@;
                lemma_key_pos_distinct(self.cids(), k as int);
                if key_pos(order@, name) < 0 {
                    assert(self.is_open(strs(visited@), order@, name));
                }
                assert forall|j: int| 0 <= j < k + 1 implies key_pos(order@, (#[trigger] self.cids()[j]).0@) >= 0 by {
                    if j < k {
                        lemma_key_pos_extend(ord_before, order@, self.cids()[j].0@);
                    }
                }
            }
            k += 1;
        }
        proof {
            assert forall|x: Seq<char>| #[trigger] self.registered(x) implies key_pos(order@, x) >= 0 by {
                lemma_key_pos_range(self.cids(), x);
                let j = key_pos(self.cids(), x);
                assert(self.cids()[j].0@ == x);
            }
        }
        Ok(order)
    }
}

} // verus!
