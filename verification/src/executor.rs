//! The graph executor.
//!
//! An execution is planned from a validated graph, then driven step by step:
//! `next_firing` assembles and persists the next node's input and describes
//! the child process to run; the caller runs it and hands the outcome to
//! `record_outcome`, which persists the output, appends exactly one trace
//! record, and advances; `finish` persists the execution summary. The caller
//! performs only process and file work: every decision is made, and proved,
//! here.

use vstd::prelude::*;
use crate::json::{Json, JsonV, canon_of, dec_of, encode_json, json_of_u128};
use crate::graph::{GraphSpec, edges_ok, valid_topo_order, topo_sortable, topo_order};
use crate::store::{Kernel, KernelError, TracePacket, hash_of, persist_model};
use crate::trusted::{fresh_uuid, now_rfc3339};
use vstd::string::StrSliceExecFns;

verus! {

broadcast use vstd::std_specs::vec::group_vec_axioms, vstd::seq::group_seq_axioms;

/// The views of a vector of strings.
pub open spec fn strings_view(v: Seq<String>) -> Seq<Seq<char>> {
    Seq::new(v.len(), |i: int| if 0 <= i < v.len() { v[i]@ } else { Seq::empty() })
}

/// The first index at or after `i` whose name is `nm`, or `names.len()`.
pub open spec fn find_name(names: Seq<Seq<char>>, nm: Seq<char>, i: int) -> int
    decreases names.len() - i,
{
    if i < 0 || i >= names.len() {
        names.len() as int
    } else if names[i] == nm {
        i
    } else {
        find_name(names, nm, i + 1)
    }
}

/// `find_name` stays within `[i, names.len()]`.
pub proof fn lemma_find_name_bounds(names: Seq<Seq<char>>, nm: Seq<char>, i: int)
    requires
        0 <= i <= names.len(),
    ensures
        i <= find_name(names, nm, i) <= names.len(),
    decreases names.len() - i,
{
    if i < names.len() && names[i] != nm {
        lemma_find_name_bounds(names, nm, i + 1);
    }
}

/// The node names of a graph, in declaration order.
pub open spec fn names_of(g: &GraphSpec) -> Seq<Seq<char>> {
    Seq::new(g.nodes@.len(), |i: int| if 0 <= i < g.nodes@.len() { g.nodes@[i].name@ } else { Seq::empty() })
}

/// The transform ids of a graph, in declaration order.
pub open spec fn tids_of(g: &GraphSpec) -> Seq<Seq<char>> {
    Seq::new(g.nodes@.len(), |i: int| if 0 <= i < g.nodes@.len() { g.nodes@[i].transform_id@ } else { Seq::empty() })
}

/// The edges of a graph resolved to node indices, in declaration order.
pub open spec fn resolved_edges(g: &GraphSpec) -> Seq<(usize, usize)> {
    Seq::new(
        g.edges@.len(),
        |j: int|
            if 0 <= j < g.edges@.len() {
                (
                    find_name(names_of(g), g.edges@[j].from@, 0) as usize,
                    find_name(names_of(g), g.edges@[j].to@, 0) as usize,
                )
            } else {
                (0usize, 0usize)
            },
    )
}

/// Node names are pairwise distinct.
pub open spec fn names_distinct(g: &GraphSpec) -> bool {
    forall|i: int, j: int| 0 <= i < j < g.nodes@.len() ==> names_of(g)[i] != names_of(g)[j]
}

/// No node bears the reserved name `__input`.
pub open spec fn no_reserved_name(g: &GraphSpec) -> bool {
    forall|i: int| 0 <= i < g.nodes@.len() ==> names_of(g)[i] != "__input"@
}

/// Every edge endpoint names a declared node.
pub open spec fn edges_resolve(g: &GraphSpec) -> bool {
    forall|j: int| 0 <= j < g.edges@.len() ==> {
        &&& find_name(names_of(g), (#[trigger] g.edges@[j]).from@, 0) < g.nodes@.len()
        &&& find_name(names_of(g), g.edges@[j].to@, 0) < g.nodes@.len()
    }
}

/// A graph that passes validation.
pub open spec fn graph_valid(g: &GraphSpec) -> bool {
    names_distinct(g) && no_reserved_name(g) && edges_resolve(g)
}

/// ASCII whitespace, the separator of `exec_command`.
pub open spec fn is_ascii_ws(c: char) -> bool {
    c == ' ' || c == '\t' || c == '\n' || c == '\r' || c == '\x0c'
}

/// A command with no token: nothing but ASCII whitespace.
pub open spec fn all_ws(s: Seq<char>) -> bool {
    forall|i: int| 0 <= i < s.len() ==> is_ascii_ws(#[trigger] s[i])
}

/// The sources of the edges into node `x`, in edge declaration order: the
/// order in which predecessor outputs are assembled.
pub open spec fn preds_seq(edges: Seq<(usize, usize)>, x: usize) -> Seq<usize>
    decreases edges.len(),
{
    if edges.len() == 0 {
        Seq::empty()
    } else if edges.last().1 == x {
        preds_seq(edges.drop_last(), x).push(edges.last().0)
    } else {
        preds_seq(edges.drop_last(), x)
    }
}

/// The JSON array a node consumes: the loaded outputs of its predecessors,
/// or the root input alone when it has none.
pub open spec fn assembled_input(
    preds: Seq<usize>,
    outputs: Seq<Option<Seq<char>>>,
    states: Map<Seq<char>, JsonV>,
    root_hash: Seq<char>,
) -> JsonV {
    if preds.len() == 0 {
        JsonV::Arr(seq![states[root_hash]])
    } else {
        JsonV::Arr(
            Seq::new(
                preds.len(),
                |k: int|
                    if 0 <= k < preds.len() {
                        states[outputs[preds[k] as int]->Some_0]
                    } else {
                        JsonV::Null
                    },
            ),
        )
    }
}

/// The execution summary document.
pub open spec fn summary_view(
    execution_id: Seq<char>,
    final_outputs: Seq<(Seq<char>, JsonV)>,
    timestamp: Seq<char>,
) -> JsonV {
    JsonV::Obj(
        seq![
            ("execution_id"@, JsonV::Str(execution_id)),
            ("final_outputs"@, JsonV::Obj(final_outputs)),
            ("timestamp"@, JsonV::Str(timestamp)),
        ],
    )
}

/// The members of the summary's `final_outputs` object, from sink `t` on:
/// each sink that names a node with a produced output, mapped to that output
/// hash; sinks without an output are omitted.
pub open spec fn sink_fields_from(
    sinks: Seq<Seq<char>>,
    names: Seq<Seq<char>>,
    outputs: Seq<Option<Seq<char>>>,
    t: int,
) -> Seq<(Seq<char>, JsonV)>
    decreases sinks.len() - t,
{
    if t < 0 || t >= sinks.len() {
        Seq::empty()
    } else {
        let i = find_name(names, sinks[t], 0);
        let rest = sink_fields_from(sinks, names, outputs, t + 1);
        if i < names.len() && 0 <= i < outputs.len() && outputs[i] is Some {
            seq![(sinks[t], JsonV::Str(outputs[i]->Some_0))] + rest
        } else {
            rest
        }
    }
}

/// What one node firing asks of the caller: run `exec_command`'s program with
/// its arguments plus an input path holding exactly `input_doc` and a fresh
/// output path, then report the outcome.
pub struct Firing {
    pub node_index: usize,
    pub node_name: String,
    pub transform_id: String,
    /// Whitespace-delimited program and static arguments; never all
    /// whitespace.
    pub exec_command: String,
    /// Content address of the assembled input, already persisted.
    pub input_hash: String,
    /// The canonical bytes of the assembled input, to materialize for the
    /// child.
    pub input_doc: String,
}

/// What the caller observed of the child process.
pub enum FiringOutcome {
    /// The child exited with status 0 and wrote `output`, `output_bytes`
    /// bytes long, to its output path.
    Success { output: Json, output_bytes: usize, duration_ms: u128 },
    /// The child exited with a non-zero status (or failed to spawn, or wrote
    /// no readable output), with this exit code and standard error.
    Failure { exit_code: Option<i64>, stderr: String, duration_ms: u128 },
}

/// One planned run of a graph: fires nodes in a fixed topological order.
pub struct Execution {
    /// Fresh identifier stamped on every trace of this run.
    pub execution_id: String,
    /// Node names, by node index.
    pub names: Vec<String>,
    /// Transform ids, by node index.
    pub transform_ids: Vec<String>,
    /// Edges resolved to node indices.
    pub edges_ix: Vec<(usize, usize)>,
    /// Sink names whose outputs the summary reports.
    pub sinks: Vec<String>,
    /// Content address of the root input state.
    pub input_hash: String,
    /// The topological order in which nodes fire.
    pub order: Vec<usize>,
    /// How many nodes have been attempted.
    pub pos: usize,
    /// A firing has been handed out and not yet recorded.
    pub pending: bool,
    /// While pending: the input hash of the handed-out firing.
    pub pending_input: String,
    /// While pending: the transform id of the handed-out firing.
    pub pending_transform: String,
    /// Output hash per node index; `None` until (and unless) the node
    /// succeeds.
    pub outputs: Vec<Option<String>>,
}

impl Execution {
    /// The output hashes as the model sees them.
    pub open spec fn outputs_view(&self) -> Seq<Option<Seq<char>>> {
        Seq::new(
            self.outputs@.len(),
            |i: int|
                if 0 <= i < self.outputs@.len() {
                    match self.outputs@[i] {
                        Some(h) => Some(h@),
                        None => None,
                    }
                } else {
                    None
                },
        )
    }

    /// Structural well-formedness of a planned execution.
    pub open spec fn wf(&self) -> bool {
        &&& self.names@.len() == self.transform_ids@.len()
        &&& self.names@.len() == self.outputs@.len()
        &&& edges_ok(self.names@.len() as nat, self.edges_ix@)
        &&& valid_topo_order(self.names@.len() as nat, self.edges_ix@, self.order@)
        &&& self.pos <= self.order@.len()
        &&& self.pending ==> self.pos < self.order@.len()
    }
}

/// Is `s` nothing but ASCII whitespace (no token at all)?
fn str_all_ws(s: &str) -> (r: bool)
    ensures
        r == all_ws(s@),
{
    let n = s.unicode_len();
    let mut i: usize = 0;
    while i < n
        invariant
            n == s@.len(),
            i <= n,
            forall|j: int| 0 <= j < i ==> is_ascii_ws(#[trigger] s@[j]),
        decreases n - i,
    {
        let c = s.get_char(i);
        if !(c == ' ' || c == '\t' || c == '\n' || c == '\r' || c == '\x0c') {
            assert(!is_ascii_ws(s@[i as int]));
            return false;
        }
        i = i + 1;
    }
    true
}

/// The first node index bearing `nm`, or `names.len()` when none does.
#[verifier::loop_isolation(false)]
fn find_name_exec(names: &Vec<String>, nm: &String) -> (r: usize)
    ensures
        r == find_name(strings_view(names@), nm@, 0),
        r <= names@.len(),
{
    let n = names.len();
    let mut i: usize = 0;
    while i < n
        invariant
            i <= n,
            find_name(strings_view(names@), nm@, 0) == find_name(strings_view(names@), nm@, i as int),
        decreases n - i,
    {
        if names[i] == *nm {
            assert(strings_view(names@)[i as int] == nm@);
            return i;
        }
        assert(strings_view(names@)[i as int] != nm@);
        i = i + 1;
    }
    n
}

/// Plans a run: validates the graph, resolves edges, fixes a topological
/// order, and draws a fresh execution id. Rejects, in this order of checks,
/// duplicate node names, the reserved name, unknown edge endpoints, and
/// cyclic edges; a valid sortable graph is always accepted. No state is
/// touched and no trace is emitted.
#[verifier::loop_isolation(false)]
#[verifier::rlimit(50)]
pub fn plan_execution(graph: &GraphSpec, input_hash: &str) -> (r: Result<Execution, KernelError>)
    ensures
        r matches Ok(e) ==> {
            &&& e.wf()
            &&& graph_valid(graph)
            &&& topo_sortable(graph.nodes@.len() as nat, resolved_edges(graph))
            &&& strings_view(e.names@) == names_of(graph)
            &&& strings_view(e.transform_ids@) == tids_of(graph)
            &&& e.edges_ix@ == resolved_edges(graph)
            &&& strings_view(e.sinks@) == strings_view(graph.sinks@)
            &&& e.input_hash@ == input_hash@
            &&& e.pos == 0
            &&& !e.pending
            &&& forall|i: int| 0 <= i < e.outputs_view().len() ==> e.outputs_view()[i] is None
            &&& e.execution_id@.len() == 36
        },
        r matches Err(e) ==> match e {
            KernelError::DuplicateNode { name } => !names_distinct(graph),
            KernelError::ReservedNode { name } => name@ == "__input"@ && !no_reserved_name(graph),
            KernelError::UnknownNode { name } => !edges_resolve(graph),
            KernelError::CycleDetected => graph_valid(graph) && !topo_sortable(
                graph.nodes@.len() as nat,
                resolved_edges(graph),
            ),
            _ => false,
        },
        graph_valid(graph) && topo_sortable(graph.nodes@.len() as nat, resolved_edges(graph))
            ==> r is Ok,
{
    let n = graph.nodes.len();
    // Collect names and transform ids.
    let mut names: Vec<String> = Vec::new();
    let mut tids: Vec<String> = Vec::new();
    let mut i: usize = 0;
    while i < n
        invariant
            i <= n,
            names@.len() == i,
            tids@.len() == i,
            forall|k: int| 0 <= k < i ==> names@[k]@ == names_of(graph)[k],
            forall|k: int| 0 <= k < i ==> tids@[k]@ == tids_of(graph)[k],
        decreases n - i,
    {
        names.push(graph.nodes[i].name.clone());
        tids.push(graph.nodes[i].transform_id.clone());
        i = i + 1;
    }
    assert(strings_view(names@) =~= names_of(graph));
    assert(strings_view(tids@) =~= tids_of(graph));
    // Reject duplicate and reserved names.
    let mut a: usize = 0;
    while a < n
        invariant
            a <= n,
            forall|i2: int, j2: int| 0 <= i2 < j2 < n && i2 < a ==> names_of(graph)[i2] != names_of(
                graph,
            )[j2],
            forall|i2: int| 0 <= i2 < a ==> names_of(graph)[i2] != "__input"@,
        decreases n - a,
    {
        let reserved = "__input".to_owned();
        if names[a] == reserved {
            proof {
                assert(names_of(graph)[a as int] == "__input"@);
                assert(!no_reserved_name(graph));
            }
            return Err(KernelError::ReservedNode { name: names[a].clone() });
        }
        let mut b: usize = a + 1;
        while b < n
            invariant
                a < b || b == a + 1,
                a < n,
                b <= n,
                forall|j2: int| a < j2 < b ==> names_of(graph)[a as int] != names_of(graph)[j2],
            decreases n - b,
        {
            if names[a] == names[b] {
                proof {
                    assert(names_of(graph)[a as int] == names_of(graph)[b as int]);
                    assert(!names_distinct(graph));
                }
                return Err(KernelError::DuplicateNode { name: names[a].clone() });
            }
            b = b + 1;
        }
        a = a + 1;
    }
    assert(names_distinct(graph));
    assert(no_reserved_name(graph));
    // Resolve edges to node indices.
    let m = graph.edges.len();
    let mut edges_ix: Vec<(usize, usize)> = Vec::new();
    let mut j: usize = 0;
    while j < m
        invariant
            j <= m,
            edges_ix@.len() == j,
            strings_view(names@) == names_of(graph),
            forall|k: int| 0 <= k < j ==> (#[trigger] edges_ix@[k]) == resolved_edges(graph)[k],
            forall|k: int| 0 <= k < j ==> (#[trigger] edges_ix@[k]).0 < n && edges_ix@[k].1 < n,
        decreases m - j,
    {
        let from_ix = find_name_exec(&names, &graph.edges[j].from);
        proof {
            lemma_find_name_bounds(names_of(graph), graph.edges@[j as int].from@, 0);
            lemma_find_name_bounds(names_of(graph), graph.edges@[j as int].to@, 0);
        }
        if from_ix == n {
            proof {
                assert(find_name(names_of(graph), graph.edges@[j as int].from@, 0) >= graph.nodes@.len());
                assert(!edges_resolve(graph));
            }
            return Err(KernelError::UnknownNode { name: graph.edges[j].from.clone() });
        }
        let to_ix = find_name_exec(&names, &graph.edges[j].to);
        if to_ix == n {
            proof {
                assert(find_name(names_of(graph), graph.edges@[j as int].to@, 0) >= graph.nodes@.len());
                assert(!edges_resolve(graph));
            }
            return Err(KernelError::UnknownNode { name: graph.edges[j].to.clone() });
        }
        edges_ix.push((from_ix, to_ix));
        j = j + 1;
    }
    assert(edges_ix@ =~= resolved_edges(graph));
    assert forall|j2: int| 0 <= j2 < graph.edges@.len() implies {
        &&& find_name(names_of(graph), (#[trigger] graph.edges@[j2]).from@, 0) < graph.nodes@.len()
        &&& find_name(names_of(graph), graph.edges@[j2].to@, 0) < graph.nodes@.len()
    } by {
        lemma_find_name_bounds(names_of(graph), graph.edges@[j2].from@, 0);
        lemma_find_name_bounds(names_of(graph), graph.edges@[j2].to@, 0);
        assert(edges_ix@[j2] == resolved_edges(graph)[j2]);
        assert(edges_ix@[j2].0 < n && edges_ix@[j2].1 < n);
    }
    assert(edges_resolve(graph));
    assert(edges_ok(n as nat, edges_ix@));
    // Fix a topological order; a cycle is exactly what prevents one.
    let order = match topo_order(n, &edges_ix) {
        Some(order) => order,
        None => {
            proof {
                assert(!topo_sortable(n as nat, resolved_edges(graph)));
            }
            return Err(KernelError::CycleDetected);
        },
    };
    // Collect sinks and fresh state.
    let mut sinks: Vec<String> = Vec::new();
    let mut t: usize = 0;
    let sn = graph.sinks.len();
    while t < sn
        invariant
            t <= sn,
            sinks@.len() == t,
            forall|k: int| 0 <= k < t ==> sinks@[k]@ == graph.sinks@[k]@,
        decreases sn - t,
    {
        sinks.push(graph.sinks[t].clone());
        t = t + 1;
    }
    assert(strings_view(sinks@) =~= strings_view(graph.sinks@));
    let mut outputs: Vec<Option<String>> = Vec::new();
    let mut o: usize = 0;
    while o < n
        invariant
            o <= n,
            outputs@.len() == o,
            forall|k: int| 0 <= k < o ==> outputs@[k] is None,
        decreases n - o,
    {
        outputs.push(None);
        o = o + 1;
    }
    let e = Execution {
        execution_id: fresh_uuid(),
        names,
        transform_ids: tids,
        edges_ix,
        sinks,
        input_hash: input_hash.to_owned(),
        order,
        pos: 0,
        pending: false,
        pending_input: String::new(),
        pending_transform: String::new(),
        outputs,
    };
    assert(forall|i2: int| 0 <= i2 < e.outputs_view().len() ==> e.outputs_view()[i2] is None);
    Ok(e)
}

impl Execution {
    /// Assembles, persists and describes the next node firing; `Ok(None)`
    /// when every node has been attempted. The caller must record an outcome
    /// before asking for the next firing. Aborts with `PredecessorMissing`
    /// when a predecessor fired without producing output, with `NotFound`
    /// when a needed state is not in the store, with `TransformNotFound` or
    /// `EmptyExecCommand` when the node's transform is absent or without a
    /// token; on every abort nothing has changed.
    #[verifier::loop_isolation(false)]
    #[verifier::rlimit(100)]
    pub fn next_firing(&mut self, kernel: &mut Kernel) -> (r: Result<Option<Firing>, KernelError>)
        requires
            old(self).wf(),
            !old(self).pending,
            old(kernel).wf(),
        ensures
            final(self).wf(),
            final(kernel).wf(),
            final(kernel).registry_map() == old(kernel).registry_map(),
            final(kernel).trace_log() == old(kernel).trace_log(),
            final(self).names@ == old(self).names@,
            final(self).transform_ids@ == old(self).transform_ids@,
            final(self).edges_ix@ == old(self).edges_ix@,
            final(self).sinks@ == old(self).sinks@,
            final(self).input_hash@ == old(self).input_hash@,
            final(self).order@ == old(self).order@,
            final(self).execution_id@ == old(self).execution_id@,
            final(self).outputs@ == old(self).outputs@,
            final(self).pos == old(self).pos,
            r matches Ok(None) ==> old(self).pos == old(self).order@.len() && *final(self)
                == *old(self) && final(kernel).states_map() == old(kernel).states_map(),
            r matches Ok(Some(f)) ==> ({
                let x = old(self).order@[old(self).pos as int];
                let preds = preds_seq(old(self).edges_ix@, x);
                let iv = assembled_input(
                    preds,
                    old(self).outputs_view(),
                    old(kernel).states_map(),
                    old(self).input_hash@,
                );
                &&& old(self).pos < old(self).order@.len()
                &&& final(self).pending
                &&& final(self).pending_input@ == f.input_hash@
                &&& final(self).pending_transform@ == f.transform_id@
                &&& f.node_index == x
                &&& f.node_name@ == old(self).names@[x as int]@
                &&& f.transform_id@ == old(self).transform_ids@[x as int]@
                &&& old(kernel).registry_map().contains_key(f.transform_id@)
                &&& f.exec_command@ == old(kernel).registry_map()[f.transform_id@].exec_command
                &&& !all_ws(f.exec_command@)
                &&& (forall|k: int| 0 <= k < preds.len()
                    ==> old(self).outputs_view()[preds[k] as int] is Some)
                &&& f.input_doc@ == canon_of(iv)
                &&& f.input_hash@ == hash_of(iv)
                &&& final(kernel).states_map() == persist_model(old(kernel).states_map(), iv)
            }),
            r matches Err(e) ==> *final(self) == *old(self) && final(kernel).states_map() == old(
                kernel,
            ).states_map() && old(self).pos < old(self).order@.len(),
            r matches Err(e) ==> ({
                let x = old(self).order@[old(self).pos as int];
                let preds = preds_seq(old(self).edges_ix@, x);
                match e {
                    KernelError::PredecessorMissing { name } => exists|k: int|
                        0 <= k < preds.len() && old(self).outputs_view()[(#[trigger] preds[k]) as int] is None
                            && name@ == old(self).names@[preds[k] as int]@,
                    KernelError::NotFound { hash } => (preds.len() == 0 && hash@ == old(
                        self,
                    ).input_hash@ && !old(kernel).states_map().contains_key(old(self).input_hash@))
                        || (exists|k: int|
                        0 <= k < preds.len() && (old(self).outputs_view()[(#[trigger] preds[k]) as int]
                            matches Some(h) && h == hash@ && !old(kernel).states_map().contains_key(h))),
                    KernelError::TransformNotFound { id } => id@ == old(self).transform_ids@[x as int]@
                        && !old(kernel).registry_map().contains_key(id@),
                    KernelError::EmptyExecCommand { transform_id } => transform_id@ == old(
                        self,
                    ).transform_ids@[x as int]@ && old(kernel).registry_map().contains_key(
                        transform_id@,
                    ) && all_ws(old(kernel).registry_map()[transform_id@].exec_command),
                    _ => false,
                }
            }),
    {
        let n = self.names.len();
        if self.pos == self.order.len() {
            return Ok(None);
        }
        let x = self.order[self.pos];
        assert(x < n);
        // Gather the sources of the edges into `x`, in edge order.
        let m = self.edges_ix.len();
        let mut preds: Vec<usize> = Vec::new();
        let mut j: usize = 0;
        while j < m
            invariant
                j <= m,
                preds@ == preds_seq(self.edges_ix@.take(j as int), x),
                forall|k: int| 0 <= k < preds@.len() ==> (#[trigger] preds@[k]) < n,
            decreases m - j,
        {
            let ghost prefix = self.edges_ix@.take(j as int);
            if self.edges_ix[j].1 == x {
                preds.push(self.edges_ix[j].0);
            }
            j = j + 1;
            proof {
                assert(self.edges_ix@.take(j as int).drop_last() =~= prefix);
                assert(self.edges_ix@.take(j as int).last() == self.edges_ix@[j - 1]);
            }
        }
        assert(self.edges_ix@.take(m as int) =~= self.edges_ix@);
        let ghost predsv = preds_seq(self.edges_ix@, x);
        // Load the input states: predecessor outputs, or the root input.
        let mut merged: Vec<Json> = Vec::new();
        if preds.len() == 0 {
            match kernel.load_state(self.input_hash.as_str()) {
                Ok(v) => {
                    merged.push(v);
                },
                Err(e) => {
                    return Err(e);
                },
            }
        } else {
            let pn = preds.len();
            let mut k: usize = 0;
            while k < pn
                invariant
                    k <= pn,
                    pn == predsv.len(),
                    preds@ == predsv,
                    forall|k2: int| 0 <= k2 < predsv.len() ==> (#[trigger] predsv[k2]) < n,
                    merged@.len() == k,
                    forall|k2: int| 0 <= k2 < k ==> self.outputs_view()[predsv[k2] as int] is Some,
                    forall|k2: int| 0 <= k2 < k ==> kernel.states_map().contains_key(
                        self.outputs_view()[predsv[k2] as int]->Some_0,
                    ) && (#[trigger] merged@[k2]).deep_view() == kernel.states_map()[
                        self.outputs_view()[predsv[k2] as int]->Some_0
                    ],
                decreases pn - k,
            {
                let p = preds[k];
                match &self.outputs[p] {
                    Some(h) => {
                        match kernel.load_state(h.as_str()) {
                            Ok(v) => {
                                merged.push(v);
                            },
                            Err(e) => {
                                return Err(e);
                            },
                        }
                    },
                    None => {
                        return Err(
                            KernelError::PredecessorMissing { name: self.names[p].clone() },
                        );
                    },
                }
                k = k + 1;
            }
        }
        // Look the transform up and refuse a token-less command.
        let x_tid = self.transform_ids[x].clone();
        let transform = match kernel.load_transform(x_tid.as_str()) {
            Ok(t) => t,
            Err(e) => {
                return Err(e);
            },
        };
        if str_all_ws(transform.exec_command.as_str()) {
            return Err(KernelError::EmptyExecCommand { transform_id: x_tid });
        }
        // Persist the assembled input and hand the firing out.
        let input_value = Json::Arr(merged);
        let ghost iv = assembled_input(
            predsv,
            self.outputs_view(),
            kernel.states_map(),
            self.input_hash@,
        );
        proof {
            assert(input_value.deep_view()->Arr_0 =~= iv->Arr_0);
            assert(input_value.deep_view() == iv);
        }
        let input_doc = encode_json(&input_value);
        let input_hash = kernel.persist_state(&input_value);
        self.pending = true;
        self.pending_input = input_hash.clone();
        self.pending_transform = x_tid.clone();
        let f = Firing {
            node_index: x,
            node_name: self.names[x].clone(),
            transform_id: x_tid,
            exec_command: transform.exec_command,
            input_hash,
            input_doc,
        };
        Ok(Some(f))
    }
}

impl Execution {
    /// Records the outcome of the pending firing and advances. Exactly one
    /// trace record is appended, stamped with this run's execution id. On
    /// success the output is persisted and recorded under the node; on
    /// failure nothing is persisted and the node keeps no output — downstream
    /// nodes will abort with `PredecessorMissing`.
    #[verifier::rlimit(50)]
    pub fn record_outcome(&mut self, kernel: &mut Kernel, outcome: FiringOutcome)
        requires
            old(self).wf(),
            old(self).pending,
            old(kernel).wf(),
        ensures
            final(self).wf(),
            final(kernel).wf(),
            final(self).pos == old(self).pos + 1,
            !final(self).pending,
            final(self).names@ == old(self).names@,
            final(self).transform_ids@ == old(self).transform_ids@,
            final(self).edges_ix@ == old(self).edges_ix@,
            final(self).sinks@ == old(self).sinks@,
            final(self).input_hash@ == old(self).input_hash@,
            final(self).order@ == old(self).order@,
            final(self).execution_id@ == old(self).execution_id@,
            final(kernel).registry_map() == old(kernel).registry_map(),
            final(kernel).trace_log().len() == old(kernel).trace_log().len() + 1,
            ({
                let tr = final(kernel).trace_log().last();
                let x = old(self).order@[old(self).pos as int];
                &&& final(kernel).trace_log() == old(kernel).trace_log().push(tr)
                &&& tr.execution_id == old(self).execution_id@
                &&& tr.transform_id == old(self).pending_transform@
                &&& tr.inputs_hash == old(self).pending_input@
                &&& match outcome {
                    FiringOutcome::Success { output, output_bytes, duration_ms } => {
                        &&& final(kernel).states_map() == persist_model(
                            old(kernel).states_map(),
                            output.deep_view(),
                        )
                        &&& final(self).outputs_view() == old(self).outputs_view().update(
                            x as int,
                            Some(hash_of(output.deep_view())),
                        )
                        &&& tr.outputs_hash == hash_of(output.deep_view())
                        &&& tr.duration_ms == duration_ms
                        &&& tr.error is None
                        &&& tr.resource_usage == JsonV::Obj(
                            seq![("output_bytes"@, JsonV::Num(dec_of(output_bytes as nat)))],
                        )
                    },
                    FiringOutcome::Failure { exit_code, stderr, duration_ms } => {
                        &&& final(kernel).states_map() == old(kernel).states_map()
                        &&& final(self).outputs@ == old(self).outputs@
                        &&& tr.outputs_hash == Seq::<char>::empty()
                        &&& tr.duration_ms == duration_ms
                        &&& tr.error == Some(stderr@)
                        &&& tr.resource_usage == JsonV::Obj(
                            seq![
                                (
                                    "exit_code"@,
                                    match exit_code {
                                        Some(c) => JsonV::Num(crate::json::dec_int_of(c as int)),
                                        None => JsonV::Null,
                                    },
                                ),
                            ],
                        )
                    },
                }
            }),
    {
        let x = self.order[self.pos];
        match outcome {
            FiringOutcome::Success { output, output_bytes, duration_ms } => {
                let output_hash = kernel.persist_state(&output);
                let mut usage_fields: Vec<(String, Json)> = Vec::new();
                usage_fields.push(("output_bytes".to_owned(), json_of_u128(output_bytes as u128)));
                let usage = Json::Obj(usage_fields);
                assert(usage.deep_view()->Obj_0 =~= seq![
                    ("output_bytes"@, JsonV::Num(dec_of(output_bytes as nat))),
                ]);
                let trace = TracePacket {
                    trace_id: fresh_uuid(),
                    execution_id: self.execution_id.clone(),
                    transform_id: self.pending_transform.clone(),
                    timestamp: now_rfc3339(),
                    inputs_hash: self.pending_input.clone(),
                    outputs_hash: output_hash.clone(),
                    duration_ms,
                    resource_usage: usage,
                    error: None,
                };
                kernel.emit_trace(trace);
                self.outputs[x] = Some(output_hash);
                assert(self.outputs_view() =~= old(self).outputs_view().update(
                    x as int,
                    Some(hash_of(output.deep_view())),
                ));
            },
            FiringOutcome::Failure { exit_code, stderr, duration_ms } => {
                let code_json = match exit_code {
                    Some(c) => crate::json::json_of_i64(c),
                    None => Json::Null,
                };
                let mut usage_fields: Vec<(String, Json)> = Vec::new();
                usage_fields.push(("exit_code".to_owned(), code_json));
                let usage = Json::Obj(usage_fields);
                assert(usage.deep_view()->Obj_0 =~= seq![
                    (
                        "exit_code"@,
                        match exit_code {
                            Some(c) => JsonV::Num(crate::json::dec_int_of(c as int)),
                            None => JsonV::Null,
                        },
                    ),
                ]);
                let trace = TracePacket {
                    trace_id: fresh_uuid(),
                    execution_id: self.execution_id.clone(),
                    transform_id: self.pending_transform.clone(),
                    timestamp: now_rfc3339(),
                    inputs_hash: self.pending_input.clone(),
                    outputs_hash: String::new(),
                    duration_ms,
                    resource_usage: usage,
                    error: Some(stderr),
                };
                kernel.emit_trace(trace);
            },
        }
        proof {
            assert(vstd::std_specs::vec::spec_vec_len(&self.order) == self.order@.len());
            assert(self.pos < self.order@.len());
        }
        self.pos = self.pos + 1;
        self.pending = false;
    }

    /// Persists and returns the content address of the execution summary:
    /// execution id, the produced outputs of the sinks, and a timestamp. The
    /// trace log is not touched.
    #[verifier::loop_isolation(false)]
    #[verifier::rlimit(50)]
    pub fn finish(&self, kernel: &mut Kernel) -> (h: String)
        requires
            self.wf(),
            !self.pending,
            self.pos == self.order@.len(),
            old(kernel).wf(),
        ensures
            final(kernel).wf(),
            final(kernel).registry_map() == old(kernel).registry_map(),
            final(kernel).trace_log() == old(kernel).trace_log(),
            exists|ts: Seq<char>| {
                &&& h@ == hash_of(
                    #[trigger] summary_view(
                        self.execution_id@,
                        sink_fields_from(
                            strings_view(self.sinks@),
                            strings_view(self.names@),
                            self.outputs_view(),
                            0,
                        ),
                        ts,
                    ),
                )
                &&& final(kernel).states_map() == persist_model(
                    old(kernel).states_map(),
                    summary_view(
                        self.execution_id@,
                        sink_fields_from(
                            strings_view(self.sinks@),
                            strings_view(self.names@),
                            self.outputs_view(),
                            0,
                        ),
                        ts,
                    ),
                )
            },
    {
        let ghost namesv = strings_view(self.names@);
        let ghost sinksv = strings_view(self.sinks@);
        let mut fields: Vec<(String, Json)> = Vec::new();
        let sn = self.sinks.len();
        let mut t: usize = 0;
        while t < sn
            invariant
                t <= sn,
                sn == self.sinks@.len(),
                Seq::new(
                    fields@.len(),
                    |k: int|
                        if 0 <= k < fields@.len() {
                            (fields@[k].0@, fields@[k].1.deep_view())
                        } else {
                            (Seq::<char>::empty(), JsonV::Null)
                        },
                ) + sink_fields_from(sinksv, namesv, self.outputs_view(), t as int)
                    == sink_fields_from(sinksv, namesv, self.outputs_view(), 0),
            decreases sn - t,
        {
            let ghost before = Seq::new(
                fields@.len(),
                |k: int|
                    if 0 <= k < fields@.len() {
                        (fields@[k].0@, fields@[k].1.deep_view())
                    } else {
                        (Seq::<char>::empty(), JsonV::Null)
                    },
            );
            let i = find_name_exec(&self.names, &self.sinks[t]);
            if i < self.names.len() {
                match &self.outputs[i] {
                    Some(hash) => {
                        fields.push((self.sinks[t].clone(), Json::Str(hash.clone())));
                        proof {
                            assert(self.outputs_view()[i as int] is Some);
                        }
                    },
                    None => {
                        proof {
                            assert(self.outputs_view()[i as int] is None);
                        }
                    },
                }
            }
            t = t + 1;
            proof {
                let after = Seq::new(
                    fields@.len(),
                    |k: int|
                        if 0 <= k < fields@.len() {
                            (fields@[k].0@, fields@[k].1.deep_view())
                        } else {
                            (Seq::<char>::empty(), JsonV::Null)
                        },
                );
                assert(after + sink_fields_from(sinksv, namesv, self.outputs_view(), t as int)
                    =~= before + sink_fields_from(sinksv, namesv, self.outputs_view(), t - 1));
            }
        }
        let ghost want = sink_fields_from(sinksv, namesv, self.outputs_view(), 0);
        proof {
            assert(sink_fields_from(sinksv, namesv, self.outputs_view(), sn as int)
                =~= Seq::<(Seq<char>, JsonV)>::empty());
        }
        let final_outputs = Json::Obj(fields);
        proof {
            assert(final_outputs.deep_view()->Obj_0 =~= want);
        }
        let ghost fov = final_outputs.deep_view();
        proof {
            assert(fov == JsonV::Obj(want));
        }
        let ts = now_rfc3339();
        let ghost tsv = ts@;
        let mut summary_fields: Vec<(String, Json)> = Vec::new();
        summary_fields.push(("execution_id".to_owned(), Json::Str(self.execution_id.clone())));
        proof {
            assert(summary_fields@.len() == 1);
            assert(summary_fields@[0].0@ == "execution_id"@);
            assert(summary_fields@[0].1.deep_view() == JsonV::Str(self.execution_id@));
        }
        summary_fields.push(("final_outputs".to_owned(), final_outputs));
        proof {
            assert(summary_fields@.len() == 2);
            assert(summary_fields@[0].0@ == "execution_id"@);
            assert(summary_fields@[0].1.deep_view() == JsonV::Str(self.execution_id@));
            assert(summary_fields@[1].0@ == "final_outputs"@);
            assert(summary_fields@[1].1.deep_view() == fov);
        }
        summary_fields.push(("timestamp".to_owned(), Json::Str(ts)));
        proof {
            assert(summary_fields@.len() == 3);
            assert(summary_fields@[0].0@ == "execution_id"@);
            assert(summary_fields@[0].1.deep_view() == JsonV::Str(self.execution_id@));
            assert(summary_fields@[1].0@ == "final_outputs"@);
            assert(summary_fields@[1].1.deep_view() == fov);
            assert(summary_fields@[2].0@ == "timestamp"@);
            assert(summary_fields@[2].1.deep_view() == JsonV::Str(tsv));
        }
        let summary = Json::Obj(summary_fields);
        proof {
            reveal_strlit("execution_id");
            reveal_strlit("final_outputs");
            reveal_strlit("timestamp");
            assert(summary.deep_view()->Obj_0.len() == 3);
            assert(summary.deep_view()->Obj_0[0] == ("execution_id"@, JsonV::Str(self.execution_id@)));
            assert(summary.deep_view()->Obj_0[1] == ("final_outputs"@, fov));
            assert(summary.deep_view()->Obj_0[2] == ("timestamp"@, JsonV::Str(tsv)));
            assert(summary.deep_view()->Obj_0 =~= summary_view(self.execution_id@, want, tsv)->Obj_0);
            assert(summary.deep_view() == summary_view(self.execution_id@, want, tsv));
        }
        let h = kernel.persist_state(&summary);
        proof {
            assert(h@ == hash_of(summary_view(self.execution_id@, want, tsv)));
        }
        h
    }
}

/// Summary determinism: the summary's content address is a function of the
/// execution id, the sinks' recorded outputs, and the timestamp alone. Two
/// runs that agree on those three persist their summaries under one address;
/// the execution id and the timestamp themselves are drawn fresh per run, so
/// across real runs the address differs with them.
pub proof fn lemma_summary_deterministic(
    execution_id: Seq<char>,
    final_outputs: Seq<(Seq<char>, JsonV)>,
    timestamp: Seq<char>,
    other_outputs: Seq<(Seq<char>, JsonV)>,
)
    requires
        final_outputs == other_outputs,
    ensures
        hash_of(summary_view(execution_id, final_outputs, timestamp)) == hash_of(
            summary_view(execution_id, other_outputs, timestamp),
        ),
{
}

} // verus!
