//! The kernel's persistent artifacts: the content-addressed state store, the
//! transform registry, and the append-only trace log, modelled in memory.
//! A thin shell mirrors each change to disk; every rule about the artifacts
//! is stated and proved here.

use vstd::prelude::*;
use crate::json::{Json, JsonV, canon_of, encode_json};
use crate::trusted::{sha256_hex, sha256_hex_of, fresh_uuid};

verus! {

broadcast use vstd::std_specs::vec::group_vec_axioms, vstd::seq::group_seq_axioms;

/// The content address of a JSON document: the SHA-256 of its canonical
/// encoding, in lowercase hexadecimal.
pub open spec fn hash_of(v: JsonV) -> Seq<char> {
    sha256_hex_of(canon_of(v))
}

/// A registered transform: an external executable invoked with an input path
/// and an output path appended to `exec_command`.
pub struct TransformSpec {
    /// Unique registry key; if empty at registration, a fresh one is drawn.
    pub id: String,
    /// Whitespace-delimited program and static arguments.
    pub exec_command: String,
    /// Opaque metadata, not interpreted by the kernel.
    pub meta: Json,
}

/// The model of a registered transform.
pub struct TransformSpecV {
    pub id: Seq<char>,
    pub exec_command: Seq<char>,
    pub meta: JsonV,
}

impl TransformSpec {
    pub open spec fn deep_view(&self) -> TransformSpecV {
        TransformSpecV { id: self.id@, exec_command: self.exec_command@, meta: self.meta.deep_view() }
    }
}

/// One record of the trace log: the outcome of one node firing.
pub struct TracePacket {
    pub trace_id: String,
    pub execution_id: String,
    pub transform_id: String,
    /// RFC 3339 UTC timestamp.
    pub timestamp: String,
    pub inputs_hash: String,
    /// Empty on failure.
    pub outputs_hash: String,
    pub duration_ms: u128,
    /// Kernel-defined keys: `output_bytes` on success, `exit_code` on failure.
    pub resource_usage: Json,
    /// The child's standard error; present only on failure.
    pub error: Option<String>,
}

/// The model of a trace record.
pub struct TraceV {
    pub trace_id: Seq<char>,
    pub execution_id: Seq<char>,
    pub transform_id: Seq<char>,
    pub timestamp: Seq<char>,
    pub inputs_hash: Seq<char>,
    pub outputs_hash: Seq<char>,
    pub duration_ms: nat,
    pub resource_usage: JsonV,
    pub error: Option<Seq<char>>,
}

impl TracePacket {
    pub open spec fn deep_view(&self) -> TraceV {
        TraceV {
            trace_id: self.trace_id@,
            execution_id: self.execution_id@,
            transform_id: self.transform_id@,
            timestamp: self.timestamp@,
            inputs_hash: self.inputs_hash@,
            outputs_hash: self.outputs_hash@,
            duration_ms: self.duration_ms as nat,
            resource_usage: self.resource_usage.deep_view(),
            error: match &self.error {
                Some(e) => Some(e@),
                None => None,
            },
        }
    }
}

/// The errors the kernel surfaces. Transform failure is not among them: it is
/// recorded in the trace log and the run continues.
#[derive(Debug)]
pub enum KernelError {
    /// No state is stored under this hash.
    NotFound { hash: String },
    /// No transform is registered under this id.
    TransformNotFound { id: String },
    /// A transform with this id is already registered.
    AlreadyExists { id: String },
    /// An edge endpoint names no declared node.
    UnknownNode { name: String },
    /// Two declared nodes share a name.
    DuplicateNode { name: String },
    /// A declared node uses the reserved name `__input`.
    ReservedNode { name: String },
    /// The graph's edges form a directed cycle.
    CycleDetected,
    /// A node's predecessor fired but produced no output.
    PredecessorMissing { name: String },
    /// A transform was invoked with an all-whitespace command.
    EmptyExecCommand { transform_id: String },
}

/// The finite map described by a key-value association list, later entries
/// shadowing earlier ones.
pub open spec fn states_model(entries: Seq<(String, Json)>) -> Map<Seq<char>, JsonV>
    decreases entries.len(),
{
    if entries.len() == 0 {
        Map::empty()
    } else {
        states_model(entries.drop_last()).insert(
            entries.last().0@,
            entries.last().1.deep_view(),
        )
    }
}

/// The finite map described by a registry association list.
pub open spec fn registry_model(entries: Seq<(String, TransformSpec)>) -> Map<Seq<char>, TransformSpecV>
    decreases entries.len(),
{
    if entries.len() == 0 {
        Map::empty()
    } else {
        registry_model(entries.drop_last()).insert(
            entries.last().0@,
            entries.last().1.deep_view(),
        )
    }
}

/// Keys of an association list are pairwise distinct.
pub open spec fn keys_unique<T>(entries: Seq<(String, T)>) -> bool {
    forall|i: int, j: int| 0 <= i < j < entries.len() ==> entries[i].0@ != entries[j].0@
}

proof fn lemma_states_model_domain(entries: Seq<(String, Json)>, k: Seq<char>)
    ensures
        states_model(entries).contains_key(k) <==> exists|i: int|
            0 <= i < entries.len() && entries[i].0@ == k,
    decreases entries.len(),
{
    if entries.len() > 0 {
        lemma_states_model_domain(entries.drop_last(), k);
        if states_model(entries).contains_key(k) {
            if entries.last().0@ != k {
                let i = choose|i: int| 0 <= i < entries.len() - 1 && entries.drop_last()[i].0@ == k;
                assert(entries[i].0@ == k);
            }
        }
        if exists|i: int| 0 <= i < entries.len() && entries[i].0@ == k {
            let i = choose|i: int| 0 <= i < entries.len() && entries[i].0@ == k;
            if i < entries.len() - 1 {
                assert(entries.drop_last()[i].0@ == k);
            }
        }
    }
}

proof fn lemma_states_model_get(entries: Seq<(String, Json)>, i: int)
    requires
        keys_unique(entries),
        0 <= i < entries.len(),
    ensures
        states_model(entries).contains_key(entries[i].0@),
        states_model(entries)[entries[i].0@] == entries[i].1.deep_view(),
    decreases entries.len(),
{
    if i < entries.len() - 1 {
        lemma_states_model_get(entries.drop_last(), i);
        assert(entries.drop_last()[i] == entries[i]);
    }
}

proof fn lemma_registry_model_domain(entries: Seq<(String, TransformSpec)>, k: Seq<char>)
    ensures
        registry_model(entries).contains_key(k) <==> exists|i: int|
            0 <= i < entries.len() && entries[i].0@ == k,
    decreases entries.len(),
{
    if entries.len() > 0 {
        lemma_registry_model_domain(entries.drop_last(), k);
        if registry_model(entries).contains_key(k) {
            if entries.last().0@ != k {
                let i = choose|i: int| 0 <= i < entries.len() - 1 && entries.drop_last()[i].0@ == k;
                assert(entries[i].0@ == k);
            }
        }
        if exists|i: int| 0 <= i < entries.len() && entries[i].0@ == k {
            let i = choose|i: int| 0 <= i < entries.len() && entries[i].0@ == k;
            if i < entries.len() - 1 {
                assert(entries.drop_last()[i].0@ == k);
            }
        }
    }
}

proof fn lemma_registry_model_get(entries: Seq<(String, TransformSpec)>, i: int)
    requires
        keys_unique(entries),
        0 <= i < entries.len(),
    ensures
        registry_model(entries).contains_key(entries[i].0@),
        registry_model(entries)[entries[i].0@] == entries[i].1.deep_view(),
    decreases entries.len(),
{
    if i < entries.len() - 1 {
        lemma_registry_model_get(entries.drop_last(), i);
        assert(entries.drop_last()[i] == entries[i]);
    }
}

proof fn lemma_states_model_len(entries: Seq<(String, Json)>)
    requires
        keys_unique(entries),
    ensures
        states_model(entries).dom().finite(),
        states_model(entries).dom().len() == entries.len(),
    decreases entries.len(),
{
    if entries.len() > 0 {
        lemma_states_model_len(entries.drop_last());
        lemma_states_model_domain(entries.drop_last(), entries.last().0@);
    }
}

/// The store after persisting `v`: unchanged when a state with `v`'s hash is
/// already held, extended by `v` under its hash otherwise.
pub open spec fn persist_model(m: Map<Seq<char>, JsonV>, v: JsonV) -> Map<Seq<char>, JsonV> {
    if m.contains_key(hash_of(v)) {
        m
    } else {
        m.insert(hash_of(v), v)
    }
}

/// The kernel: the state store, the transform registry and the trace log.
pub struct Kernel {
    states: Vec<(String, Json)>,
    registry: Vec<(String, TransformSpec)>,
    traces: Vec<TracePacket>,
}

impl Kernel {
    /// The state store: content address to document.
    pub closed spec fn states_map(&self) -> Map<Seq<char>, JsonV> {
        states_model(self.states@)
    }

    /// The registry: transform id to specification.
    pub closed spec fn registry_map(&self) -> Map<Seq<char>, TransformSpecV> {
        registry_model(self.registry@)
    }

    /// The trace log, oldest first.
    pub closed spec fn trace_log(&self) -> Seq<TraceV> {
        Seq::new(self.traces@.len(), |i: int| self.traces@[i].deep_view())
    }

    /// Well-formedness: association lists have distinct keys, and every state
    /// sits under the content address of its value.
    pub closed spec fn wf(&self) -> bool {
        &&& keys_unique(self.states@)
        &&& keys_unique(self.registry@)
        &&& forall|i: int| 0 <= i < self.states@.len()
            ==> (#[trigger] self.states@[i]).0@ == hash_of(self.states@[i].1.deep_view())
    }

    /// Every stored state sits under the content address of its value; with
    /// `persist_state`'s contract this gives `persist(load(h)) == h` for every
    /// stored `h`.
    pub proof fn lemma_content_addressed(&self, h: Seq<char>)
        requires
            self.wf(),
            self.states_map().contains_key(h),
        ensures
            hash_of(self.states_map()[h]) == h,
    {
        lemma_states_model_domain(self.states@, h);
        let i = choose|i: int| 0 <= i < self.states@.len() && self.states@[i].0@ == h;
        lemma_states_model_get(self.states@, i);
    }

    /// A fresh kernel holding nothing.
    pub fn new() -> (k: Kernel)
        ensures
            k.wf(),
            k.states_map() == Map::<Seq<char>, JsonV>::empty(),
            k.registry_map() == Map::<Seq<char>, TransformSpecV>::empty(),
            k.trace_log() == Seq::<TraceV>::empty(),
    {
        let k = Kernel { states: Vec::new(), registry: Vec::new(), traces: Vec::new() };
        proof {
            assert(k.trace_log() =~= Seq::<TraceV>::empty());
        }
        k
    }

    /// How many distinct states the store holds.
    pub fn num_states(&self) -> (n: usize)
        requires
            self.wf(),
        ensures
            n == self.states_map().dom().len(),
    {
        proof {
            lemma_states_model_len(self.states@);
        }
        self.states.len()
    }

    /// How many trace records have been emitted.
    pub fn num_traces(&self) -> (n: usize)
        ensures
            n == self.trace_log().len(),
    {
        self.traces.len()
    }

    /// The `i`-th stored state: its content address and its document. The
    /// store is append-only, so a caller mirroring it elsewhere can walk new
    /// entries by index.
    pub fn state_entry(&self, i: usize) -> (r: (&String, &Json))
        requires
            self.wf(),
            i < self.states_map().dom().len(),
        ensures
            self.states_map().contains_key(r.0@),
            r.1.deep_view() == self.states_map()[r.0@],
    {
        proof {
            lemma_states_model_len(self.states@);
            lemma_states_model_get(self.states@, i as int);
        }
        (&self.states[i].0, &self.states[i].1)
    }

    /// The trace record at position `i` of the log.
    pub fn trace_at(&self, i: usize) -> (t: &TracePacket)
        requires
            i < self.trace_log().len(),
        ensures
            t.deep_view() == self.trace_log()[i as int],
    {
        &self.traces[i]
    }

    /// The index of the state stored under `key`, if any.
    fn find_state(&self, key: &String) -> (r: Option<usize>)
        ensures
            match r {
                Some(i) => i < self.states@.len() && self.states@[i as int].0@ == key@,
                None => forall|i: int| 0 <= i < self.states@.len() ==> self.states@[i].0@ != key@,
            },
    {
        let n = self.states.len();
        let mut i: usize = 0;
        while i < n
            invariant
                n == self.states@.len(),
                i <= n,
                forall|j: int| 0 <= j < i ==> self.states@[j].0@ != key@,
            decreases n - i,
        {
            if self.states[i].0 == *key {
                return Some(i);
            }
            i = i + 1;
        }
        None
    }

    /// The index of the transform registered under `key`, if any.
    fn find_transform(&self, key: &String) -> (r: Option<usize>)
        ensures
            match r {
                Some(i) => i < self.registry@.len() && self.registry@[i as int].0@ == key@,
                None => forall|i: int| 0 <= i < self.registry@.len() ==> self.registry@[i].0@ != key@,
            },
    {
        let n = self.registry.len();
        let mut i: usize = 0;
        while i < n
            invariant
                n == self.registry@.len(),
                i <= n,
                forall|j: int| 0 <= j < i ==> self.registry@[j].0@ != key@,
            decreases n - i,
        {
            if self.registry[i].0 == *key {
                return Some(i);
            }
            i = i + 1;
        }
        None
    }

    /// Persists a state under the content address of its canonical encoding
    /// and returns that address. Idempotent: persisting a value whose hash is
    /// already held leaves the store unchanged.
    pub fn persist_state(&mut self, value: &Json) -> (h: String)
        requires
            old(self).wf(),
        ensures
            final(self).wf(),
            h@ == hash_of(value.deep_view()),
            h@.len() == 64,
            final(self).states_map() == persist_model(old(self).states_map(), value.deep_view()),
            final(self).registry_map() == old(self).registry_map(),
            final(self).trace_log() == old(self).trace_log(),
    {
        let bytes = encode_json(value);
        let h = sha256_hex(bytes.as_str());
        let found = self.find_state(&h);
        proof {
            lemma_states_model_domain(self.states@, h@);
        }
        if found.is_none() {
            let entry = (h.clone(), value.deep_copy());
            self.states.push(entry);
            proof {
                assert(self.states@.drop_last() =~= old(self).states@);
                assert(self.states_map() =~= old(self).states_map().insert(
                    hash_of(value.deep_view()),
                    value.deep_view(),
                ));
                assert(self.trace_log() =~= old(self).trace_log());
            }
        }
        h
    }

    /// Loads the state stored under `hash`; `NotFound` exactly when the store
    /// holds no such address.
    pub fn load_state(&self, hash: &str) -> (r: Result<Json, KernelError>)
        requires
            self.wf(),
        ensures
            r is Ok <==> self.states_map().contains_key(hash@),
            r is Ok ==> r->Ok_0.deep_view() == self.states_map()[hash@],
            r is Err ==> (r->Err_0 matches KernelError::NotFound { hash: h2 } && h2@ == hash@),
    {
        let key = hash.to_owned();
        proof {
            lemma_states_model_domain(self.states@, hash@);
        }
        match self.find_state(&key) {
            Some(i) => {
                proof {
                    lemma_states_model_get(self.states@, i as int);
                }
                Ok(self.states[i].1.deep_copy())
            },
            None => Err(KernelError::NotFound { hash: key }),
        }
    }

    /// Registers a transform. An empty id is replaced by a fresh 36-character
    /// identifier; registering an id that is already held is rejected with
    /// `AlreadyExists` and changes nothing.
    pub fn create_transform(&mut self, spec: &TransformSpec) -> (r: Result<String, KernelError>)
        requires
            old(self).wf(),
        ensures
            final(self).wf(),
            final(self).states_map() == old(self).states_map(),
            final(self).trace_log() == old(self).trace_log(),
            r matches Ok(id) ==> {
                &&& id@.len() > 0
                &&& (spec.id@.len() > 0 ==> id@ == spec.id@)
                &&& !old(self).registry_map().contains_key(id@)
                &&& final(self).registry_map() == old(self).registry_map().insert(
                    id@,
                    TransformSpecV {
                        id: id@,
                        exec_command: spec.exec_command@,
                        meta: spec.meta.deep_view(),
                    },
                )
            },
            r matches Err(e) ==> {
                &&& (e matches KernelError::AlreadyExists { id } && old(self).registry_map().contains_key(id@))
                &&& (spec.id@.len() > 0 ==> (e matches KernelError::AlreadyExists { id } && id@ == spec.id@))
                &&& final(self).registry_map() == old(self).registry_map()
            },
            spec.id@.len() > 0 && !old(self).registry_map().contains_key(spec.id@) ==> r is Ok,
    {
        let id = if spec.id.as_str().is_empty() {
            fresh_uuid()
        } else {
            spec.id.clone()
        };
        proof {
            lemma_registry_model_domain(self.registry@, id@);
        }
        match self.find_transform(&id) {
            Some(i) => {
                proof {
                    lemma_registry_model_get(self.registry@, i as int);
                }
                Err(KernelError::AlreadyExists { id })
            },
            None => {
                let stored = TransformSpec {
                    id: id.clone(),
                    exec_command: spec.exec_command.clone(),
                    meta: spec.meta.deep_copy(),
                };
                self.registry.push((id.clone(), stored));
                proof {
                    assert(self.registry@.drop_last() =~= old(self).registry@);
                    assert(self.trace_log() =~= old(self).trace_log());
                }
                Ok(id)
            },
        }
    }

    /// Loads the transform registered under `id`; `TransformNotFound` exactly
    /// when the registry holds no such id.
    pub fn load_transform(&self, id: &str) -> (r: Result<TransformSpec, KernelError>)
        requires
            self.wf(),
        ensures
            r is Ok <==> self.registry_map().contains_key(id@),
            r is Ok ==> r->Ok_0.deep_view() == self.registry_map()[id@],
            r is Err ==> (r->Err_0 matches KernelError::TransformNotFound { id: i2 } && i2@ == id@),
    {
        let key = id.to_owned();
        proof {
            lemma_registry_model_domain(self.registry@, id@);
        }
        match self.find_transform(&key) {
            Some(i) => {
                proof {
                    lemma_registry_model_get(self.registry@, i as int);
                }
                let found = &self.registry[i].1;
                Ok(TransformSpec {
                    id: found.id.clone(),
                    exec_command: found.exec_command.clone(),
                    meta: found.meta.deep_copy(),
                })
            },
            None => Err(KernelError::TransformNotFound { id: key }),
        }
    }

    /// Appends one record to the trace log; nothing else changes, and nothing
    /// is ever removed.
    pub fn emit_trace(&mut self, trace: TracePacket)
        requires
            old(self).wf(),
        ensures
            final(self).wf(),
            final(self).trace_log() == old(self).trace_log().push(trace.deep_view()),
            final(self).states_map() == old(self).states_map(),
            final(self).registry_map() == old(self).registry_map(),
    {
        self.traces.push(trace);
        proof {
            assert(self.states@ =~= old(self).states@);
            assert(self.registry@ =~= old(self).registry@);
            assert(self.trace_log() =~= old(self).trace_log().push(trace.deep_view()));
        }
    }
}

/// Hash determinism: the content address is a function of the canonical
/// encoding alone, so documents with equal canonical encodings are stored
/// under one address.
pub proof fn lemma_hash_deterministic(a: JsonV, b: JsonV)
    requires
        canon_of(a) == canon_of(b),
    ensures
        hash_of(a) == hash_of(b),
{
}

/// Round trip: after persisting `v`, the store holds a document with `v`'s
/// canonical encoding under the returned address. The one hypothesis is
/// collision freedom for this address: a document already stored under
/// `v`'s hash encodes like `v`.
pub proof fn lemma_store_round_trip(m: Map<Seq<char>, JsonV>, v: JsonV)
    requires
        m.contains_key(hash_of(v)) ==> canon_of(m[hash_of(v)]) == canon_of(v),
    ensures
        persist_model(m, v).contains_key(hash_of(v)),
        canon_of(persist_model(m, v)[hash_of(v)]) == canon_of(v),
{
}

/// Idempotence: persisting a value a second time leaves the store exactly as
/// it was, and the address it returns is unchanged.
pub proof fn lemma_persist_idempotent(m: Map<Seq<char>, JsonV>, v: JsonV)
    ensures
        persist_model(persist_model(m, v), v) == persist_model(m, v),
{
}

} // verus!
