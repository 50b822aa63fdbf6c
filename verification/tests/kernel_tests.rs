use sha2::Digest;
use transform_kernel::executor::{plan_execution, FiringOutcome};
use transform_kernel::graph::{GraphEdge, GraphNode, GraphSpec};
use transform_kernel::json::{encode_json, json_of_i64, json_of_u128, Json};
use transform_kernel::store::{Kernel, KernelError, TransformSpec};
use transform_kernel::{infer_stub, ml_version};

fn obj(fields: Vec<(&str, Json)>) -> Json {
    Json::Obj(fields.into_iter().map(|(k, v)| (k.to_string(), v)).collect())
}

fn num(lit: &str) -> Json {
    Json::Num(lit.to_string())
}

fn s(v: &str) -> Json {
    Json::Str(v.to_string())
}

fn demo_input() -> Json {
    obj(vec![
        ("numbers", Json::Arr(vec![num("1"), num("2"), num("3")])),
        ("message", s("hello")),
    ])
}

fn register(kernel: &mut Kernel, id: &str, command: &str) -> String {
    kernel
        .create_transform(&TransformSpec {
            id: id.to_string(),
            exec_command: command.to_string(),
            meta: Json::Null,
        })
        .expect("registration should succeed")
}

fn graph(nodes: Vec<(&str, &str)>, edges: Vec<(&str, &str)>, sinks: Vec<&str>) -> GraphSpec {
    GraphSpec {
        nodes: nodes
            .into_iter()
            .map(|(n, t)| GraphNode { name: n.to_string(), transform_id: t.to_string() })
            .collect(),
        edges: edges
            .into_iter()
            .map(|(f, t)| GraphEdge { from: f.to_string(), to: t.to_string() })
            .collect(),
        sinks: sinks.into_iter().map(|x| x.to_string()).collect(),
    }
}

/// The value of a key in a canonical JSON object, by structure.
fn field<'a>(v: &'a Json, key: &str) -> &'a Json {
    match v {
        Json::Obj(fields) => {
            &fields.iter().find(|(k, _)| k == key).expect("key present").1
        }
        _ => panic!("not an object"),
    }
}

#[test]
fn canonical_encoding_matches_compact_json() {
    assert_eq!(
        encode_json(&demo_input()),
        "{\"numbers\":[1,2,3],\"message\":\"hello\"}"
    );
}

#[test]
fn canonical_encoding_escapes_strings() {
    let v = s("a\"b\\c\nd");
    assert_eq!(encode_json(&v), "\"a\\\"b\\\\c\\u000ad\"");
}

#[test]
fn canonical_encoding_of_scalars() {
    assert_eq!(encode_json(&Json::Null), "null");
    assert_eq!(encode_json(&Json::Bool(true)), "true");
    assert_eq!(encode_json(&Json::Bool(false)), "false");
    assert_eq!(encode_json(&num("-1.5e3")), "-1.5e3");
    assert_eq!(encode_json(&Json::Arr(vec![])), "[]");
    assert_eq!(encode_json(&Json::Obj(vec![])), "{}");
}

#[test]
fn decimal_renderings_are_exact() {
    assert_eq!(encode_json(&json_of_u128(0)), "0");
    assert_eq!(encode_json(&json_of_u128(1024)), "1024");
    assert_eq!(encode_json(&json_of_i64(-57)), "-57");
    assert_eq!(encode_json(&json_of_i64(7)), "7");
}

#[test]
fn persist_hash_is_sha256_of_canonical_bytes() {
    let mut kernel = Kernel::new();
    let h = kernel.persist_state(&num("42"));
    let expected = hex::encode(sha2::Sha256::digest("42".as_bytes()));
    assert_eq!(h, expected);
    assert_eq!(h.len(), 64);
}

#[test]
fn duplicate_persist_leaves_one_state() {
    let mut kernel = Kernel::new();
    let h1 = kernel.persist_state(&num("42"));
    let h2 = kernel.persist_state(&num("42"));
    assert_eq!(h1, h2);
    assert_eq!(kernel.num_states(), 1);
}

#[test]
fn load_returns_the_persisted_document() {
    let mut kernel = Kernel::new();
    let v = demo_input();
    let h = kernel.persist_state(&v);
    let loaded = kernel.load_state(&h).expect("stored state loads");
    assert_eq!(encode_json(&loaded), encode_json(&v));
}

#[test]
fn load_of_unknown_hash_is_not_found() {
    let kernel = Kernel::new();
    let r = kernel.load_state("no-such-hash");
    assert!(matches!(r, Err(KernelError::NotFound { .. })));
}

#[test]
fn registry_assigns_fresh_id_and_rejects_collisions() {
    let mut kernel = Kernel::new();
    let fresh = kernel
        .create_transform(&TransformSpec {
            id: String::new(),
            exec_command: "cp".to_string(),
            meta: Json::Null,
        })
        .expect("empty id gets a fresh one");
    assert_eq!(fresh.len(), 36);
    let id = register(&mut kernel, "identity", "cp");
    assert_eq!(id, "identity");
    let again = kernel.create_transform(&TransformSpec {
        id: "identity".to_string(),
        exec_command: "cp".to_string(),
        meta: Json::Null,
    });
    assert!(matches!(again, Err(KernelError::AlreadyExists { .. })));
    let loaded = kernel.load_transform("identity").expect("registered");
    assert_eq!(loaded.exec_command, "cp");
    let missing = kernel.load_transform("absent");
    assert!(matches!(missing, Err(KernelError::TransformNotFound { .. })));
}

#[test]
fn identity_copy_single_node() {
    let mut kernel = Kernel::new();
    let tid = register(&mut kernel, "identity", "cp");
    let input = demo_input();
    let input_hash = kernel.persist_state(&input);
    let g = graph(vec![("node1", &tid)], vec![], vec!["node1"]);
    let mut e = plan_execution(&g, &input_hash).expect("valid graph");

    let firing = e.next_firing(&mut kernel).expect("fires").expect("one node");
    assert_eq!(firing.node_name, "node1");
    assert_eq!(
        firing.input_doc,
        "[{\"numbers\":[1,2,3],\"message\":\"hello\"}]"
    );
    // The identity transform writes its input back verbatim.
    let echoed = Json::Arr(vec![demo_input()]);
    let bytes = firing.input_doc.len();
    e.record_outcome(
        &mut kernel,
        FiringOutcome::Success { output: echoed, output_bytes: bytes, duration_ms: 1 },
    );
    assert!(e.next_firing(&mut kernel).expect("done").is_none());
    let summary_hash = e.finish(&mut kernel);

    assert_eq!(kernel.num_traces(), 1);
    let trace = kernel.trace_at(0);
    assert!(trace.error.is_none());
    assert_eq!(trace.inputs_hash, firing.input_hash);

    let expected_out_hash = kernel.persist_state(&Json::Arr(vec![demo_input()]));
    let summary = kernel.load_state(&summary_hash).expect("summary stored");
    match field(&summary, "final_outputs") {
        Json::Obj(fields) => {
            assert_eq!(fields.len(), 1);
            assert_eq!(fields[0].0, "node1");
            match &fields[0].1 {
                Json::Str(h) => assert_eq!(h, &expected_out_hash),
                _ => panic!("output hash should be a string"),
            }
        }
        _ => panic!("final_outputs should be an object"),
    }
}

#[test]
fn linear_chain_two_nodes() {
    let mut kernel = Kernel::new();
    let tid = register(&mut kernel, "step", "cp");
    let input_hash = kernel.persist_state(&num("0"));
    let g = graph(
        vec![("A", &tid), ("B", &tid)],
        vec![("A", "B")],
        vec!["B"],
    );
    let mut e = plan_execution(&g, &input_hash).expect("valid graph");

    let fa = e.next_firing(&mut kernel).unwrap().expect("A fires first");
    assert_eq!(fa.node_name, "A");
    e.record_outcome(
        &mut kernel,
        FiringOutcome::Success {
            output: obj(vec![("v", num("41"))]),
            output_bytes: 8,
            duration_ms: 2,
        },
    );
    let fb = e.next_firing(&mut kernel).unwrap().expect("B fires second");
    assert_eq!(fb.node_name, "B");
    assert_eq!(fb.input_doc, "[{\"v\":41}]");
    e.record_outcome(
        &mut kernel,
        FiringOutcome::Success {
            output: obj(vec![("v", num("42"))]),
            output_bytes: 8,
            duration_ms: 2,
        },
    );
    assert!(e.next_firing(&mut kernel).unwrap().is_none());
    let summary_hash = e.finish(&mut kernel);

    assert_eq!(kernel.num_traces(), 2);
    assert_eq!(kernel.trace_at(0).execution_id, kernel.trace_at(1).execution_id);
    let expected = kernel.persist_state(&obj(vec![("v", num("42"))]));
    let summary = kernel.load_state(&summary_hash).unwrap();
    match field(&summary, "final_outputs") {
        Json::Obj(fields) => {
            assert_eq!(fields.len(), 1);
            assert_eq!(fields[0].0, "B");
            assert_eq!(encode_json(&fields[0].1), format!("\"{}\"", expected));
        }
        _ => panic!("final_outputs should be an object"),
    }
}

#[test]
fn diamond_sums_two_branches() {
    let mut kernel = Kernel::new();
    let tid = register(&mut kernel, "step", "cp");
    let input_hash = kernel.persist_state(&num("0"));
    let g = graph(
        vec![("A", &tid), ("B", &tid), ("C", &tid), ("D", &tid)],
        vec![("A", "B"), ("A", "C"), ("B", "D"), ("C", "D")],
        vec!["D"],
    );
    let mut e = plan_execution(&g, &input_hash).expect("valid graph");

    let mut d_input = String::new();
    let mut fired = Vec::new();
    while let Some(f) = e.next_firing(&mut kernel).expect("no kernel error") {
        fired.push(f.node_name.clone());
        let output = match f.node_name.as_str() {
            "A" => num("0"),
            "B" => num("10"),
            "C" => num("32"),
            "D" => {
                d_input = f.input_doc.clone();
                num("42")
            }
            _ => panic!("unexpected node"),
        };
        e.record_outcome(
            &mut kernel,
            FiringOutcome::Success { output, output_bytes: 2, duration_ms: 1 },
        );
    }
    e.finish(&mut kernel);
    assert_eq!(kernel.num_traces(), 4);
    assert_eq!(fired.len(), 4);
    // D's input lists B's and C's outputs in edge declaration order.
    assert_eq!(d_input, "[10,32]");
}

#[test]
fn failing_middle_node_stops_downstream() {
    let mut kernel = Kernel::new();
    let tid = register(&mut kernel, "step", "cp");
    let input_hash = kernel.persist_state(&num("0"));
    let g = graph(
        vec![("A", &tid), ("B", &tid), ("C", &tid)],
        vec![("A", "B"), ("B", "C")],
        vec!["C"],
    );
    let mut e = plan_execution(&g, &input_hash).expect("valid graph");

    let fa = e.next_firing(&mut kernel).unwrap().expect("A fires");
    assert_eq!(fa.node_name, "A");
    e.record_outcome(
        &mut kernel,
        FiringOutcome::Success { output: num("1"), output_bytes: 1, duration_ms: 1 },
    );
    let fb = e.next_firing(&mut kernel).unwrap().expect("B fires");
    assert_eq!(fb.node_name, "B");
    e.record_outcome(
        &mut kernel,
        FiringOutcome::Failure {
            exit_code: Some(3),
            stderr: "boom".to_string(),
            duration_ms: 1,
        },
    );
    let rc = e.next_firing(&mut kernel);
    match rc {
        Err(KernelError::PredecessorMissing { name }) => assert_eq!(name, "B"),
        other => panic!("expected PredecessorMissing, got {:?}", other.is_ok()),
    }
    assert_eq!(kernel.num_traces(), 2);
    assert!(kernel.trace_at(0).error.is_none());
    let tb = kernel.trace_at(1);
    assert!(tb.error.is_some());
    assert_eq!(tb.outputs_hash, "");
    assert_eq!(encode_json(&tb.resource_usage), "{\"exit_code\":3}");
}

#[test]
fn cycle_is_rejected_before_any_firing() {
    let mut kernel = Kernel::new();
    let tid = register(&mut kernel, "step", "cp");
    let input_hash = kernel.persist_state(&num("0"));
    let g = graph(
        vec![("A", &tid), ("B", &tid)],
        vec![("A", "B"), ("B", "A")],
        vec!["B"],
    );
    let r = plan_execution(&g, &input_hash);
    assert!(matches!(r, Err(KernelError::CycleDetected)));
    assert_eq!(kernel.num_traces(), 0);
    assert_eq!(kernel.num_states(), 1);
}

#[test]
fn graph_validation_errors() {
    let dup = graph(vec![("A", "t"), ("A", "t")], vec![], vec![]);
    assert!(matches!(
        plan_execution(&dup, "h"),
        Err(KernelError::DuplicateNode { .. })
    ));
    let reserved = graph(vec![("__input", "t")], vec![], vec![]);
    assert!(matches!(
        plan_execution(&reserved, "h"),
        Err(KernelError::ReservedNode { .. })
    ));
    let unknown = graph(vec![("A", "t")], vec![("A", "Z")], vec![]);
    assert!(matches!(
        plan_execution(&unknown, "h"),
        Err(KernelError::UnknownNode { .. })
    ));
    let self_loop = graph(vec![("A", "t")], vec![("A", "A")], vec![]);
    assert!(matches!(
        plan_execution(&self_loop, "h"),
        Err(KernelError::CycleDetected)
    ));
}

#[test]
fn missing_transform_and_empty_command_abort() {
    let mut kernel = Kernel::new();
    let input_hash = kernel.persist_state(&num("0"));
    let g = graph(vec![("A", "ghost")], vec![], vec!["A"]);
    let mut e = plan_execution(&g, &input_hash).expect("valid graph");
    assert!(matches!(
        e.next_firing(&mut kernel),
        Err(KernelError::TransformNotFound { .. })
    ));

    let tid = register(&mut kernel, "blank", "   \t ");
    let g2 = graph(vec![("A", &tid)], vec![], vec!["A"]);
    let mut e2 = plan_execution(&g2, &input_hash).expect("valid graph");
    assert!(matches!(
        e2.next_firing(&mut kernel),
        Err(KernelError::EmptyExecCommand { .. })
    ));
    assert_eq!(kernel.num_traces(), 0);
}

#[test]
fn missing_root_input_is_not_found() {
    let mut kernel = Kernel::new();
    let tid = register(&mut kernel, "step", "cp");
    let g = graph(vec![("A", &tid)], vec![], vec!["A"]);
    let mut e = plan_execution(&g, "unpersisted").expect("valid graph");
    assert!(matches!(
        e.next_firing(&mut kernel),
        Err(KernelError::NotFound { .. })
    ));
}

#[test]
fn summary_hash_depends_only_on_contents() {
    let mut kernel = Kernel::new();
    let tid = register(&mut kernel, "step", "cp");
    let input_hash = kernel.persist_state(&num("0"));
    let g = graph(vec![("A", &tid)], vec![], vec!["A"]);
    let mut e = plan_execution(&g, &input_hash).expect("valid graph");
    e.next_firing(&mut kernel).unwrap().expect("fires");
    e.record_outcome(
        &mut kernel,
        FiringOutcome::Success { output: num("1"), output_bytes: 1, duration_ms: 1 },
    );
    let summary_hash = e.finish(&mut kernel);
    // The stored summary's canonical bytes hash back to its address.
    let summary = kernel.load_state(&summary_hash).unwrap();
    let rehash = hex::encode(sha2::Sha256::digest(encode_json(&summary).as_bytes()));
    assert_eq!(rehash, summary_hash);
}

#[test]
fn version_strings() {
    assert_eq!(ml_version(), "engine-ml v0.1.0");
    assert_eq!(infer_stub(), "ml infer stub (install onnxruntime and enable crate)");
}
