use wonnx::compute::collect_outputs;
use wonnx::onnx::{Attribute, AttributeValue, Graph, Node, TensorData, ValueInfo};
use wonnx::resource::BufferAction;
use wonnx::Session;
use wonnx::SessionError;

fn bits(v: &[f32]) -> Vec<u32> {
    v.iter().map(|x| x.to_bits()).collect()
}

fn floats(v: &[u32]) -> Vec<f32> {
    v.iter().map(|x| f32::from_bits(*x)).collect()
}

fn tensor(name: &str, dims: &[u64], data: &[f32]) -> TensorData {
    TensorData { name: name.to_string(), dims: dims.to_vec(), data: bits(data) }
}

fn vinfo(name: &str, dims: &[i64]) -> ValueInfo {
    ValueInfo { name: name.to_string(), dims: dims.to_vec() }
}

fn node(op: &str, name: &str, ins: &[&str], outs: &[&str], attrs: Vec<Attribute>) -> Node {
    Node {
        op_type: op.to_string(),
        name: name.to_string(),
        input: ins.iter().map(|s| s.to_string()).collect(),
        output: outs.iter().map(|s| s.to_string()).collect(),
        attribute: attrs,
    }
}

fn int_attr(name: &str, v: i64) -> Attribute {
    Attribute { name: name.to_string(), value: AttributeValue::Int(v) }
}

fn ints_attr(name: &str, v: &[i64]) -> Attribute {
    Attribute { name: name.to_string(), value: AttributeValue::Ints(v.to_vec()) }
}

fn add_graph() -> Graph {
    Graph {
        node: vec![node("Add", "sum", &["a", "b"], &["c"], vec![])],
        initializer: vec![],
        input: vec![vinfo("a", &[4]), vinfo("b", &[4])],
        output: vec![vinfo("c", &[4])],
    }
}

#[test]
fn add_graph_end_to_end() {
    let (mut s, acts) = Session::from_model(add_graph()).unwrap();
    assert!(acts.is_empty());
    let inputs = vec![
        tensor("a", &[4], &[1.0, 2.0, 3.0, 4.0]),
        tensor("b", &[4], &[10.0, 20.0, 30.0, 40.0]),
    ];
    let plan = s.plan_run(&inputs).unwrap();
    assert_eq!(plan.kernels.len(), 1);
    let k = &plan.kernels[0];
    assert_eq!(k.bindings.len(), 3);
    assert_eq!(k.bindings[0].name, "a");
    assert!(!k.bindings[0].read_write);
    assert_eq!(k.bindings[1].name, "b");
    assert!(!k.bindings[1].read_write);
    assert_eq!(k.bindings[2].name, "c");
    assert!(k.bindings[2].read_write);
    assert_eq!(k.dispatch, (1, 1, 1));
    assert!(k.shader.contains("v2[i] = v0[ia] + v1[ib];"));
    assert!(k.shader.contains("if (i >= 4u) { return; }"));
    // Act as the device: gather the two uploads and perform the
    // elementwise addition the kernel describes.
    let writes: Vec<&Vec<u32>> = plan
        .actions
        .iter()
        .filter_map(|a| match a {
            BufferAction::WriteData { data, .. } => Some(data),
            _ => None,
        })
        .collect();
    assert_eq!(writes.len(), 2);
    let a = floats(writes[0]);
    let b = floats(writes[1]);
    let out: Vec<f32> = a.iter().zip(b.iter()).map(|(x, y)| x + y).collect();
    let mapped = vec![tensor("c", &[4], &out)];
    let results = collect_outputs(&plan, &mapped).unwrap();
    assert_eq!(results.len(), 1);
    assert_eq!(results[0].name, "c");
    assert_eq!(results[0].dims, vec![4]);
    assert_eq!(floats(&results[0].data), vec![11.0, 22.0, 33.0, 44.0]);
}

#[test]
fn determinism_two_runs() {
    let (mut s, _) = Session::from_model(add_graph()).unwrap();
    let inputs = vec![
        tensor("a", &[4], &[1.0, 2.0, 3.0, 4.0]),
        tensor("b", &[4], &[10.0, 20.0, 30.0, 40.0]),
    ];
    let p1 = s.plan_run(&inputs).unwrap();
    let p2 = s.plan_run(&inputs).unwrap();
    assert_eq!(p1.kernels.len(), p2.kernels.len());
    for (k1, k2) in p1.kernels.iter().zip(p2.kernels.iter()) {
        assert_eq!(k1.shader, k2.shader);
        assert_eq!(k1.dispatch, k2.dispatch);
        assert_eq!(k1.bindings.len(), k2.bindings.len());
        for (b1, b2) in k1.bindings.iter().zip(k2.bindings.iter()) {
            assert_eq!(b1.name, b2.name);
            assert_eq!(b1.read_write, b2.read_write);
        }
    }
    // The second identical run reuses every buffer: its only device
    // actions are the fresh input uploads.
    assert!(p2.actions.iter().all(|a| matches!(a, BufferAction::WriteData { .. })));
    let w1: Vec<&Vec<u32>> = p1
        .actions
        .iter()
        .filter_map(|a| match a {
            BufferAction::WriteData { data, .. } => Some(data),
            _ => None,
        })
        .collect();
    let w2: Vec<&Vec<u32>> = p2
        .actions
        .iter()
        .filter_map(|a| match a {
            BufferAction::WriteData { data, .. } => Some(data),
            _ => None,
        })
        .collect();
    assert_eq!(w1, w2);
}

#[test]
fn reallocation_on_batch_change() {
    let g = Graph {
        node: vec![node("Relu", "r", &["x"], &["y"], vec![])],
        initializer: vec![],
        input: vec![vinfo("x", &[-1, 3])],
        output: vec![vinfo("y", &[-1, 3])],
    };
    let (mut s, _) = Session::from_model(g).unwrap();
    let r1 = s.plan_run(&vec![tensor("x", &[2, 3], &[0.0; 6])]).unwrap();
    assert_eq!(r1.outputs[0].dims, vec![2, 3]);
    // A different batch size must not raise a shape error: the
    // registry reconciles by reallocating.
    let r2 = s.plan_run(&vec![tensor("x", &[4, 3], &[0.0; 12])]).unwrap();
    assert_eq!(r2.outputs[0].dims, vec![4, 3]);
    assert!(r2.actions.iter().any(|a| matches!(a, BufferAction::Release { .. })));
    assert!(r2.actions.iter().any(|a| matches!(a, BufferAction::CreateUninit { .. })));
}

#[test]
fn missing_initializer_fails_construction() {
    let g = Graph {
        node: vec![node("Add", "sum", &["a", "w"], &["c"], vec![])],
        initializer: vec![],
        input: vec![vinfo("a", &[4])],
        output: vec![vinfo("c", &[4])],
    };
    match Session::from_model(g) {
        Err(SessionError::MissingInitializer(n)) => assert_eq!(n, "w"),
        _ => panic!("expected a missing-initializer failure"),
    }
}

#[test]
fn unsupported_operator_leaves_session_usable() {
    let g = Graph {
        node: vec![node("Conv", "c0", &["a"], &["c"], vec![])],
        initializer: vec![],
        input: vec![vinfo("a", &[4])],
        output: vec![vinfo("c", &[4])],
    };
    let (mut s, _) = Session::from_model(g).unwrap();
    let inputs = vec![tensor("a", &[4], &[1.0, 2.0, 3.0, 4.0])];
    match s.plan_run(&inputs) {
        Err(SessionError::UnsupportedOperator(op)) => assert_eq!(op, "Conv"),
        _ => panic!("expected an unsupported-operator failure"),
    }
    // The failed run does not poison the session: the same call
    // reports the same failure, and a session over a graph without
    // the operator runs fine afterwards.
    assert!(matches!(s.plan_run(&inputs), Err(SessionError::UnsupportedOperator(_))));
    let (mut s2, _) = Session::from_model(add_graph()).unwrap();
    let ok = s2
        .plan_run(&vec![
            tensor("a", &[4], &[1.0, 2.0, 3.0, 4.0]),
            tensor("b", &[4], &[1.0, 1.0, 1.0, 1.0]),
        ])
        .is_ok();
    assert!(ok);
}

fn reduce_graph(attrs: Vec<Attribute>) -> Graph {
    Graph {
        node: vec![node("ReduceSum", "r", &["x"], &["y"], attrs)],
        initializer: vec![],
        input: vec![vinfo("x", &[2, 3])],
        output: vec![vinfo("y", &[])],
    }
}

#[test]
fn attribute_default_keepdims() {
    let inputs = vec![tensor("x", &[2, 3], &[1.0; 6])];
    let (mut s1, _) = Session::from_model(reduce_graph(vec![int_attr("axis", 1)])).unwrap();
    let p1 = s1.plan_run(&inputs).unwrap();
    let (mut s2, _) = Session::from_model(reduce_graph(vec![
        int_attr("axis", 1),
        int_attr("keepdims", 1),
    ]))
    .unwrap();
    let p2 = s2.plan_run(&inputs).unwrap();
    // An absent optional attribute behaves exactly as its default
    // supplied explicitly.
    assert_eq!(p1.kernels[0].shader, p2.kernels[0].shader);
    assert_eq!(p1.kernels[0].dispatch, p2.kernels[0].dispatch);
    assert_eq!(p1.outputs[0].dims, vec![2, 1]);
    assert_eq!(p2.outputs[0].dims, vec![2, 1]);
}

#[test]
fn missing_required_attribute() {
    let (mut s, _) = Session::from_model(reduce_graph(vec![])).unwrap();
    let inputs = vec![tensor("x", &[2, 3], &[1.0; 6])];
    match s.plan_run(&inputs) {
        Err(SessionError::MissingAttribute(n)) => assert_eq!(n, "axis"),
        _ => panic!("expected a missing-attribute failure"),
    }
}

#[test]
fn reduce_sum_shapes_and_negative_axis() {
    let inputs = vec![tensor("x", &[2, 3], &[1.0; 6])];
    let (mut s, _) = Session::from_model(reduce_graph(vec![
        int_attr("axis", 1),
        int_attr("keepdims", 0),
    ]))
    .unwrap();
    let p = s.plan_run(&inputs).unwrap();
    assert_eq!(p.outputs[0].dims, vec![2]);
    assert!(p.kernels[0].shader.contains("acc = acc + v0[base + k * 1u];"));
    assert!(p.kernels[0].shader.contains("k < 3u"));
    let (mut s2, _) = Session::from_model(reduce_graph(vec![
        int_attr("axis", -1),
        int_attr("keepdims", 0),
    ]))
    .unwrap();
    let p2 = s2.plan_run(&inputs).unwrap();
    assert_eq!(p2.outputs[0].dims, vec![2]);
    let (mut s3, _) = Session::from_model(reduce_graph(vec![
        int_attr("axis", 5),
        int_attr("keepdims", 0),
    ]))
    .unwrap();
    assert!(matches!(s3.plan_run(&inputs), Err(SessionError::ShapeMismatch(_))));
}

#[test]
fn broadcast_shapes() {
    let g = Graph {
        node: vec![node("Mul", "m", &["a", "b"], &["c"], vec![])],
        initializer: vec![],
        input: vec![vinfo("a", &[2, 3]), vinfo("b", &[3])],
        output: vec![vinfo("c", &[2, 3])],
    };
    let (mut s, _) = Session::from_model(g).unwrap();
    let p = s
        .plan_run(&vec![
            tensor("a", &[2, 3], &[1.0; 6]),
            tensor("b", &[3], &[2.0; 3]),
        ])
        .unwrap();
    assert_eq!(p.outputs[0].dims, vec![2, 3]);
    assert!(p.kernels[0].shader.contains("v2[i] = v0[ia] * v1[ib];"));
    let g2 = Graph {
        node: vec![node("Add", "m", &["a", "b"], &["c"], vec![])],
        initializer: vec![],
        input: vec![vinfo("a", &[2, 3]), vinfo("b", &[4])],
        output: vec![vinfo("c", &[])],
    };
    let (mut s2, _) = Session::from_model(g2).unwrap();
    let r = s2.plan_run(&vec![
        tensor("a", &[2, 3], &[1.0; 6]),
        tensor("b", &[4], &[2.0; 4]),
    ]);
    assert!(matches!(r, Err(SessionError::ShapeMismatch(_))));
}

#[test]
fn reshape_shapes() {
    let mk = |target: &[i64]| Graph {
        node: vec![node("Reshape", "r", &["x"], &["y"], vec![ints_attr("shape", target)])],
        initializer: vec![],
        input: vec![vinfo("x", &[2, 3])],
        output: vec![vinfo("y", &[])],
    };
    let inputs = vec![tensor("x", &[2, 3], &[1.0; 6])];
    let (mut s, _) = Session::from_model(mk(&[3, 2])).unwrap();
    let p = s.plan_run(&inputs).unwrap();
    assert_eq!(p.outputs[0].dims, vec![3, 2]);
    assert!(p.kernels[0].shader.contains("v1[i] = v0[i];"));
    let (mut s2, _) = Session::from_model(mk(&[4, 2])).unwrap();
    assert!(matches!(s2.plan_run(&inputs), Err(SessionError::ShapeMismatch(_))));
}

#[test]
fn input_validation() {
    let (mut s, _) = Session::from_model(add_graph()).unwrap();
    // Rank disagrees with the declaration.
    let r = s.plan_run(&vec![
        tensor("a", &[2, 2], &[1.0; 4]),
        tensor("b", &[4], &[1.0; 4]),
    ]);
    assert!(matches!(r, Err(SessionError::ShapeMismatch(_))));
    // A fixed declared dimension disagrees.
    let r = s.plan_run(&vec![
        tensor("a", &[5], &[1.0; 5]),
        tensor("b", &[4], &[1.0; 4]),
    ]);
    assert!(matches!(r, Err(SessionError::ShapeMismatch(_))));
    // Data length disagrees with the shape.
    let r = s.plan_run(&vec![
        tensor("a", &[4], &[1.0; 3]),
        tensor("b", &[4], &[1.0; 4]),
    ]);
    assert!(matches!(r, Err(SessionError::ShapeMismatch(_))));
    // An input name the graph does not declare.
    let r = s.plan_run(&vec![
        tensor("z", &[4], &[1.0; 4]),
        tensor("b", &[4], &[1.0; 4]),
    ]);
    assert!(matches!(r, Err(SessionError::ShapeMismatch(_))));
}

#[test]
fn unresolved_shape_on_forward_reference() {
    let g = Graph {
        node: vec![
            node("Add", "sum", &["x", "t"], &["y"], vec![]),
            node("Relu", "r", &["x"], &["t"], vec![]),
        ],
        initializer: vec![],
        input: vec![vinfo("x", &[4])],
        output: vec![vinfo("y", &[4])],
    };
    // Construction succeeds: every name is produced somewhere.
    let (mut s, _) = Session::from_model(g).unwrap();
    match s.plan_run(&vec![tensor("x", &[4], &[1.0; 4])]) {
        Err(SessionError::UnresolvedShape(n)) => assert_eq!(n, "t"),
        _ => panic!("expected an unresolved-shape failure"),
    }
}

#[test]
fn malformed_initializer_fails_load() {
    let g = Graph {
        node: vec![node("Relu", "r", &["w"], &["y"], vec![])],
        initializer: vec![tensor("w", &[3], &[1.0, 2.0])],
        input: vec![],
        output: vec![vinfo("y", &[3])],
    };
    assert!(matches!(Session::from_model(g), Err(SessionError::ModelLoad(_))));
}

#[test]
fn initializer_loaded_once_with_data() {
    let g = Graph {
        node: vec![node("Relu", "r", &["w"], &["y"], vec![])],
        initializer: vec![tensor("w", &[2], &[-1.5, 2.5])],
        input: vec![],
        output: vec![vinfo("y", &[2])],
    };
    let (mut s, acts) = Session::from_model(g).unwrap();
    assert_eq!(acts.len(), 1);
    match &acts[0] {
        BufferAction::CreateWithData { id, data } => {
            assert_eq!(*id, 0);
            assert_eq!(floats(data), vec![-1.5, 2.5]);
        },
        _ => panic!("expected the constant's creation"),
    }
    let p = s.plan_run(&vec![]).unwrap();
    assert_eq!(p.outputs[0].dims, vec![2]);
    assert!(p.kernels[0].shader.contains("max(v0[i], 0.0)"));
    // No fresh upload of the constant on a run.
    assert!(p.actions.iter().all(|a| !matches!(a, BufferAction::WriteData { .. })));
}

#[test]
fn collect_outputs_failures() {
    let (mut s, _) = Session::from_model(add_graph()).unwrap();
    let inputs = vec![
        tensor("a", &[4], &[1.0; 4]),
        tensor("b", &[4], &[1.0; 4]),
    ];
    let plan = s.plan_run(&inputs).unwrap();
    // Nothing mapped back for the requested output.
    match collect_outputs(&plan, &vec![]) {
        Err(SessionError::MappingFailed(n)) => assert_eq!(n, "c"),
        _ => panic!("expected a mapping failure"),
    }
    // Mapped data of the wrong length.
    let short = vec![tensor("c", &[4], &[0.0; 3])];
    assert!(matches!(collect_outputs(&plan, &short), Err(SessionError::MappingFailed(_))));
}

#[test]
fn two_node_chain_in_order() {
    // y = Relu(a - b): the subtraction's kernel is recorded before
    // the activation that reads its result.
    let g = Graph {
        node: vec![
            node("Sub", "d", &["a", "b"], &["t"], vec![]),
            node("Relu", "r", &["t"], &["y"], vec![]),
        ],
        initializer: vec![],
        input: vec![vinfo("a", &[4]), vinfo("b", &[4])],
        output: vec![vinfo("y", &[4])],
    };
    let (mut s, _) = Session::from_model(g).unwrap();
    let plan = s
        .plan_run(&vec![
            tensor("a", &[4], &[5.0, 1.0, 7.0, 0.0]),
            tensor("b", &[4], &[2.0, 3.0, 4.0, 5.0]),
        ])
        .unwrap();
    assert_eq!(plan.kernels.len(), 2);
    assert!(plan.kernels[0].shader.contains("v2[i] = v0[ia] - v1[ib];"));
    assert!(plan.kernels[1].shader.contains("max(v0[i], 0.0)"));
    assert_eq!(plan.kernels[0].bindings[2].name, "t");
    assert_eq!(plan.kernels[1].bindings[0].name, "t");
    // The intermediate gets its own buffer, distinct from the output.
    let find = |n: &str| plan.buffers.iter().find(|(name, _)| name == n).unwrap().1;
    assert_ne!(find("t"), find("y"));
    // Simulate the two dispatches in recorded order.
    let writes: Vec<&Vec<u32>> = plan
        .actions
        .iter()
        .filter_map(|a| match a {
            BufferAction::WriteData { data, .. } => Some(data),
            _ => None,
        })
        .collect();
    let a = floats(writes[0]);
    let b = floats(writes[1]);
    let t: Vec<f32> = a.iter().zip(b.iter()).map(|(x, y)| x - y).collect();
    let y: Vec<f32> = t.iter().map(|x| x.max(0.0)).collect();
    let results = collect_outputs(&plan, &vec![tensor("y", &[4], &y)]).unwrap();
    assert_eq!(floats(&results[0].data), vec![3.0, 0.0, 3.0, 0.0]);
}

#[test]
fn division_and_scalar_broadcast() {
    let g = Graph {
        node: vec![node("Div", "d", &["a", "b"], &["c"], vec![])],
        initializer: vec![],
        input: vec![vinfo("a", &[2, 2]), vinfo("b", &[1])],
        output: vec![vinfo("c", &[2, 2])],
    };
    let (mut s, _) = Session::from_model(g).unwrap();
    let plan = s
        .plan_run(&vec![
            tensor("a", &[2, 2], &[2.0, 4.0, 6.0, 8.0]),
            tensor("b", &[1], &[2.0]),
        ])
        .unwrap();
    assert_eq!(plan.outputs[0].dims, vec![2, 2]);
    let k = &plan.kernels[0];
    assert!(k.shader.contains("v2[i] = v0[ia] / v1[ib];"));
    // The scalar is read with stride 0 along every position.
    assert!(k.shader.contains("ib = ib + ((i / 2u) % 2u) * 0u;"));
    assert!(k.shader.contains("ib = ib + ((i / 1u) % 2u) * 0u;"));
    // The full-shape input walks its own strides.
    assert!(k.shader.contains("ia = ia + ((i / 2u) % 2u) * 2u;"));
    assert!(k.shader.contains("ia = ia + ((i / 1u) % 2u) * 1u;"));
}

#[test]
fn duplicate_initializer_last_wins_and_releases() {
    let g = Graph {
        node: vec![node("Relu", "r", &["w"], &["y"], vec![])],
        initializer: vec![
            tensor("w", &[2], &[1.0, 2.0]),
            tensor("w", &[3], &[5.0, 6.0, 7.0]),
        ],
        input: vec![],
        output: vec![vinfo("y", &[3])],
    };
    let (mut s, acts) = Session::from_model(g).unwrap();
    // Both constants are created under their own buffers; the
    // superseded duplicate is released.
    assert_eq!(acts.len(), 3);
    assert!(matches!(&acts[0], BufferAction::CreateWithData { id: 0, .. }));
    assert!(matches!(&acts[1], BufferAction::Release { id: 0 }));
    match &acts[2] {
        BufferAction::CreateWithData { id, data } => {
            assert_eq!(*id, 1);
            assert_eq!(floats(data), vec![5.0, 6.0, 7.0]);
        },
        _ => panic!("expected the second constant's creation"),
    }
    // The later initializer won: the run resolves with its shape.
    let p = s.plan_run(&vec![]).unwrap();
    assert_eq!(p.outputs[0].dims, vec![3]);
}
