//! The shape resolver: seeds resolved shapes from initializers and
//! from the run's supplied inputs, validates the inputs against their
//! declarations, and propagates shapes forward through the nodes in
//! declaration order using per-operator inference rules.
use vstd::prelude::*;
use crate::onnx::{
    elem_count, spec_elem_count, spec_find_attr, spec_graph_wf, spec_tensor_wf, spec_valid_dims,
    str_is, AttributeValue, Graph, Node, TensorData, ValueInfo, MAX_RANK,
};
use crate::SessionError;

verus! {

/// Why shape inference stopped, at the specification level.
pub enum InferErrorKind {
    /// A needed shape was not yet resolved.
    Unresolved,
    /// Shapes disagree, or a shape leaves the accepted range.
    Mismatch,
    /// No rule for this operator type or arity.
    Unsupported,
    /// A required attribute is absent or of the wrong kind.
    MissingAttribute,
}

/// Whether an error value reports the given inference failure: the
/// variant carries the failure's kind, its payload the name it
/// reports — the unresolved tensor, the mismatching input or node,
/// the unsupported operator tag, or the absent attribute.
pub open spec fn spec_err_matches(e: SessionError, k: (InferErrorKind, Seq<char>)) -> bool {
    match k.0 {
        InferErrorKind::Unresolved => e matches SessionError::UnresolvedShape(s) && s@ == k.1,
        InferErrorKind::Mismatch => e matches SessionError::ShapeMismatch(s) && s@ == k.1,
        InferErrorKind::Unsupported => e matches SessionError::UnsupportedOperator(s) && s@ == k.1,
        InferErrorKind::MissingAttribute => e matches SessionError::MissingAttribute(s) && s@
            == k.1,
    }
}

/// One resolved shape: a tensor name and its concrete dimensions.
pub struct ShapeEntry {
    pub name: String,
    pub dims: Vec<u64>,
}

/// The abstract shape environment: name/shape pairs in seeding order.
pub open spec fn env_view(s: Seq<ShapeEntry>) -> Seq<(Seq<char>, Seq<u64>)> {
    s.map_values(|e: ShapeEntry| (e.name@, e.dims@))
}

/// Every shape in the environment is valid.
pub open spec fn env_wf(env: Seq<(Seq<char>, Seq<u64>)>) -> bool {
    forall|i: int| 0 <= i < env.len() ==> spec_valid_dims((#[trigger] env[i]).1)
}

/// No two bindings carry the same name.
pub open spec fn env_distinct(env: Seq<(Seq<char>, Seq<u64>)>) -> bool {
    forall|a: int, b: int|
        0 <= a < b < env.len() ==> (#[trigger] env[a]).0 != (#[trigger] env[b]).0
}

/// The shape bound to a name: first binding in seeding order.
pub open spec fn spec_env_get(env: Seq<(Seq<char>, Seq<u64>)>, name: Seq<char>) -> Option<Seq<u64>>
    decreases env.len(),
{
    if env.len() == 0 {
        None
    } else if env[0].0 == name {
        Some(env[0].1)
    } else {
        spec_env_get(env.drop_first(), name)
    }
}

/// The environment after binding a name: the first existing binding
/// is replaced, otherwise the pair is appended.
pub open spec fn spec_env_put(
    env: Seq<(Seq<char>, Seq<u64>)>,
    name: Seq<char>,
    dims: Seq<u64>,
) -> Seq<(Seq<char>, Seq<u64>)>
    decreases env.len(),
{
    if env.len() == 0 {
        seq![(name, dims)]
    } else if env[0].0 == name {
        env.update(0, (name, dims))
    } else {
        seq![env[0]] + spec_env_put(env.drop_first(), name, dims)
    }
}

/// Binding a name binds exactly that name: lookups of every other
/// name are unchanged.
pub proof fn lemma_env_get_put(env: Seq<(Seq<char>, Seq<u64>)>, name: Seq<char>, dims: Seq<u64>)
    ensures
        spec_env_get(spec_env_put(env, name, dims), name) == Some(dims),
        forall|m: Seq<char>|
            m != name ==> #[trigger] spec_env_get(spec_env_put(env, name, dims), m) == spec_env_get(
                env,
                m,
            ),
    decreases env.len(),
{
    let out = spec_env_put(env, name, dims);
    if env.len() == 0 {
        assert(out.drop_first() =~= Seq::<(Seq<char>, Seq<u64>)>::empty());
        assert(spec_env_get(out, name) == Some(dims));
        assert forall|m: Seq<char>| m != name implies #[trigger] spec_env_get(out, m)
            == spec_env_get(env, m) by {
            assert(spec_env_get(out, m) == spec_env_get(out.drop_first(), m));
        }
    } else if env[0].0 == name {
        assert(out[0] == (name, dims));
        assert(out.drop_first() =~= env.drop_first());
        assert forall|m: Seq<char>| m != name implies #[trigger] spec_env_get(out, m)
            == spec_env_get(env, m) by {
            assert(spec_env_get(out, m) == spec_env_get(out.drop_first(), m));
            assert(spec_env_get(env, m) == spec_env_get(env.drop_first(), m));
        }
    } else {
        lemma_env_get_put(env.drop_first(), name, dims);
        assert(out[0] == env[0]);
        assert(out.drop_first() =~= spec_env_put(env.drop_first(), name, dims));
        assert(spec_env_get(out, name) == spec_env_get(out.drop_first(), name));
        assert forall|m: Seq<char>| m != name implies #[trigger] spec_env_get(out, m)
            == spec_env_get(env, m) by {
            if env[0].0 != m {
                assert(spec_env_get(out, m) == spec_env_get(out.drop_first(), m));
                assert(spec_env_get(env, m) == spec_env_get(env.drop_first(), m));
            }
        }
    }
}

/// With distinct names, the binding at any index is the lookup
/// result of its name.
pub proof fn lemma_env_get_at(env: Seq<(Seq<char>, Seq<u64>)>, i: int)
    requires
        env_distinct(env),
        0 <= i < env.len(),
    ensures
        spec_env_get(env, env[i].0) == Some(env[i].1),
    decreases env.len(),
{
    if i > 0 {
        assert(env[0].0 != env[i].0);
        assert(env_distinct(env.drop_first()));
        lemma_env_get_at(env.drop_first(), i - 1);
        assert(env.drop_first()[i - 1] == env[i]);
    }
}

/// Binding a valid shape keeps the environment well formed.
pub proof fn lemma_env_put_wf(env: Seq<(Seq<char>, Seq<u64>)>, name: Seq<char>, dims: Seq<u64>)
    requires
        env_wf(env),
        spec_valid_dims(dims),
    ensures
        env_wf(spec_env_put(env, name, dims)),
    decreases env.len(),
{
    let out = spec_env_put(env, name, dims);
    if env.len() == 0 {
    } else if env[0].0 == name {
    } else {
        assert(env_wf(env.drop_first()));
        lemma_env_put_wf(env.drop_first(), name, dims);
        assert(out =~= seq![env[0]] + spec_env_put(env.drop_first(), name, dims));
        assert forall|i: int| 0 <= i < out.len() implies spec_valid_dims(
            (#[trigger] out[i]).1,
        ) by {
            if i > 0 {
                assert(out[i] == spec_env_put(env.drop_first(), name, dims)[i - 1]);
            }
        }
    }
}

/// Index of the first entry of the given name in the concrete
/// environment, if any.
fn env_find(env: &Vec<ShapeEntry>, name: &str) -> (r: Option<usize>)
    ensures
        match r {
            Some(i) => i < env@.len() && env@[i as int].name@ == name@ && (forall|k: int|
                0 <= k < i ==> (#[trigger] env@[k]).name@ != name@) && spec_env_get(
                env_view(env@),
                name@,
            ) == Some(env@[i as int].dims@),
            None => spec_env_get(env_view(env@), name@) is None && forall|k: int|
                0 <= k < env@.len() ==> (#[trigger] env@[k]).name@ != name@,
        },
{
    let mut i: usize = 0;
    proof {
        assert(env_view(env@).skip(0) =~= env_view(env@));
    }
    while i < env.len()
        invariant
            0 <= i <= env@.len(),
            spec_env_get(env_view(env@), name@) == spec_env_get(
                env_view(env@).skip(i as int),
                name@,
            ),
            forall|k: int| 0 <= k < i ==> (#[trigger] env@[k]).name@ != name@,
        decreases env@.len() - i,
    {
        proof {
            assert(env_view(env@).skip(i as int).drop_first() =~= env_view(env@).skip(i as int + 1));
        }
        if str_is(&env[i].name, name) {
            return Some(i);
        }
        i = i + 1;
    }
    proof {
        assert(env_view(env@).skip(i as int) =~= Seq::<(Seq<char>, Seq<u64>)>::empty());
    }
    None
}

/// The shape resolved for a name, if any.
pub fn env_get<'a>(env: &'a Vec<ShapeEntry>, name: &str) -> (r: Option<&'a Vec<u64>>)
    ensures
        match r {
            Some(d) => spec_env_get(env_view(env@), name@) == Some(d@),
            None => spec_env_get(env_view(env@), name@) is None,
        },
{
    match env_find(env, name) {
        Some(i) => Some(&env[i].dims),
        None => None,
    }
}

/// Binds a name to a shape, superseding any earlier binding.
pub fn env_put(env: &mut Vec<ShapeEntry>, name: &String, dims: Vec<u64>)
    ensures
        env_view(final(env)@) == spec_env_put(env_view(old(env)@), name@, dims@),
        env_distinct(env_view(old(env)@)) ==> env_distinct(env_view(final(env)@)),
        final(env)@.len() <= old(env)@.len() + 1,
{
    let ghost oldv = env_view(env@);
    match env_find(env, name.as_str()) {
        Some(i) => {
            proof {
                lemma_env_put_first_match(oldv, name@, dims@, i as int);
            }
            env[i] = ShapeEntry { name: env[i].name.clone(), dims };
            proof {
                assert(env_view(env@) =~= oldv.update(i as int, (name@, dims@)));
                if env_distinct(oldv) {
                    let newv = env_view(env@);
                    assert forall|a: int, b: int| 0 <= a < b < newv.len() implies (
                    #[trigger] newv[a]).0 != (#[trigger] newv[b]).0 by {
                        assert(oldv[a].0 != oldv[b].0);
                        assert(newv[a].0 == oldv[a].0);
                        assert(newv[b].0 == oldv[b].0);
                    }
                }
            }
        },
        None => {
            proof {
                lemma_env_put_absent(oldv, name@, dims@);
            }
            env.push(ShapeEntry { name: name.clone(), dims });
            proof {
                assert(env_view(env@) =~= oldv.push((name@, dims@)));
                if env_distinct(oldv) {
                    let newv = env_view(env@);
                    assert forall|a: int, b: int| 0 <= a < b < newv.len() implies (
                    #[trigger] newv[a]).0 != (#[trigger] newv[b]).0 by {
                        if b < oldv.len() {
                            assert(oldv[a].0 != oldv[b].0);
                        } else {
                            assert(newv[b].0 == name@);
                            assert(oldv[a].0 == old(env)@[a].name@);
                            assert(oldv[a].0 != name@);
                        }
                    }
                }
            }
        },
    }
}

/// Where the first match sits at index `i`, binding is updating there.
proof fn lemma_env_put_first_match(
    env: Seq<(Seq<char>, Seq<u64>)>,
    name: Seq<char>,
    dims: Seq<u64>,
    i: int,
)
    requires
        0 <= i < env.len(),
        env[i].0 == name,
        forall|k: int| 0 <= k < i ==> (#[trigger] env[k]).0 != name,
    ensures
        spec_env_put(env, name, dims) == env.update(i, (name, dims)),
    decreases env.len(),
{
    if i == 0 {
    } else {
        assert(env[0].0 != name);
        assert(forall|k: int|
            0 <= k < i - 1 ==> (#[trigger] env.drop_first()[k]).0 != name);
        lemma_env_put_first_match(env.drop_first(), name, dims, i - 1);
        assert(spec_env_put(env, name, dims) =~= env.update(i, (name, dims)));
    }
}

/// Where the name is absent, binding is appending.
proof fn lemma_env_put_absent(env: Seq<(Seq<char>, Seq<u64>)>, name: Seq<char>, dims: Seq<u64>)
    requires
        spec_env_get(env, name) is None,
    ensures
        spec_env_put(env, name, dims) == env.push((name, dims)),
    decreases env.len(),
{
    if env.len() == 0 {
        assert(spec_env_put(env, name, dims) =~= env.push((name, dims)));
    } else {
        assert(spec_env_get(env, name) == spec_env_get(env.drop_first(), name));
        lemma_env_put_absent(env.drop_first(), name, dims);
        assert(spec_env_put(env, name, dims) =~= env.push((name, dims)));
    }
}

/// The dimension a shape contributes at position `k` of a result of
/// rank `r`, aligning shapes at their trailing dimensions.
pub open spec fn spec_dim_at(s: Seq<u64>, r: int, k: int) -> u64 {
    if k >= r - s.len() {
        s[k - (r - s.len())]
    } else {
        1
    }
}

/// Two aligned dimensions broadcast together when equal or when one
/// of them is 1.
pub open spec fn spec_bcompat(x: u64, y: u64) -> bool {
    x == y || x == 1 || y == 1
}

/// The broadcast of two aligned dimensions.
pub open spec fn spec_bdim(x: u64, y: u64) -> u64 {
    if x == 1 {
        y
    } else {
        x
    }
}

/// The rank of the broadcast of two shapes: the larger of the two.
pub open spec fn spec_brank(a: Seq<u64>, b: Seq<u64>) -> int {
    if a.len() >= b.len() {
        a.len() as int
    } else {
        b.len() as int
    }
}

/// Whether every aligned pair of dimensions broadcasts together.
pub open spec fn spec_bcompat_all(a: Seq<u64>, b: Seq<u64>, r: int) -> bool {
    forall|k: int|
        0 <= k < r ==> #[trigger] spec_bcompat(spec_dim_at(a, r, k), spec_dim_at(b, r, k))
}

/// The multidirectional broadcast of two shapes, or `None` where some
/// aligned pair is incompatible.
pub open spec fn spec_broadcast(a: Seq<u64>, b: Seq<u64>) -> Option<Seq<u64>> {
    let r = spec_brank(a, b);
    if spec_bcompat_all(a, b, r) {
        Some(Seq::new(r as nat, |k: int| spec_bdim(spec_dim_at(a, r, k), spec_dim_at(b, r, k))))
    } else {
        None
    }
}

/// Computes the broadcast of two shapes.
pub fn broadcast_dims(a: &Vec<u64>, b: &Vec<u64>) -> (r: Option<Vec<u64>>)
    ensures
        match r {
            Some(v) => spec_broadcast(a@, b@) == Some(v@),
            None => spec_broadcast(a@, b@) is None,
        },
{
    let rank = if a.len() >= b.len() {
        a.len()
    } else {
        b.len()
    };
    let mut v: Vec<u64> = Vec::new();
    let mut k: usize = 0;
    while k < rank
        invariant
            0 <= k <= rank,
            rank == spec_brank(a@, b@),
            v@.len() == k,
            forall|j: int|
                0 <= j < k ==> spec_bcompat(
                    spec_dim_at(a@, rank as int, j),
                    spec_dim_at(b@, rank as int, j),
                ),
            forall|j: int|
                0 <= j < k ==> v@[j] == spec_bdim(
                    spec_dim_at(a@, rank as int, j),
                    spec_dim_at(b@, rank as int, j),
                ),
        decreases rank - k,
    {
        let da: u64 = if k >= rank - a.len() {
            a[k - (rank - a.len())]
        } else {
            1
        };
        let db: u64 = if k >= rank - b.len() {
            b[k - (rank - b.len())]
        } else {
            1
        };
        proof {
            assert(da == spec_dim_at(a@, rank as int, k as int));
            assert(db == spec_dim_at(b@, rank as int, k as int));
        }
        if !(da == db || da == 1 || db == 1) {
            proof {
                assert(!spec_bcompat(
                    spec_dim_at(a@, spec_brank(a@, b@), k as int),
                    spec_dim_at(b@, spec_brank(a@, b@), k as int),
                ));
                assert(!spec_bcompat_all(a@, b@, spec_brank(a@, b@)));
            }
            return None;
        }
        let d = if da == 1 {
            db
        } else {
            da
        };
        v.push(d);
        k = k + 1;
    }
    proof {
        assert(v@ =~= Seq::new(
            rank as nat,
            |j: int| spec_bdim(spec_dim_at(a@, rank as int, j), spec_dim_at(b@, rank as int, j)),
        ));
    }
    Some(v)
}

/// The operator tags compiled as elementwise binary operators.
pub open spec fn spec_is_binop(op: Seq<char>) -> bool {
    op == "Add"@ || op == "Sub"@ || op == "Mul"@ || op == "Div"@
}

/// The shape-inference rule of one node: from the operator type, the
/// attributes and the already-resolved input shapes to the node's
/// output shape, or the reason inference stops.
pub open spec fn spec_infer_node(n: Node, env: Seq<(Seq<char>, Seq<u64>)>) -> Result<
    Seq<u64>,
    (InferErrorKind, Seq<char>),
> {
    let op = n.op_type@;
    if spec_is_binop(op) {
        if n.input@.len() != 2 || n.output@.len() != 1 {
            Err((InferErrorKind::Unsupported, op))
        } else {
            match (spec_env_get(env, n.input@[0]@), spec_env_get(env, n.input@[1]@)) {
                (Some(a), Some(b)) => match spec_broadcast(a, b) {
                    Some(s) => if spec_valid_dims(s) {
                        Ok(s)
                    } else {
                        Err((InferErrorKind::Mismatch, n.name@))
                    },
                    None => Err((InferErrorKind::Mismatch, n.name@)),
                },
                (None, _) => Err((InferErrorKind::Unresolved, n.input@[0]@)),
                (Some(_), None) => Err((InferErrorKind::Unresolved, n.input@[1]@)),
            }
        }
    } else if op == "Relu"@ {
        if n.input@.len() != 1 || n.output@.len() != 1 {
            Err((InferErrorKind::Unsupported, op))
        } else {
            match spec_env_get(env, n.input@[0]@) {
                Some(a) => Ok(a),
                None => Err((InferErrorKind::Unresolved, n.input@[0]@)),
            }
        }
    } else if op == "ReduceSum"@ {
        if n.input@.len() != 1 || n.output@.len() != 1 {
            Err((InferErrorKind::Unsupported, op))
        } else {
            match spec_env_get(env, n.input@[0]@) {
                None => Err((InferErrorKind::Unresolved, n.input@[0]@)),
                Some(a) => match spec_find_attr(n.attribute@, "axis"@) {
                    Some(AttributeValue::Int(ax)) => {
                        let r = a.len() as int;
                        let axn = if ax >= 0 {
                            ax as int
                        } else {
                            ax + r
                        };
                        if 0 <= axn < r {
                            match spec_find_attr(n.attribute@, "keepdims"@) {
                                Some(AttributeValue::Int(k)) => if k != 0 {
                                    Ok(a.update(axn, 1u64))
                                } else {
                                    Ok(a.remove(axn))
                                },
                                None => Ok(a.update(axn, 1u64)),
                                Some(_) => Err((InferErrorKind::MissingAttribute, "keepdims"@)),
                            }
                        } else {
                            Err((InferErrorKind::Mismatch, n.name@))
                        }
                    },
                    Some(_) => Err((InferErrorKind::MissingAttribute, "axis"@)),
                    None => Err((InferErrorKind::MissingAttribute, "axis"@)),
                },
            }
        }
    } else if op == "Reshape"@ {
        if n.input@.len() != 1 || n.output@.len() != 1 {
            Err((InferErrorKind::Unsupported, op))
        } else {
            match spec_env_get(env, n.input@[0]@) {
                None => Err((InferErrorKind::Unresolved, n.input@[0]@)),
                Some(a) => match spec_find_attr(n.attribute@, "shape"@) {
                    Some(AttributeValue::Ints(tv)) => {
                        let dims = tv@.map_values(|x: i64| x as u64);
                        if spec_valid_dims(dims) && spec_elem_count(dims) == spec_elem_count(a) {
                            Ok(dims)
                        } else {
                            Err((InferErrorKind::Mismatch, n.name@))
                        }
                    },
                    Some(_) => Err((InferErrorKind::MissingAttribute, "shape"@)),
                    None => Err((InferErrorKind::MissingAttribute, "shape"@)),
                },
            }
        }
    } else {
        Err((InferErrorKind::Unsupported, op))
    }
}

/// A shape read out of a well-formed environment is valid.
pub proof fn lemma_env_get_wf(env: Seq<(Seq<char>, Seq<u64>)>, name: Seq<char>)
    requires
        env_wf(env),
        spec_env_get(env, name) is Some,
    ensures
        spec_valid_dims(spec_env_get(env, name)->Some_0),
    decreases env.len(),
{
    if env.len() > 0 {
        if env[0].0 == name {
        } else {
            assert(env_wf(env.drop_first()));
            lemma_env_get_wf(env.drop_first(), name);
        }
    }
}

/// Computes the output shape of one node from the environment,
/// following the registered per-operator rule.
pub fn infer_node_shape(n: &Node, env: &Vec<ShapeEntry>) -> (r: Result<Vec<u64>, SessionError>)
    requires
        env_wf(env_view(env@)),
    ensures
        match r {
            Ok(v) => spec_infer_node(*n, env_view(env@)) == Ok::<
                Seq<u64>,
                (InferErrorKind, Seq<char>),
            >(v@) && spec_valid_dims(v@) && n.output@.len() == 1,
            Err(e) => spec_infer_node(*n, env_view(env@)) matches Err(k) && spec_err_matches(e, k),
        },
{
    let ghost genv = env_view(env@);
    let is_bin = str_is(&n.op_type, "Add") || str_is(&n.op_type, "Sub") || str_is(
        &n.op_type,
        "Mul",
    ) || str_is(&n.op_type, "Div");
    if is_bin {
        if n.input.len() != 2 || n.output.len() != 1 {
            return Err(SessionError::UnsupportedOperator(n.op_type.clone()));
        }
        let a = match env_get(env, n.input[0].as_str()) {
            Some(a) => a,
            None => {
                return Err(SessionError::UnresolvedShape(n.input[0].clone()));
            },
        };
        let b = match env_get(env, n.input[1].as_str()) {
            Some(b) => b,
            None => {
                return Err(SessionError::UnresolvedShape(n.input[1].clone()));
            },
        };
        let bc = match broadcast_dims(a, b) {
            Some(v) => v,
            None => {
                return Err(SessionError::ShapeMismatch(n.name.clone()));
            },
        };
        match crate::onnx::elem_count(&bc) {
            Some(_) => Ok(bc),
            None => Err(SessionError::ShapeMismatch(n.name.clone())),
        }
    } else if str_is(&n.op_type, "Relu") {
        if n.input.len() != 1 || n.output.len() != 1 {
            return Err(SessionError::UnsupportedOperator(n.op_type.clone()));
        }
        match env_get(env, n.input[0].as_str()) {
            Some(a) => {
                proof {
                    lemma_env_get_wf(genv, n.input@[0]@);
                }
                Ok(a.clone())
            },
            None => Err(SessionError::UnresolvedShape(n.input[0].clone())),
        }
    } else if str_is(&n.op_type, "ReduceSum") {
        if n.input.len() != 1 || n.output.len() != 1 {
            return Err(SessionError::UnsupportedOperator(n.op_type.clone()));
        }
        let a = match env_get(env, n.input[0].as_str()) {
            Some(a) => a,
            None => {
                return Err(SessionError::UnresolvedShape(n.input[0].clone()));
            },
        };
        proof {
            lemma_env_get_wf(genv, n.input@[0]@);
        }
        let ax_attr = match crate::get_attribute("axis", None, n) {
            Ok(v) => v,
            Err(e) => {
                return Err(e);
            },
        };
        let ax: i64 = match ax_attr {
            AttributeValue::Int(v) => *v,
            _ => {
                return Err(SessionError::MissingAttribute(String::from_str("axis")));
            },
        };
        let rank_i: i64 = a.len() as i64;
        let axn: i64 = if ax >= 0 {
            ax
        } else {
            ax + rank_i
        };
        if !(0 <= axn && axn < rank_i) {
            return Err(SessionError::ShapeMismatch(n.name.clone()));
        }
        let axu: usize = axn as usize;
        let kd_default = AttributeValue::Int(1);
        let kd = match crate::get_attribute("keepdims", Some(&kd_default), n) {
            Ok(v) => v,
            Err(e) => {
                return Err(e);
            },
        };
        let keep: bool = match kd {
            AttributeValue::Int(v) => *v != 0,
            _ => {
                return Err(SessionError::MissingAttribute(String::from_str("keepdims")));
            },
        };
        let mut out = a.clone();
        if keep {
            out[axu] = 1;
            proof {
                assert(out@ =~= a@.update(axu as int, 1u64));
                crate::onnx::lemma_count_update_one(a@, axu as int);
                assert(forall|k: int| 0 <= k < out@.len() ==> 1 <= #[trigger] out@[k]);
                crate::onnx::lemma_count_ge_one(out@);
                assert(spec_elem_count(out@) <= spec_elem_count(a@)) by (nonlinear_arith)
                    requires
                        spec_elem_count(out@) * a@[axu as int] == spec_elem_count(a@),
                        a@[axu as int] >= 1,
                        spec_elem_count(out@) >= 1,
                ;
            }
            Ok(out)
        } else {
            out.remove(axu);
            proof {
                assert(out@ =~= a@.remove(axu as int));
                crate::onnx::lemma_count_remove(a@, axu as int);
                assert(forall|k: int| 0 <= k < out@.len() ==> 1 <= #[trigger] out@[k]);
                crate::onnx::lemma_count_ge_one(out@);
                assert(spec_elem_count(out@) <= spec_elem_count(a@)) by (nonlinear_arith)
                    requires
                        spec_elem_count(out@) * a@[axu as int] == spec_elem_count(a@),
                        a@[axu as int] >= 1,
                        spec_elem_count(out@) >= 1,
                ;
            }
            Ok(out)
        }
    } else if str_is(&n.op_type, "Reshape") {
        if n.input.len() != 1 || n.output.len() != 1 {
            return Err(SessionError::UnsupportedOperator(n.op_type.clone()));
        }
        let a = match env_get(env, n.input[0].as_str()) {
            Some(a) => a,
            None => {
                return Err(SessionError::UnresolvedShape(n.input[0].clone()));
            },
        };
        proof {
            lemma_env_get_wf(genv, n.input@[0]@);
        }
        let t_attr = match crate::get_attribute("shape", None, n) {
            Ok(v) => v,
            Err(e) => {
                return Err(e);
            },
        };
        let tv = match t_attr {
            AttributeValue::Ints(v) => v,
            _ => {
                return Err(SessionError::MissingAttribute(String::from_str("shape")));
            },
        };
        let ghost target = tv@.map_values(|x: i64| x as u64);
        let mut conv: Vec<u64> = Vec::new();
        let mut i: usize = 0;
        while i < tv.len()
            invariant
                0 <= i <= tv@.len(),
                conv@.len() == i,
                forall|j: int| 0 <= j < i ==> conv@[j] == #[verifier::truncate] (tv@[j] as u64),
            decreases tv@.len() - i,
        {
            conv.push(#[verifier::truncate] (tv[i] as u64));
            i = i + 1;
        }
        proof {
            assert(conv@ =~= target);
        }
        let ca = match crate::onnx::elem_count(a) {
            Some(c) => c,
            None => {
                proof {
                    assert(false);
                }
                0
            },
        };
        match crate::onnx::elem_count(&conv) {
            Some(ct) => if ct == ca {
                Ok(conv)
            } else {
                Err(SessionError::ShapeMismatch(n.name.clone()))
            },
            None => Err(SessionError::ShapeMismatch(n.name.clone())),
        }
    } else {
        Err(SessionError::UnsupportedOperator(n.op_type.clone()))
    }
}

/// The environment after seeding every initializer's shape.
pub open spec fn spec_seed_inits(
    inits: Seq<TensorData>,
    env: Seq<(Seq<char>, Seq<u64>)>,
) -> Seq<(Seq<char>, Seq<u64>)>
    decreases inits.len(),
{
    if inits.len() == 0 {
        env
    } else {
        spec_seed_inits(inits.drop_first(), spec_env_put(env, inits[0].name@, inits[0].dims@))
    }
}

/// The declared dimensions of the named graph input, if declared.
pub open spec fn spec_find_decl(decls: Seq<ValueInfo>, name: Seq<char>) -> Option<Seq<i64>>
    decreases decls.len(),
{
    if decls.len() == 0 {
        None
    } else if decls[0].name@ == name {
        Some(decls[0].dims@)
    } else {
        spec_find_decl(decls.drop_first(), name)
    }
}

/// Every fixed declared dimension is met by the supplied one.
pub open spec fn spec_fixed_dims_ok(dd: Seq<i64>, dims: Seq<u64>) -> bool {
    forall|k: int| 0 <= k < dd.len() ==> (dd[k] > 0 ==> (#[trigger] dims[k]) as int == dd[k])
}

/// A supplied input agrees with its declaration: same rank, fixed
/// dimensions met, and the value itself well formed.
pub open spec fn spec_input_ok(dd: Seq<i64>, t: TensorData) -> bool {
    t.dims@.len() == dd.len() && spec_fixed_dims_ok(dd, t.dims@) && spec_tensor_wf(t)
}

/// The environment after validating and seeding the supplied inputs,
/// or the first failure.
pub open spec fn spec_seed_inputs(
    decls: Seq<ValueInfo>,
    ins: Seq<TensorData>,
    env: Seq<(Seq<char>, Seq<u64>)>,
) -> Result<Seq<(Seq<char>, Seq<u64>)>, (InferErrorKind, Seq<char>)>
    decreases ins.len(),
{
    if ins.len() == 0 {
        Ok(env)
    } else {
        match spec_find_decl(decls, ins[0].name@) {
            None => Err((InferErrorKind::Mismatch, ins[0].name@)),
            Some(dd) => if spec_input_ok(dd, ins[0]) {
                spec_seed_inputs(
                    decls,
                    ins.drop_first(),
                    spec_env_put(env, ins[0].name@, ins[0].dims@),
                )
            } else {
                Err((InferErrorKind::Mismatch, ins[0].name@))
            },
        }
    }
}

/// The environment after inferring every node's output shape in
/// declaration order, or the first failure.
pub open spec fn spec_resolve_nodes(
    nodes: Seq<Node>,
    env: Seq<(Seq<char>, Seq<u64>)>,
) -> Result<Seq<(Seq<char>, Seq<u64>)>, (InferErrorKind, Seq<char>)>
    decreases nodes.len(),
{
    if nodes.len() == 0 {
        Ok(env)
    } else {
        match spec_infer_node(nodes[0], env) {
            Err(k) => Err(k),
            Ok(s) => spec_resolve_nodes(
                nodes.drop_first(),
                spec_env_put(env, nodes[0].output@[0]@, s),
            ),
        }
    }
}

/// Every declared graph output resolved to a shape.
pub open spec fn spec_outputs_resolved(
    outs: Seq<ValueInfo>,
    env: Seq<(Seq<char>, Seq<u64>)>,
) -> bool {
    forall|k: int| 0 <= k < outs.len() ==> #[trigger] spec_env_get(env, outs[k].name@) is Some
}

/// The first declared output, in declaration order, that did not
/// resolve to a shape, if any.
pub open spec fn spec_first_unresolved_output(
    outs: Seq<ValueInfo>,
    env: Seq<(Seq<char>, Seq<u64>)>,
) -> Option<Seq<char>>
    decreases outs.len(),
{
    if outs.len() == 0 {
        None
    } else if spec_env_get(env, outs[0].name@) is Some {
        spec_first_unresolved_output(outs.drop_first(), env)
    } else {
        Some(outs[0].name@)
    }
}

/// No output is left unresolved exactly when every output resolved.
pub proof fn lemma_outputs_resolved(outs: Seq<ValueInfo>, env: Seq<(Seq<char>, Seq<u64>)>)
    ensures
        spec_first_unresolved_output(outs, env) is None <==> spec_outputs_resolved(outs, env),
    decreases outs.len(),
{
    if outs.len() > 0 {
        lemma_outputs_resolved(outs.drop_first(), env);
        if spec_env_get(env, outs[0].name@) is Some {
            assert forall|k: int|
                0 <= k < outs.len() && spec_outputs_resolved(outs.drop_first(), env) implies
                #[trigger] spec_env_get(env, outs[k].name@) is Some by {
                if k > 0 {
                    assert(outs[k] == outs.drop_first()[k - 1]);
                }
            }
            if spec_outputs_resolved(outs, env) {
                assert forall|k: int|
                    0 <= k < outs.drop_first().len() implies #[trigger] spec_env_get(
                    env,
                    outs.drop_first()[k].name@,
                ) is Some by {
                    assert(outs.drop_first()[k] == outs[k + 1]);
                }
            }
        }
    }
}

/// The whole shape resolution of one run: seed from initializers,
/// validate and seed the supplied inputs, propagate through the nodes
/// in order, and require every declared output to be resolved.
pub open spec fn spec_resolve(g: Graph, ins: Seq<TensorData>) -> Result<
    Seq<(Seq<char>, Seq<u64>)>,
    (InferErrorKind, Seq<char>),
> {
    let env1 = spec_seed_inits(g.initializer@, Seq::empty());
    match spec_seed_inputs(g.input@, ins, env1) {
        Err(k) => Err(k),
        Ok(env2) => match spec_resolve_nodes(g.node@, env2) {
            Err(k) => Err(k),
            Ok(env3) => match spec_first_unresolved_output(g.output@, env3) {
                None => Ok(env3),
                Some(nm) => Err((InferErrorKind::Unresolved, nm)),
            },
        },
    }
}

/// A successful input seeding validated every supplied input.
pub proof fn lemma_seed_inputs_ok(
    decls: Seq<ValueInfo>,
    ins: Seq<TensorData>,
    env: Seq<(Seq<char>, Seq<u64>)>,
)
    requires
        spec_seed_inputs(decls, ins, env) is Ok,
    ensures
        forall|j: int|
            0 <= j < ins.len() ==> spec_find_decl(decls, (#[trigger] ins[j]).name@) is Some
                && spec_input_ok(
                match spec_find_decl(decls, ins[j].name@) {
                    Some(dd) => dd,
                    None => Seq::empty(),
                },
                ins[j],
            ),
    decreases ins.len(),
{
    if ins.len() > 0 {
        lemma_seed_inputs_ok(
            decls,
            ins.drop_first(),
            spec_env_put(env, ins[0].name@, ins[0].dims@),
        );
        assert forall|j: int|
            0 <= j < ins.len() implies spec_find_decl(decls, (#[trigger] ins[j]).name@) is Some
            && spec_input_ok(
            match spec_find_decl(decls, ins[j].name@) {
                Some(dd) => dd,
                None => Seq::empty(),
            },
            ins[j],
        ) by {
            if j > 0 {
                assert(ins[j] == ins.drop_first()[j - 1]);
            }
        }
    }
}

/// A name that looks up to a shape sits at some index.
pub proof fn lemma_env_get_exists(env: Seq<(Seq<char>, Seq<u64>)>, name: Seq<char>)
    requires
        spec_env_get(env, name) is Some,
    ensures
        exists|i: int|
            0 <= i < env.len() && (#[trigger] env[i]).0 == name && env[i].1 == match spec_env_get(
                env,
                name,
            ) {
                Some(d) => d,
                None => Seq::empty(),
            },
    decreases env.len(),
{
    if env[0].0 == name {
        assert(env[0].0 == name && env[0].1 == match spec_env_get(env, name) {
            Some(d) => d,
            None => Seq::empty(),
        });
    } else {
        lemma_env_get_exists(env.drop_first(), name);
        let i = choose|i: int|
            0 <= i < env.drop_first().len() && (#[trigger] env.drop_first()[i]).0 == name
                && env.drop_first()[i].1 == match spec_env_get(env.drop_first(), name) {
                Some(d) => d,
                None => Seq::empty(),
            };
        assert(env[i + 1] == env.drop_first()[i]);
        assert((#[trigger] env[i + 1]).0 == name);
    }
}

/// The declared dimensions of the named input, if declared.
fn find_decl<'a>(decls: &'a Vec<ValueInfo>, name: &str) -> (r: Option<&'a Vec<i64>>)
    ensures
        match r {
            Some(d) => spec_find_decl(decls@, name@) == Some(d@),
            None => spec_find_decl(decls@, name@) is None,
        },
{
    let mut i: usize = 0;
    proof {
        assert(decls@.skip(0) =~= decls@);
    }
    while i < decls.len()
        invariant
            0 <= i <= decls@.len(),
            spec_find_decl(decls@, name@) == spec_find_decl(decls@.skip(i as int), name@),
        decreases decls@.len() - i,
    {
        proof {
            assert(decls@.skip(i as int).drop_first() =~= decls@.skip(i as int + 1));
        }
        if str_is(&decls[i].name, name) {
            return Some(&decls[i].dims);
        }
        i = i + 1;
    }
    proof {
        assert(decls@.skip(i as int) =~= Seq::<ValueInfo>::empty());
    }
    None
}

/// Whether a supplied input agrees with its declaration.
fn input_matches(dd: &Vec<i64>, t: &TensorData) -> (r: bool)
    ensures
        r == spec_input_ok(dd@, *t),
{
    if t.dims.len() != dd.len() {
        return false;
    }
    let mut k: usize = 0;
    while k < dd.len()
        invariant
            0 <= k <= dd@.len(),
            t.dims@.len() == dd@.len(),
            forall|j: int| 0 <= j < k ==> (dd@[j] > 0 ==> (#[trigger] t.dims@[j]) as int == dd@[j]),
        decreases dd@.len() - k,
    {
        if dd[k] > 0 {
            if t.dims[k] != (dd[k] as u64) {
                proof {
                    assert(!spec_fixed_dims_ok(dd@, t.dims@));
                }
                return false;
            }
        }
        k = k + 1;
    }
    let c = match crate::onnx::elem_count(&t.dims) {
        Some(c) => c,
        None => {
            return false;
        },
    };
    if t.data.len() as u64 != c {
        return false;
    }
    true
}

/// Resolves a concrete shape for every tensor name the run touches:
/// initializers, supplied inputs, node outputs; fails exactly where
/// the specification of shape resolution fails.
pub fn resolve_shapes(g: &Graph, inputs: &Vec<TensorData>) -> (r: Result<
    Vec<ShapeEntry>,
    SessionError,
>)
    requires
        spec_graph_wf(*g),
    ensures
        match r {
            Ok(v) => spec_resolve(*g, inputs@) == Ok::<Seq<(Seq<char>, Seq<u64>)>, (InferErrorKind, Seq<char>)>(
                env_view(v@),
            ) && env_wf(env_view(v@)) && env_distinct(env_view(v@)) && v@.len()
                <= g.initializer@.len() + inputs@.len() + g.node@.len(),
            Err(e) => spec_resolve(*g, inputs@) matches Err(k) && spec_err_matches(e, k),
        },
{
    let ghost e0 = Seq::<(Seq<char>, Seq<u64>)>::empty();
    let mut env: Vec<ShapeEntry> = Vec::new();
    let mut i: usize = 0;
    proof {
        assert(g.initializer@.skip(0) =~= g.initializer@);
        assert(env_view(env@) =~= e0);
    }
    while i < g.initializer.len()
        invariant
            0 <= i <= g.initializer@.len(),
            spec_graph_wf(*g),
            env_wf(env_view(env@)),
            env_distinct(env_view(env@)),
            e0 == Seq::<(Seq<char>, Seq<u64>)>::empty(),
            env@.len() <= i,
            spec_seed_inits(g.initializer@, e0) == spec_seed_inits(
                g.initializer@.skip(i as int),
                env_view(env@),
            ),
        decreases g.initializer@.len() - i,
    {
        proof {
            assert(g.initializer@.skip(i as int).drop_first() =~= g.initializer@.skip(i as int + 1));
            assert(spec_tensor_wf(g.initializer@[i as int]));
            lemma_env_put_wf(env_view(env@), g.initializer@[i as int].name@, g.initializer@[i as int].dims@);
        }
        let t = &g.initializer[i];
        let d = t.dims.clone();
        env_put(&mut env, &t.name, d);
        i = i + 1;
    }
    proof {
        assert(g.initializer@.skip(i as int) =~= Seq::<TensorData>::empty());
        assert(inputs@.skip(0) =~= inputs@);
    }
    let mut j: usize = 0;
    while j < inputs.len()
        invariant
            0 <= j <= inputs@.len(),
            spec_graph_wf(*g),
            env_wf(env_view(env@)),
            env_distinct(env_view(env@)),
            e0 == Seq::<(Seq<char>, Seq<u64>)>::empty(),
            env@.len() <= g.initializer@.len() + j,
            spec_seed_inputs(g.input@, inputs@, spec_seed_inits(g.initializer@, e0))
                == spec_seed_inputs(g.input@, inputs@.skip(j as int), env_view(env@)),
        decreases inputs@.len() - j,
    {
        proof {
            assert(inputs@.skip(j as int).drop_first() =~= inputs@.skip(j as int + 1));
            assert(inputs@.skip(j as int)[0] == inputs@[j as int]);
        }
        let t = &inputs[j];
        let dd = match find_decl(&g.input, t.name.as_str()) {
            Some(d) => d,
            None => {
                return Err(SessionError::ShapeMismatch(t.name.clone()));
            },
        };
        if !input_matches(dd, t) {
            return Err(SessionError::ShapeMismatch(t.name.clone()));
        }
        proof {
            lemma_env_put_wf(env_view(env@), t.name@, t.dims@);
        }
        let d = t.dims.clone();
        env_put(&mut env, &t.name, d);
        j = j + 1;
    }
    proof {
        assert(inputs@.skip(j as int) =~= Seq::<TensorData>::empty());
        assert(g.node@.skip(0) =~= g.node@);
    }
    let ghost envx = env_view(env@);
    let mut m: usize = 0;
    while m < g.node.len()
        invariant
            0 <= m <= g.node@.len(),
            spec_graph_wf(*g),
            env_wf(env_view(env@)),
            env_distinct(env_view(env@)),
            e0 == Seq::<(Seq<char>, Seq<u64>)>::empty(),
            spec_seed_inputs(g.input@, inputs@, spec_seed_inits(g.initializer@, e0)) == Ok::<
                Seq<(Seq<char>, Seq<u64>)>,
                (InferErrorKind, Seq<char>),
            >(envx),
            env@.len() <= g.initializer@.len() + inputs@.len() + m,
            spec_resolve_nodes(g.node@, envx) == spec_resolve_nodes(
                g.node@.skip(m as int),
                env_view(env@),
            ),
        decreases g.node@.len() - m,
    {
        proof {
            assert(g.node@.skip(m as int).drop_first() =~= g.node@.skip(m as int + 1));
            assert(g.node@.skip(m as int)[0] == g.node@[m as int]);
        }
        let node = &g.node[m];
        let s = match infer_node_shape(node, &env) {
            Ok(v) => v,
            Err(e) => {
                return Err(e);
            },
        };
        proof {
            lemma_env_put_wf(env_view(env@), node.output@[0]@, s@);
        }
        env_put(&mut env, &node.output[0], s);
        m = m + 1;
    }
    proof {
        assert(g.node@.skip(m as int) =~= Seq::<Node>::empty());
    }
    let ghost envf = env_view(env@);
    let mut q: usize = 0;
    proof {
        assert(g.output@.skip(0) =~= g.output@);
    }
    while q < g.output.len()
        invariant
            0 <= q <= g.output@.len(),
            envf == env_view(env@),
            env_wf(envf),
            env_distinct(envf),
            env@.len() <= g.initializer@.len() + inputs@.len() + g.node@.len(),
            e0 == Seq::<(Seq<char>, Seq<u64>)>::empty(),
            spec_seed_inputs(g.input@, inputs@, spec_seed_inits(g.initializer@, e0)) == Ok::<
                Seq<(Seq<char>, Seq<u64>)>,
                (InferErrorKind, Seq<char>),
            >(envx),
            spec_resolve_nodes(g.node@, envx) == Ok::<
                Seq<(Seq<char>, Seq<u64>)>,
                (InferErrorKind, Seq<char>),
            >(envf),
            spec_first_unresolved_output(g.output@, envf) == spec_first_unresolved_output(
                g.output@.skip(q as int),
                envf,
            ),
        decreases g.output@.len() - q,
    {
        proof {
            assert(g.output@.skip(q as int).drop_first() =~= g.output@.skip(q as int + 1));
            assert(g.output@.skip(q as int)[0] == g.output@[q as int]);
        }
        let nm = &g.output[q].name;
        match env_find(&env, nm.as_str()) {
            Some(_) => {},
            None => {
                proof {
                    assert(spec_first_unresolved_output(g.output@, envf) == Some(
                        g.output@[q as int].name@,
                    ));
                }
                return Err(SessionError::UnresolvedShape(nm.clone()));
            },
        }
        q = q + 1;
    }
    proof {
        assert(g.output@.skip(q as int) =~= Seq::<ValueInfo>::empty());
        assert(spec_first_unresolved_output(g.output@, envf) is None);
    }
    Ok(env)
}

/// Names bound in the environment stay bound through node
/// resolution, and a successful resolution leaves every name the
/// nodes read or write bound in the final environment.
pub proof fn lemma_resolve_nodes_names(
    nodes: Seq<Node>,
    env: Seq<(Seq<char>, Seq<u64>)>,
    envf: Seq<(Seq<char>, Seq<u64>)>,
)
    requires
        spec_resolve_nodes(nodes, env) == Ok::<Seq<(Seq<char>, Seq<u64>)>, (InferErrorKind, Seq<char>)>(envf),
    ensures
        forall|nm: Seq<char>|
            #[trigger] spec_env_get(env, nm) is Some ==> spec_env_get(envf, nm) is Some,
        forall|i: int, j: int|
            0 <= i < nodes.len() && 0 <= j < nodes[i].input@.len() ==> spec_env_get(
                envf,
                (#[trigger] nodes[i].input@[j])@,
            ) is Some,
        forall|i: int|
            0 <= i < nodes.len() ==> (#[trigger] nodes[i]).output@.len() == 1 && spec_env_get(
                envf,
                nodes[i].output@[0]@,
            ) is Some,
    decreases nodes.len(),
{
    if nodes.len() > 0 {
        let n0 = nodes[0];
        let s = match spec_infer_node(n0, env) {
            Ok(s) => s,
            Err(_) => Seq::empty(),
        };
        let env1 = spec_env_put(env, n0.output@[0]@, s);
        lemma_resolve_nodes_names(nodes.drop_first(), env1, envf);
        lemma_env_get_put(env, n0.output@[0]@, s);
        assert forall|nm: Seq<char>| #[trigger] spec_env_get(env, nm) is Some implies spec_env_get(
            envf,
            nm,
        ) is Some by {
            if nm == n0.output@[0]@ {
                assert(spec_env_get(env1, nm) == Some(s));
            } else {
                assert(spec_env_get(env1, nm) == spec_env_get(env, nm));
            }
            assert(spec_env_get(env1, nm) is Some);
        }
        assert(n0.output@.len() == 1);
        assert(spec_env_get(env1, n0.output@[0]@) == Some(s));
        assert(spec_env_get(envf, n0.output@[0]@) is Some);
        assert forall|j: int| 0 <= j < n0.input@.len() implies spec_env_get(
            envf,
            (#[trigger] n0.input@[j])@,
        ) is Some by {
            assert(spec_env_get(env, n0.input@[j]@) is Some);
        }
        assert forall|i: int, j: int|
            0 <= i < nodes.len() && 0 <= j < nodes[i].input@.len() implies spec_env_get(
            envf,
            (#[trigger] nodes[i].input@[j])@,
        ) is Some by {
            if i > 0 {
                assert(nodes[i] == nodes.drop_first()[i - 1]);
                assert(spec_env_get(envf, (nodes.drop_first()[i - 1].input@[j])@) is Some);
            }
        }
        assert forall|i: int| 0 <= i < nodes.len() implies (#[trigger] nodes[i]).output@.len() == 1
            && spec_env_get(envf, nodes[i].output@[0]@) is Some by {
            if i > 0 {
                assert(nodes[i] == nodes.drop_first()[i - 1]);
            }
        }
    }
}

} // verus!
