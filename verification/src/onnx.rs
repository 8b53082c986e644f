//! The in-memory model of a computation graph: nodes, attributes,
//! constant initializers and the declared inputs/outputs.
//!
//! Tensor element data is carried as raw bit patterns (`u32` per
//! single-precision element): the engine itself never performs
//! floating-point arithmetic, it only moves element data to and from
//! device buffers and generates the shader text that computes on it.
use vstd::prelude::*;

verus! {

/// Largest number of elements a tensor may resolve to.  Keeps every
/// byte size inside `u64`, and keeps the generated shader's flat
/// invocation index — up to one full workgroup past the element
/// count, `y * 65535 * 256` at most — inside the `u32` arithmetic
/// the shader computes it with.
pub const MAX_TENSOR_ELEMENTS: u64 = 2147483648;

/// Largest tensor rank the engine accepts.
pub const MAX_RANK: u64 = 8;

/// One attribute value attached to a node.  Float-valued attributes
/// carry the raw bit pattern of the single-precision value.
pub enum AttributeValue {
    Int(i64),
    Ints(Vec<i64>),
    FloatBits(u32),
}

/// A named attribute of a node.
pub struct Attribute {
    pub name: String,
    pub value: AttributeValue,
}

/// One operator instance: its operator tag, the names of the tensors
/// it reads and writes, and its attributes.
pub struct Node {
    pub op_type: String,
    pub name: String,
    pub input: Vec<String>,
    pub output: Vec<String>,
    pub attribute: Vec<Attribute>,
}

/// A constant tensor (an initializer) or a runtime input value:
/// a name, concrete dimensions, and one `u32` bit pattern per element.
pub struct TensorData {
    pub name: String,
    pub dims: Vec<u64>,
    pub data: Vec<u32>,
}

/// A declared graph input or output: its name and its declared
/// dimensions.  A non-positive declared dimension is symbolic and is
/// fixed only by the value supplied at run time.
pub struct ValueInfo {
    pub name: String,
    pub dims: Vec<i64>,
}

/// The parsed computation graph.  Immutable once constructed.
pub struct Graph {
    pub node: Vec<Node>,
    pub initializer: Vec<TensorData>,
    pub input: Vec<ValueInfo>,
    pub output: Vec<ValueInfo>,
}

/// Number of elements implied by a dimension list: the product of all
/// dimensions, 1 for a rank-0 (scalar) shape.
pub open spec fn spec_elem_count(dims: Seq<u64>) -> int
    decreases dims.len(),
{
    if dims.len() == 0 {
        1
    } else {
        dims[0] * spec_elem_count(dims.drop_first())
    }
}

/// A shape the engine accepts: every dimension at least 1 and the
/// element count within the dispatchable range.
pub open spec fn spec_valid_dims(dims: Seq<u64>) -> bool {
    (forall|i: int| 0 <= i < dims.len() ==> 1 <= #[trigger] dims[i]) && dims.len() <= MAX_RANK
        && spec_elem_count(dims) <= MAX_TENSOR_ELEMENTS
}

/// A well-formed tensor value: valid dimensions and exactly one data
/// word per element.
pub open spec fn spec_tensor_wf(t: TensorData) -> bool {
    spec_valid_dims(t.dims@) && t.data@.len() == spec_elem_count(t.dims@)
}

/// A well-formed graph value: every initializer is a well-formed
/// tensor.
pub open spec fn spec_graph_wf(g: Graph) -> bool {
    forall|i: int| 0 <= i < g.initializer@.len() ==> spec_tensor_wf(#[trigger] g.initializer@[i])
}

/// First attribute of the given name, searching in declaration order.
pub open spec fn spec_find_attr(attrs: Seq<Attribute>, name: Seq<char>) -> Option<AttributeValue>
    decreases attrs.len(),
{
    if attrs.len() == 0 {
        None
    } else if attrs[0].name@ == name {
        Some(attrs[0].value)
    } else {
        spec_find_attr(attrs.drop_first(), name)
    }
}

/// Looking an attribute up after appending one: an existing match
/// wins; otherwise the appended attribute answers exactly for its own
/// name.
pub proof fn lemma_find_attr_push(attrs: Seq<Attribute>, a: Attribute, name: Seq<char>)
    ensures
        spec_find_attr(attrs.push(a), name) == (if spec_find_attr(attrs, name) is Some {
            spec_find_attr(attrs, name)
        } else if a.name@ == name {
            Some(a.value)
        } else {
            None
        }),
    decreases attrs.len(),
{
    let out = attrs.push(a);
    assert(out.len() == attrs.len() + 1);
    if attrs.len() == 0 {
        assert(out[0] == a);
        assert(out.drop_first() =~= Seq::<Attribute>::empty());
        if a.name@ == name {
            assert(spec_find_attr(out, name) == Some(a.value));
        } else {
            assert(spec_find_attr(out, name) == spec_find_attr(out.drop_first(), name));
            assert(spec_find_attr(out.drop_first(), name) is None);
        }
        assert(spec_find_attr(attrs, name) is None);
    } else {
        assert(out[0] == attrs[0]);
        assert(out.drop_first() =~= attrs.drop_first().push(a));
        lemma_find_attr_push(attrs.drop_first(), a, name);
        if attrs[0].name@ == name {
            assert(spec_find_attr(out, name) == Some(attrs[0].value));
            assert(spec_find_attr(attrs, name) == Some(attrs[0].value));
        } else {
            assert(spec_find_attr(out, name) == spec_find_attr(out.drop_first(), name));
            assert(spec_find_attr(out.drop_first(), name) == spec_find_attr(
                attrs.drop_first().push(a),
                name,
            ));
            assert(spec_find_attr(attrs, name) == spec_find_attr(attrs.drop_first(), name));
        }
    }
}

/// Whether some initializer of the graph carries the given name.
pub open spec fn spec_has_initializer(g: Graph, name: Seq<char>) -> bool {
    exists|i: int| 0 <= i < g.initializer@.len() && (#[trigger] g.initializer@[i]).name@ == name
}

/// No two of these tensors share a name.
pub open spec fn spec_inits_distinct(inits: Seq<TensorData>) -> bool {
    forall|a: int, b: int|
        0 <= a < b < inits.len() ==> (#[trigger] inits[a]).name@ != (#[trigger] inits[b]).name@
}

/// Position `i` holds the last tensor of its name in the list.
pub open spec fn spec_last_of_name(inits: Seq<TensorData>, i: int) -> bool {
    forall|j: int| i < j < inits.len() ==> (#[trigger] inits[j]).name@ != inits[i].name@
}

/// Whether the graph declares the given name as a runtime input.
pub open spec fn spec_is_declared_input(g: Graph, name: Seq<char>) -> bool {
    exists|i: int| 0 <= i < g.input@.len() && (#[trigger] g.input@[i]).name@ == name
}

/// Whether some node of the graph lists the given name as an output.
pub open spec fn spec_is_node_output(g: Graph, name: Seq<char>) -> bool {
    exists|i: int, j: int|
        0 <= i < g.node@.len() && 0 <= j < g.node@[i].output@.len()
            && (#[trigger] g.node@[i].output@[j])@ == name
}

/// A node input name is covered when the value it refers to can exist
/// at run time: it is a declared input, a constant initializer, or the
/// output of some node.
pub open spec fn spec_name_covered(g: Graph, name: Seq<char>) -> bool {
    spec_is_declared_input(g, name) || spec_has_initializer(g, name) || spec_is_node_output(
        g,
        name,
    )
}

/// Every name read by every node is covered.
pub open spec fn spec_all_inputs_covered(g: Graph) -> bool {
    forall|i: int, j: int|
        0 <= i < g.node@.len() && 0 <= j < g.node@[i].input@.len() ==> spec_name_covered(
            g,
            (#[trigger] g.node@[i].input@[j])@,
        )
}

/// String equality against a literal, for dispatching on names.
pub fn str_is(a: &String, b: &str) -> (r: bool)
    ensures
        r == (a@ == b@),
{
    let bs = String::from_str(b);
    *a == bs
}

/// Exact element count of a dimension list, or `None` where the count
/// leaves the accepted range.
pub fn elem_count(dims: &Vec<u64>) -> (r: Option<u64>)
    ensures
        match r {
            Some(c) => c == spec_elem_count(dims@) && spec_valid_dims(dims@),
            None => !spec_valid_dims(dims@),
        },
{
    if dims.len() as u64 > MAX_RANK {
        return None;
    }
    let mut acc: u64 = 1;
    let mut i: usize = 0;
    proof {
        assert(dims@.skip(0) =~= dims@);
    }
    while i < dims.len()
        invariant
            0 <= i <= dims@.len(),
            1 <= acc <= MAX_TENSOR_ELEMENTS,
            spec_elem_count(dims@) == acc * spec_elem_count(dims@.skip(i as int)),
            forall|k: int| 0 <= k < i ==> 1 <= #[trigger] dims@[k],
        decreases dims@.len() - i,
    {
        let d = dims[i];
        proof {
            assert(dims@.skip(i as int).drop_first() =~= dims@.skip(i as int + 1));
        }
        if d < 1 {
            return None;
        }
        let p = acc.checked_mul(d);
        let fits = match p {
            Some(v) => v <= MAX_TENSOR_ELEMENTS,
            None => false,
        };
        if !fits {
            proof {
                assert(acc * d > MAX_TENSOR_ELEMENTS);
                if forall|k: int| 0 <= k < dims@.len() ==> 1 <= #[trigger] dims@[k] {
                    let rest = dims@.skip(i as int + 1);
                    assert(forall|m: int| 0 <= m < rest.len() ==> 1 <= #[trigger] rest[m]);
                    lemma_count_ge_one(rest);
                    assert(spec_elem_count(dims@) > MAX_TENSOR_ELEMENTS) by (nonlinear_arith)
                        requires
                            spec_elem_count(dims@) == acc * spec_elem_count(dims@.skip(i as int)),
                            spec_elem_count(dims@.skip(i as int)) == d * spec_elem_count(
                                dims@.skip(i as int + 1),
                            ),
                            spec_elem_count(dims@.skip(i as int + 1)) >= 1,
                            acc * d > MAX_TENSOR_ELEMENTS,
                            acc >= 1,
                            d >= 1,
                    ;
                }
            }
            return None;
        }
        let v = match p {
            Some(v) => v,
            None => 1,
        };
        proof {
            assert(spec_elem_count(dims@) == v * spec_elem_count(dims@.skip(i as int + 1)))
                by (nonlinear_arith)
                requires
                    spec_elem_count(dims@) == acc * spec_elem_count(dims@.skip(i as int)),
                    spec_elem_count(dims@.skip(i as int)) == d * spec_elem_count(
                        dims@.skip(i as int + 1),
                    ),
                    v == acc * d,
            ;
            assert(v >= 1) by (nonlinear_arith)
                requires
                    v == acc * d,
                    acc >= 1,
                    d >= 1,
            ;
        }
        acc = v;
        i = i + 1;
    }
    proof {
        assert(dims@.skip(i as int) =~= Seq::<u64>::empty());
    }
    Some(acc)
}

/// Setting one dimension to 1 divides the element count by that
/// dimension: the two counts are tied by an exact product.
pub proof fn lemma_count_update_one(dims: Seq<u64>, i: int)
    requires
        0 <= i < dims.len(),
    ensures
        spec_elem_count(dims.update(i, 1u64)) * dims[i] == spec_elem_count(dims),
    decreases dims.len(),
{
    if i == 0 {
        assert(dims.update(0, 1u64).drop_first() =~= dims.drop_first());
        assert(spec_elem_count(dims.update(0, 1u64)) == 1 * spec_elem_count(dims.drop_first()));
    } else {
        assert(dims.update(i, 1u64).drop_first() =~= dims.drop_first().update(i - 1, 1u64));
        lemma_count_update_one(dims.drop_first(), i - 1);
        assert(spec_elem_count(dims.update(i, 1u64)) * dims[i] == spec_elem_count(dims))
            by (nonlinear_arith)
            requires
                spec_elem_count(dims.update(i, 1u64)) == dims[0] * spec_elem_count(
                    dims.drop_first().update(i - 1, 1u64),
                ),
                spec_elem_count(dims.drop_first().update(i - 1, 1u64)) * dims.drop_first()[i - 1]
                    == spec_elem_count(dims.drop_first()),
                dims.drop_first()[i - 1] == dims[i],
                spec_elem_count(dims) == dims[0] * spec_elem_count(dims.drop_first()),
        ;
    }
}

/// Removing one dimension divides the element count by it.
pub proof fn lemma_count_remove(dims: Seq<u64>, i: int)
    requires
        0 <= i < dims.len(),
    ensures
        spec_elem_count(dims.remove(i)) * dims[i] == spec_elem_count(dims),
    decreases dims.len(),
{
    if i == 0 {
        assert(dims.remove(0) =~= dims.drop_first());
    } else {
        assert(dims.remove(i).drop_first() =~= dims.drop_first().remove(i - 1));
        lemma_count_remove(dims.drop_first(), i - 1);
        assert(spec_elem_count(dims.remove(i)) * dims[i] == spec_elem_count(dims))
            by (nonlinear_arith)
            requires
                spec_elem_count(dims.remove(i)) == dims[0] * spec_elem_count(
                    dims.drop_first().remove(i - 1),
                ),
                spec_elem_count(dims.drop_first().remove(i - 1)) * dims.drop_first()[i - 1]
                    == spec_elem_count(dims.drop_first()),
                dims.drop_first()[i - 1] == dims[i],
                spec_elem_count(dims) == dims[0] * spec_elem_count(dims.drop_first()),
        ;
    }
}

/// The element count splits at any position into the product of the
/// two halves' counts.
pub proof fn lemma_count_split(dims: Seq<u64>, k: int)
    requires
        0 <= k <= dims.len(),
    ensures
        spec_elem_count(dims) == spec_elem_count(dims.take(k)) * spec_elem_count(dims.skip(k)),
    decreases k,
{
    if k == 0 {
        assert(dims.take(0) =~= Seq::<u64>::empty());
        assert(dims.skip(0) =~= dims);
    } else {
        assert(dims.take(k).drop_first() =~= dims.drop_first().take(k - 1));
        assert(dims.skip(k) =~= dims.drop_first().skip(k - 1));
        lemma_count_split(dims.drop_first(), k - 1);
        assert(spec_elem_count(dims) == spec_elem_count(dims.take(k)) * spec_elem_count(
            dims.skip(k),
        )) by (nonlinear_arith)
            requires
                spec_elem_count(dims) == dims[0] * spec_elem_count(dims.drop_first()),
                spec_elem_count(dims.drop_first()) == spec_elem_count(dims.drop_first().take(k - 1))
                    * spec_elem_count(dims.drop_first().skip(k - 1)),
                spec_elem_count(dims.take(k)) == dims.take(k)[0] * spec_elem_count(
                    dims.take(k).drop_first(),
                ),
                dims.take(k)[0] == dims[0],
                dims.take(k).drop_first() == dims.drop_first().take(k - 1),
                dims.skip(k) == dims.drop_first().skip(k - 1),
        ;
    }
}

/// With every dimension at least 1, the element count is at least 1.
pub proof fn lemma_count_ge_one(dims: Seq<u64>)
    requires
        forall|i: int| 0 <= i < dims.len() ==> 1 <= #[trigger] dims[i],
    ensures
        spec_elem_count(dims) >= 1,
    decreases dims.len(),
{
    if dims.len() > 0 {
        assert(forall|i: int|
            0 <= i < dims.drop_first().len() ==> 1 <= #[trigger] dims.drop_first()[i]);
        lemma_count_ge_one(dims.drop_first());
        assert(spec_elem_count(dims) >= 1) by (nonlinear_arith)
            requires
                dims[0] >= 1,
                spec_elem_count(dims.drop_first()) >= 1,
                spec_elem_count(dims) == dims[0] * spec_elem_count(dims.drop_first()),
        ;
    }
}

} // verus!
