//! A compilation and execution engine for neural-network computation
//! graphs on a GPU compute queue.
//!
//! The library resolves tensor shapes, decides which device buffers to
//! allocate or reuse, translates each graph node into a compiled
//! compute kernel (shader text, binding layout, dispatch size) and
//! sequences the device work of one run.  The device itself — buffer
//! creation, queue submission, asynchronous mapping — is driven by the
//! embedding program from the buffer actions and kernels produced
//! here.
use vstd::prelude::*;

pub mod compiler;
pub mod compute;
pub mod dimensions;
pub mod onnx;
pub mod resource;
pub mod utils;

use crate::onnx::{
    spec_all_inputs_covered, spec_find_attr, spec_graph_wf, spec_has_initializer,
    spec_inits_distinct, spec_last_of_name, spec_name_covered, spec_tensor_wf, AttributeValue,
    Graph, Node, TensorData,
};
use crate::resource::{
    lemma_creates_data_extend, lemma_writes_data_extend, lemma_writes_to_extend,
    spec_action_create, spec_creates_data, spec_writes_data, spec_writes_to, BufferAction,
    Registry,
};
use crate::compiler::{build_kernel, kernel_view, spec_kernel, CompiledKernel};
use crate::compute::{OutputRef, RunPlan};
use crate::dimensions::{
    env_distinct, env_get, env_view, env_wf, infer_node_shape, lemma_env_get_exists, lemma_seed_inputs_ok, resolve_shapes, spec_env_get, spec_env_put,
    spec_err_matches, spec_infer_node, spec_resolve, spec_resolve_nodes, spec_seed_inits,
    spec_seed_inputs, InferErrorKind, ShapeEntry,
};
use vstd::pervasive::unreached;

verus! {

/// A structured failure of session construction or of one run.
#[derive(Debug)]
pub enum SessionError {
    /// The graph value is malformed (an initializer's data does not
    /// match its dimensions, or a shape leaves the accepted range).
    ModelLoad(String),
    /// A node reads a name that no declared input, initializer or
    /// node output provides.
    MissingInitializer(String),
    /// Shape inference reached a node before the shape of one of its
    /// inputs was known, or a declared graph output never resolved.
    UnresolvedShape(String),
    /// A supplied input disagrees with its declaration, or a resolved
    /// shape is unusable (wrong rank, wrong element count, dimension
    /// outside the accepted range).
    ShapeMismatch(String),
    /// The named operator type has no registered kernel rule, or is
    /// applied with an arity it does not support.
    UnsupportedOperator(String),
    /// A required attribute is absent from a node's attribute map
    /// (or carries a value of the wrong kind).
    MissingAttribute(String),
    /// The device stopped responding while a run waited on it.
    DeviceLost,
    /// Reading back the named output buffer failed.
    MappingFailed(String),
}

/// Looks up an attribute on a node by name, in declaration order.
///
/// With a default supplied the attribute is optional: an absent name
/// yields the default.  Without one it is required: an absent name is
/// a `MissingAttribute` failure.
pub fn get_attribute<'a>(
    attribute: &str,
    default: Option<&'a AttributeValue>,
    node: &'a Node,
) -> (r: Result<&'a AttributeValue, SessionError>)
    ensures
        match spec_find_attr(node.attribute@, attribute@) {
            Some(v) => r matches Ok(rv) && *rv == v,
            None => match default {
                Some(d) => r matches Ok(rv) && rv == d,
                None => r matches Err(e) && e matches SessionError::MissingAttribute(n) && n@
                    == attribute@,
            },
        },
{
    let mut i: usize = 0;
    proof {
        assert(node.attribute@.skip(0) =~= node.attribute@);
    }
    while i < node.attribute.len()
        invariant
            0 <= i <= node.attribute@.len(),
            spec_find_attr(node.attribute@, attribute@) == spec_find_attr(
                node.attribute@.skip(i as int),
                attribute@,
            ),
        decreases node.attribute@.len() - i,
    {
        proof {
            assert(node.attribute@.skip(i as int).drop_first() =~= node.attribute@.skip(
                i as int + 1,
            ));
        }
        let a = &node.attribute[i];
        if crate::onnx::str_is(&a.name, attribute) {
            return Ok(&a.value);
        }
        i = i + 1;
    }
    proof {
        assert(node.attribute@.skip(i as int) =~= Seq::<crate::onnx::Attribute>::empty());
    }
    match default {
        Some(d) => Ok(d),
        None => Err(SessionError::MissingAttribute(String::from_str(attribute))),
    }
}

/// The session: owns the parsed graph and the buffer registry.  The
/// device and queue handles live with the embedding program, which
/// performs the buffer actions and kernel dispatches planned here.
pub struct Session {
    pub model: Graph,
    pub inner_infos: Registry,
}

/// Whether a name is covered: declared input, initializer, or some
/// node's output.
fn name_covered(g: &Graph, name: &String) -> (r: bool)
    ensures
        r == spec_name_covered(*g, name@),
{
    let mut i: usize = 0;
    while i < g.input.len()
        invariant
            0 <= i <= g.input@.len(),
            forall|k: int| 0 <= k < i ==> (#[trigger] g.input@[k]).name@ != name@,
        decreases g.input@.len() - i,
    {
        if crate::onnx::str_is(&g.input[i].name, name.as_str()) {
            return true;
        }
        i = i + 1;
    }
    let mut j: usize = 0;
    while j < g.initializer.len()
        invariant
            0 <= j <= g.initializer@.len(),
            forall|k: int| 0 <= k < j ==> (#[trigger] g.initializer@[k]).name@ != name@,
        decreases g.initializer@.len() - j,
    {
        if crate::onnx::str_is(&g.initializer[j].name, name.as_str()) {
            return true;
        }
        j = j + 1;
    }
    let mut a: usize = 0;
    while a < g.node.len()
        invariant
            0 <= a <= g.node@.len(),
            forall|k: int, m: int|
                0 <= k < a && 0 <= m < g.node@[k].output@.len() ==> (
                #[trigger] g.node@[k].output@[m])@ != name@,
        decreases g.node@.len() - a,
    {
        let mut b: usize = 0;
        while b < g.node[a].output.len()
            invariant
                0 <= a < g.node@.len(),
                0 <= b <= g.node@[a as int].output@.len(),
                forall|k: int, m: int|
                    0 <= k < a && 0 <= m < g.node@[k].output@.len() ==> (
                    #[trigger] g.node@[k].output@[m])@ != name@,
                forall|m: int|
                    0 <= m < b ==> (#[trigger] g.node@[a as int].output@[m])@ != name@,
            decreases g.node@[a as int].output@.len() - b,
        {
            if crate::onnx::str_is(&g.node[a].output[b], name.as_str()) {
                return true;
            }
            b = b + 1;
        }
        a = a + 1;
    }
    false
}

/// Whether one of the first `upto` initializers carries this name.
spec fn spec_has_init_upto(inits: Seq<TensorData>, upto: int, nm: Seq<char>) -> bool {
    exists|j: int| 0 <= j < upto && (#[trigger] inits[j]).name@ == nm
}

/// Position `i` holds the last tensor of its name among the first
/// `upto` positions.
spec fn spec_last_upto(inits: Seq<TensorData>, i: int, upto: int) -> bool {
    forall|j: int| i < j < upto ==> (#[trigger] inits[j]).name@ != inits[i].name@
}

/// What loading a model's initializers establishes: the registry
/// holds exactly the initializer names — the handle of each name
/// being the last initializer so named, backed by the buffer of that
/// initializer's index and carrying its dimensions — the fresh-handle
/// counter equals the initializer count, and the actions create each
/// initializer's buffer with exactly its data (releasing a duplicate
/// name's superseded buffer).  With distinct names — the common case
/// — the action list is exactly one creation per initializer, in
/// order.
pub open spec fn spec_initializers_loaded(
    model: Graph,
    reg: Registry,
    acts: Seq<BufferAction>,
) -> bool {
    &&& reg.wf()
    &&& reg.next_id == model.initializer@.len()
    &&& (forall|nm: Seq<char>|
        #[trigger] reg.spec_get(nm) is Some <==> spec_has_initializer(model, nm))
    &&& (forall|i: int|
        0 <= i < model.initializer@.len() && spec_last_of_name(model.initializer@, i)
            ==> #[trigger] reg.spec_get(model.initializer@[i].name@) == Some(
            (i as u64, model.initializer@[i].dims@),
        ))
    &&& (forall|i: int|
        0 <= i < model.initializer@.len() ==> spec_creates_data(
            acts,
            i as u64,
            (#[trigger] model.initializer@[i]).data@,
        ))
    &&& (forall|k: int|
        0 <= k < acts.len() ==> ((#[trigger] acts[k]) is CreateWithData || acts[k] is Release))
    &&& (spec_inits_distinct(model.initializer@) ==> acts.len() == model.initializer@.len() && (
    forall|i: int|
        0 <= i < acts.len() ==> spec_action_create(#[trigger] acts[i]) == Some(
            (i as u64, model.initializer@[i].data@),
        )))
}

impl Session {
    /// A healthy session: a well-formed graph and a well-formed
    /// registry.
    pub open spec fn wf(self) -> bool {
        spec_graph_wf(self.model) && self.inner_infos.wf()
    }

    /// Loads every initializer into a fresh registry exactly once;
    /// the returned actions create the corresponding device buffers
    /// with their data.  Constant data is never re-uploaded on later
    /// runs; a name that appears twice keeps its last initializer,
    /// and the superseded buffer is released.
    pub fn load_initializers(model: &Graph) -> (r: (Registry, Vec<BufferAction>))
        requires
            spec_graph_wf(*model),
            model.initializer@.len() < u64::MAX,
        ensures
            spec_initializers_loaded(*model, r.0, r.1@),
    {
        let ghost inits = model.initializer@;
        let mut reg = Registry::new();
        let mut acts: Vec<BufferAction> = Vec::new();
        let mut i: usize = 0;
        while i < model.initializer.len()
            invariant
                0 <= i <= inits.len(),
                inits == model.initializer@,
                inits.len() < u64::MAX,
                spec_graph_wf(*model),
                reg.wf(),
                reg.next_id == i,
                forall|nm: Seq<char>|
                    #[trigger] reg.spec_get(nm) is Some <==> spec_has_init_upto(
                        inits,
                        i as int,
                        nm,
                    ),
                forall|j: int|
                    0 <= j < i && spec_last_upto(inits, j, i as int)
                        ==> #[trigger] reg.spec_get(inits[j].name@) == Some(
                        (j as u64, inits[j].dims@),
                    ),
                forall|j: int|
                    0 <= j < i ==> spec_creates_data(acts@, j as u64, (#[trigger] inits[j]).data@),
                forall|k: int|
                    0 <= k < acts@.len() ==> ((#[trigger] acts@[k]) is CreateWithData || acts@[k]
                        is Release),
                spec_inits_distinct(inits) ==> acts@.len() == i && (forall|j: int|
                    0 <= j < i ==> spec_action_create(#[trigger] acts@[j]) == Some(
                        (j as u64, inits[j].data@),
                    )),
            decreases inits.len() - i,
        {
            let t = &model.initializer[i];
            proof {
                assert(spec_tensor_wf(inits[i as int]));
            }
            let ghost acts0 = acts@;
            let ghost reg0 = reg;
            let (id, released) = reg.put(&t.name, &t.dims);
            match released {
                Some(old_id) => {
                    acts.push(BufferAction::Release { id: old_id });
                },
                None => {},
            }
            acts.push(BufferAction::CreateWithData { id, data: t.data.clone() });
            proof {
                let kc = acts@.len() - 1;
                assert(spec_action_create(acts@[kc]) == Some((i as u64, inits[i as int].data@)));
                assert(spec_creates_data(acts@, i as u64, inits[i as int].data@));
                assert forall|j: int| 0 <= j < i implies spec_creates_data(
                    acts@,
                    j as u64,
                    (#[trigger] inits[j]).data@,
                ) by {
                    lemma_creates_data_extend(acts0, acts@, j as u64, inits[j].data@);
                }
                assert forall|nm: Seq<char>| #[trigger] reg.spec_get(nm) is Some
                    <==> spec_has_init_upto(inits, i as int + 1, nm) by {
                    if nm == inits[i as int].name@ {
                        assert(spec_has_init_upto(inits, i as int + 1, nm)) by {
                            assert((#[trigger] inits[i as int]).name@ == nm);
                        }
                    } else {
                        assert(reg.spec_get(nm) == reg0.spec_get(nm));
                        assert(spec_has_init_upto(inits, i as int + 1, nm) == spec_has_init_upto(
                            inits,
                            i as int,
                            nm,
                        )) by {
                            if spec_has_init_upto(inits, i as int + 1, nm) {
                                let j = choose|j: int|
                                    0 <= j < i as int + 1 && (#[trigger] inits[j]).name@ == nm;
                                assert(j < i as int);
                                assert(spec_has_init_upto(inits, i as int, nm));
                            }
                        }
                    }
                }
                assert forall|j: int|
                    0 <= j < i + 1 && spec_last_upto(inits, j, i as int + 1) implies
                    #[trigger] reg.spec_get(inits[j].name@) == Some(
                    (j as u64, inits[j].dims@),
                ) by {
                    if j == i as int {
                        assert(reg.spec_get(inits[i as int].name@) == Some(
                            (i as u64, inits[i as int].dims@),
                        ));
                    } else {
                        assert(inits[i as int].name@ != inits[j].name@);
                        assert(spec_last_upto(inits, j, i as int));
                        assert(reg.spec_get(inits[j].name@) == reg0.spec_get(inits[j].name@));
                    }
                }
                if spec_inits_distinct(inits) {
                    assert(!spec_has_init_upto(inits, i as int, inits[i as int].name@)) by {
                        if spec_has_init_upto(inits, i as int, inits[i as int].name@) {
                            let j = choose|j: int|
                                0 <= j < i as int && (#[trigger] inits[j]).name@
                                    == inits[i as int].name@;
                            assert(inits[j].name@ != inits[i as int].name@);
                        }
                    }
                    assert(reg0.spec_get(inits[i as int].name@) is None);
                    assert(acts@.len() == i + 1);
                }
            }
            i = i + 1;
        }
        proof {
            assert forall|nm: Seq<char>| #[trigger] reg.spec_get(nm) is Some
                <==> spec_has_initializer(*model, nm) by {
                if spec_has_init_upto(inits, i as int, nm) {
                    let j = choose|j: int|
                        0 <= j < i as int && (#[trigger] inits[j]).name@ == nm;
                    assert((#[trigger] model.initializer@[j]).name@ == nm);
                }
                if spec_has_initializer(*model, nm) {
                    let j = choose|j: int|
                        0 <= j < model.initializer@.len() && (
                        #[trigger] model.initializer@[j]).name@ == nm;
                    assert((#[trigger] inits[j]).name@ == nm);
                    assert(spec_has_init_upto(inits, i as int, nm));
                }
            }
            assert forall|j: int|
                0 <= j < inits.len() && spec_last_of_name(inits, j) implies #[trigger] reg
                .spec_get(inits[j].name@) == Some((j as u64, inits[j].dims@)) by {
                assert(spec_last_upto(inits, j, i as int));
            }
        }
        (reg, acts)
    }

    /// Validates the graph and constructs the session, loading every
    /// initializer once.  Construction fails on a malformed graph,
    /// and on a node that reads a name no declared input, initializer
    /// or node output provides — never proceeding silently past a
    /// missing initializer.
    pub fn from_model(model: Graph) -> (r: Result<(Session, Vec<BufferAction>), SessionError>)
        requires
            model.initializer@.len() < u64::MAX,
        ensures
            (r is Ok) == (spec_graph_wf(model) && spec_all_inputs_covered(model)),
            match r {
                Ok((s, acts)) => {
                    &&& s.wf()
                    &&& s.model == model
                    &&& spec_initializers_loaded(model, s.inner_infos, acts@)
                },
                Err(e) => {
                    &&& (e is ModelLoad <==> !spec_graph_wf(model))
                    &&& (e matches SessionError::MissingInitializer(nm) ==> spec_graph_wf(model)
                        && !spec_name_covered(model, nm@))
                    &&& (e is ModelLoad || e is MissingInitializer)
                },
            },
    {
        let mut i: usize = 0;
        while i < model.initializer.len()
            invariant
                0 <= i <= model.initializer@.len(),
                forall|k: int| 0 <= k < i ==> spec_tensor_wf(#[trigger] model.initializer@[k]),
            decreases model.initializer@.len() - i,
        {
            let t = &model.initializer[i];
            let ok = match crate::onnx::elem_count(&t.dims) {
                Some(c) => t.data.len() as u64 == c,
                None => false,
            };
            if !ok {
                return Err(SessionError::ModelLoad(t.name.clone()));
            }
            i = i + 1;
        }
        let mut a: usize = 0;
        while a < model.node.len()
            invariant
                0 <= a <= model.node@.len(),
                spec_graph_wf(model),
                forall|k: int, m: int|
                    0 <= k < a && 0 <= m < model.node@[k].input@.len() ==> spec_name_covered(
                        model,
                        (#[trigger] model.node@[k].input@[m])@,
                    ),
            decreases model.node@.len() - a,
        {
            let mut b: usize = 0;
            while b < model.node[a].input.len()
                invariant
                    0 <= a < model.node@.len(),
                    0 <= b <= model.node@[a as int].input@.len(),
                    spec_graph_wf(model),
                    forall|k: int, m: int|
                        0 <= k < a && 0 <= m < model.node@[k].input@.len() ==> spec_name_covered(
                            model,
                            (#[trigger] model.node@[k].input@[m])@,
                        ),
                    forall|m: int|
                        0 <= m < b ==> spec_name_covered(
                            model,
                            (#[trigger] model.node@[a as int].input@[m])@,
                        ),
                decreases model.node@[a as int].input@.len() - b,
            {
                if !name_covered(&model, &model.node[a].input[b]) {
                    return Err(SessionError::MissingInitializer(model.node[a].input[b].clone()));
                }
                b = b + 1;
            }
            a = a + 1;
        }
        let (reg, acts) = Self::load_initializers(&model);
        Ok((Session { model, inner_infos: reg }, acts))
    }
}

/// The kernels a run dispatches, one per node in declaration order,
/// each compiled against the environment as it stood when the node
/// was reached.
pub open spec fn spec_kernels_rec(nodes: Seq<Node>, env: Seq<(Seq<char>, Seq<u64>)>) -> Seq<
    (Seq<char>, Seq<(Seq<char>, bool)>, (u32, u32, u32)),
>
    decreases nodes.len(),
{
    if nodes.len() == 0 {
        Seq::empty()
    } else {
        match spec_infer_node(nodes[0], env) {
            Err(_) => Seq::empty(),
            Ok(s) => seq![spec_kernel(nodes[0], env, s)] + spec_kernels_rec(
                nodes.drop_first(),
                spec_env_put(env, nodes[0].output@[0]@, s),
            ),
        }
    }
}

/// The abstract content of a kernel list.
pub open spec fn kernels_views(ks: Seq<CompiledKernel>) -> Seq<
    (Seq<char>, Seq<(Seq<char>, bool)>, (u32, u32, u32)),
> {
    ks.map_values(|k: CompiledKernel| kernel_view(k))
}

/// A supplied input whose binding survives resolution unchanged: no
/// other supplied input contradicts its shape, and the resolved
/// environment still binds its name to its own dimensions (no node
/// rebinds the name to another shape).
pub open spec fn spec_input_stable(
    ins: Seq<TensorData>,
    env3: Seq<(Seq<char>, Seq<u64>)>,
    j: int,
) -> bool {
    &&& (forall|j2: int|
        0 <= j2 < ins.len() && (#[trigger] ins[j2]).name@ == ins[j].name@ ==> ins[j2].dims@
            == ins[j].dims@)
    &&& spec_env_get(env3, ins[j].name@) == Some(ins[j].dims@)
}

/// A name whose registered handle already fits this run: the
/// resolution binds it to the very dimensions the registry holds, and
/// no supplied input contradicts them.
pub open spec fn spec_binding_stable(
    env3: Seq<(Seq<char>, Seq<u64>)>,
    ins: Seq<TensorData>,
    reg: Registry,
    nm: Seq<char>,
) -> bool {
    match spec_env_get(env3, nm) {
        Some(d) => (match reg.spec_get(nm) {
            Some(p) => p.1 == d,
            None => false,
        }) && (forall|j: int|
            0 <= j < ins.len() && (#[trigger] ins[j]).name@ == nm ==> ins[j].dims@ == d),
        None => false,
    }
}

/// The full-reuse situation of a repeated run: every name the
/// resolution binds is already registered with the same shape, and
/// every supplied input keeps its binding.
pub open spec fn spec_full_reuse(
    env3: Seq<(Seq<char>, Seq<u64>)>,
    ins: Seq<TensorData>,
    reg: Registry,
) -> bool {
    &&& (forall|nm: Seq<char>|
        #[trigger] spec_env_get(env3, nm) is Some ==> (match reg.spec_get(nm) {
            Some(p) => Some(p.1) == spec_env_get(env3, nm),
            None => false,
        }))
    &&& (forall|j: int|
        0 <= j < ins.len() ==> spec_env_get(env3, (#[trigger] ins[j]).name@) == Some(
            ins[j].dims@,
        ))
}

/// What a successful run plan promises, against the model, the run's
/// inputs, the registry the run started from (`prev`), and the
/// session as the run left it.
pub open spec fn spec_plan_matches(
    m: Graph,
    ins: Seq<TensorData>,
    prev: Registry,
    s: Session,
    plan: RunPlan,
) -> bool {
    match spec_seed_inputs(m.input@, ins, spec_seed_inits(m.initializer@, Seq::empty())) {
        Err(_) => false,
        Ok(env2) => match spec_resolve_nodes(m.node@, env2) {
            Err(_) => false,
            Ok(env3) => {
                &&& kernels_views(plan.kernels@) == spec_kernels_rec(m.node@, env2)
                &&& plan.outputs@.len() == m.output@.len()
                &&& (forall|q: int|
                    0 <= q < plan.outputs@.len() ==> {
                        &&& (#[trigger] plan.outputs@[q]).name@ == m.output@[q].name@
                        &&& spec_env_get(env3, m.output@[q].name@) == Some(plan.outputs@[q].dims@)
                        &&& crate::onnx::spec_valid_dims(plan.outputs@[q].dims@)
                        &&& s.inner_infos.spec_get(m.output@[q].name@) == Some(
                            (plan.outputs@[q].buffer, plan.outputs@[q].dims@),
                        )
                    })
                &&& (forall|nm: Seq<char>|
                    #[trigger] spec_env_get(env3, nm) is Some ==> match s.inner_infos.spec_get(nm) {
                        Some(p) => Some(p.1) == spec_env_get(env3, nm),
                        None => false,
                    })
                &&& (forall|idx: int|
                    0 <= idx < plan.buffers@.len() ==> match s.inner_infos.spec_get(
                        (#[trigger] plan.buffers@[idx]).0@,
                    ) {
                        Some(p) => p.0 == plan.buffers@[idx].1,
                        None => false,
                    })
                &&& (forall|j: int|
                    0 <= j < ins.len() ==> spec_writes_data(
                        plan.actions@,
                        (#[trigger] ins[j]).data@,
                    ))
                &&& (forall|j: int|
                    0 <= j < ins.len() && #[trigger] spec_input_stable(ins, env3, j)
                        ==> match s.inner_infos.spec_get(ins[j].name@) {
                        Some(p) => p.1 == ins[j].dims@ && spec_writes_to(
                            plan.actions@,
                            p.0,
                            ins[j].data@,
                        ),
                        None => false,
                    })
                &&& (forall|nm: Seq<char>|
                    spec_binding_stable(env3, ins, prev, nm)
                        ==> #[trigger] s.inner_infos.spec_get(nm) == prev.spec_get(nm))
                &&& (spec_full_reuse(env3, ins, prev) ==> forall|k: int|
                    0 <= k < plan.actions@.len() ==> (#[trigger] plan.actions@[k]) is WriteData)
                &&& (forall|nm: Seq<char>|
                    #[trigger] spec_env_get(env3, nm) is Some ==> exists|idx: int|
                        0 <= idx < plan.buffers@.len() && (#[trigger] plan.buffers@[idx]).0@ == nm)
                &&& (forall|i: int, j: int|
                    0 <= i < m.node@.len() && 0 <= j < m.node@[i].input@.len() ==> spec_env_get(
                        env3,
                        (#[trigger] m.node@[i].input@[j])@,
                    ) is Some)
                &&& (forall|i: int|
                    0 <= i < m.node@.len() ==> (#[trigger] m.node@[i]).output@.len() == 1
                        && spec_env_get(env3, m.node@[i].output@[0]@) is Some)
            },
        },
    }
}

impl Session {
    /// Plans one run: resolves every shape from the supplied inputs,
    /// reconciles the buffer registry (reusing buffers whose shape is
    /// unchanged, reallocating the rest), and compiles one kernel per
    /// node.  Whether planning succeeds depends on the graph and the
    /// inputs alone, never on what earlier runs left in the registry:
    /// a shape change between runs reallocates, it does not fail.  A
    /// failed run leaves the session exactly as it was.
    pub fn plan_run(&mut self, inputs: &Vec<TensorData>) -> (r: Result<RunPlan, SessionError>)
        requires
            old(self).wf(),
            old(self).inner_infos.next_id + 2 * (old(self).model.initializer@.len()
                + inputs@.len() + old(self).model.node@.len()) < u64::MAX,
        ensures
            final(self).wf(),
            final(self).model == old(self).model,
            (r is Ok) == (spec_resolve(old(self).model, inputs@) is Ok),
            final(self).inner_infos.next_id <= old(self).inner_infos.next_id + old(
                self,
            ).model.initializer@.len() + 2 * inputs@.len() + old(self).model.node@.len(),
            r matches Err(e) ==> *final(self) == *old(self) && (spec_resolve(
                old(self).model,
                inputs@,
            ) matches Err(k) && spec_err_matches(e, k)),
            r matches Ok(plan) ==> spec_plan_matches(
                old(self).model,
                inputs@,
                old(self).inner_infos,
                *final(self),
                plan,
            ),
    {
        let ghost m = old(self).model;
        let ghost e0 = Seq::<(Seq<char>, Seq<u64>)>::empty();
        let envf = match resolve_shapes(&self.model, inputs) {
            Ok(v) => v,
            Err(e) => {
                return Err(e);
            },
        };
        let ghost env3 = env_view(envf@);
        // Replay the seeding to compile each node against the
        // environment as it stands when the node is reached.
        let mut env: Vec<ShapeEntry> = Vec::new();
        let mut i: usize = 0;
        proof {
            assert(m.initializer@.skip(0) =~= m.initializer@);
            assert(env_view(env@) =~= e0);
        }
        while i < self.model.initializer.len()
            invariant
                *self == *old(self),
                old(self).wf(),
                0 <= i <= m.initializer@.len(),
                m == self.model,
                e0 == Seq::<(Seq<char>, Seq<u64>)>::empty(),
                env_wf(env_view(env@)),
                spec_seed_inits(m.initializer@, e0) == spec_seed_inits(
                    m.initializer@.skip(i as int),
                    env_view(env@),
                ),
            decreases m.initializer@.len() - i,
        {
            proof {
                assert(m.initializer@.skip(i as int).drop_first() =~= m.initializer@.skip(
                    i as int + 1,
                ));
                assert(crate::onnx::spec_tensor_wf(m.initializer@[i as int]));
                crate::dimensions::lemma_env_put_wf(
                    env_view(env@),
                    m.initializer@[i as int].name@,
                    m.initializer@[i as int].dims@,
                );
            }
            let t = &self.model.initializer[i];
            let d = t.dims.clone();
            crate::dimensions::env_put(&mut env, &t.name, d);
            i = i + 1;
        }
        proof {
            assert(m.initializer@.skip(i as int) =~= Seq::<crate::onnx::TensorData>::empty());
            assert(inputs@.skip(0) =~= inputs@);
        }
        let mut j: usize = 0;
        while j < inputs.len()
            invariant
                *self == *old(self),
                old(self).wf(),
                0 <= j <= inputs@.len(),
                m == self.model,
                e0 == Seq::<(Seq<char>, Seq<u64>)>::empty(),
                env_wf(env_view(env@)),
                spec_seed_inputs(m.input@, inputs@, spec_seed_inits(m.initializer@, e0)) is Ok,
                spec_seed_inputs(m.input@, inputs@, spec_seed_inits(m.initializer@, e0))
                    == spec_seed_inputs(m.input@, inputs@.skip(j as int), env_view(env@)),
            decreases inputs@.len() - j,
        {
            proof {
                assert(inputs@.skip(j as int).drop_first() =~= inputs@.skip(j as int + 1));
                assert(inputs@.skip(j as int)[0] == inputs@[j as int]);
                assert(crate::onnx::spec_tensor_wf(inputs@[j as int]));
                crate::dimensions::lemma_env_put_wf(
                    env_view(env@),
                    inputs@[j as int].name@,
                    inputs@[j as int].dims@,
                );
            }
            let t = &inputs[j];
            let d = t.dims.clone();
            crate::dimensions::env_put(&mut env, &t.name, d);
            j = j + 1;
        }
        proof {
            assert(inputs@.skip(j as int) =~= Seq::<crate::onnx::TensorData>::empty());
            assert(m.node@.skip(0) =~= m.node@);
        }
        let ghost env2 = env_view(env@);
        proof {
            assert(kernels_views(Seq::<CompiledKernel>::empty()) =~= Seq::<
                (Seq<char>, Seq<(Seq<char>, bool)>, (u32, u32, u32)),
            >::empty());
            assert(spec_kernels_rec(m.node@, env2) =~= Seq::<
                (Seq<char>, Seq<(Seq<char>, bool)>, (u32, u32, u32)),
            >::empty() + spec_kernels_rec(m.node@.skip(0), env2));
        }
        let mut kernels: Vec<CompiledKernel> = Vec::new();
        let mut mm: usize = 0;
        while mm < self.model.node.len()
            invariant
                *self == *old(self),
                old(self).wf(),
                0 <= mm <= m.node@.len(),
                m == self.model,
                env_wf(env_view(env@)),
                spec_resolve_nodes(m.node@, env2) is Ok,
                spec_resolve_nodes(m.node@, env2) == spec_resolve_nodes(
                    m.node@.skip(mm as int),
                    env_view(env@),
                ),
                spec_kernels_rec(m.node@, env2) == kernels_views(kernels@) + spec_kernels_rec(
                    m.node@.skip(mm as int),
                    env_view(env@),
                ),
            decreases m.node@.len() - mm,
        {
            proof {
                assert(m.node@.skip(mm as int).drop_first() =~= m.node@.skip(mm as int + 1));
                assert(m.node@.skip(mm as int)[0] == m.node@[mm as int]);
            }
            let node = &self.model.node[mm];
            let s = match infer_node_shape(node, &env) {
                Ok(v) => v,
                Err(_) => unreached(),
            };
            let k = build_kernel(node, &env, &s);
            let ghost oldmapped = kernels_views(kernels@);
            kernels.push(k);
            proof {
                assert(kernels_views(kernels@) =~= oldmapped.push(kernel_view(k)));
                crate::dimensions::lemma_env_put_wf(env_view(env@), node.output@[0]@, s@);
                assert(spec_kernels_rec(m.node@, env2) =~= kernels_views(kernels@)
                    + spec_kernels_rec(
                    m.node@.skip(mm as int + 1),
                    spec_env_put(env_view(env@), node.output@[0]@, s@),
                ));
            }
            crate::dimensions::env_put(&mut env, &node.output[0], s);
            mm = mm + 1;
        }
        proof {
            assert(m.node@.skip(mm as int) =~= Seq::<Node>::empty());
            assert(spec_kernels_rec(m.node@, env2) =~= kernels_views(kernels@));
        }
        // Reconcile buffers: supplied inputs first (upload fresh data
        // each run), then every resolved tensor.
        let mut actions: Vec<BufferAction> = Vec::new();
        let mut w: usize = 0;
        proof {
            lemma_seed_inputs_ok(m.input@, inputs@, spec_seed_inits(m.initializer@, e0));
        }
        while w < inputs.len()
            invariant
                0 <= w <= inputs@.len(),
                m == self.model,
                old(self).wf(),
                self.inner_infos.wf(),
                self.inner_infos.next_id <= old(self).inner_infos.next_id + w,
                old(self).inner_infos.next_id + 2 * (m.initializer@.len() + inputs@.len()
                    + m.node@.len()) < u64::MAX,
                forall|jj: int|
                    0 <= jj < inputs@.len() ==> crate::onnx::spec_tensor_wf(#[trigger] inputs@[jj]),
                forall|jj: int|
                    0 <= jj < w ==> spec_writes_data(actions@, (#[trigger] inputs@[jj]).data@),
                forall|jj: int|
                    0 <= jj < w && #[trigger] spec_input_stable(inputs@, env3, jj)
                        ==> match self.inner_infos.spec_get(inputs@[jj].name@) {
                        Some(p) => p.1 == inputs@[jj].dims@ && spec_writes_to(
                            actions@,
                            p.0,
                            inputs@[jj].data@,
                        ),
                        None => false,
                    },
                forall|nm: Seq<char>|
                    spec_binding_stable(env3, inputs@, old(self).inner_infos, nm)
                        ==> #[trigger] self.inner_infos.spec_get(nm) == old(
                        self,
                    ).inner_infos.spec_get(nm),
                spec_full_reuse(env3, inputs@, old(self).inner_infos) ==> forall|k: int|
                    0 <= k < actions@.len() ==> (#[trigger] actions@[k]) is WriteData,
            decreases inputs@.len() - w,
        {
            let ghost a0 = actions@;
            let ghost reg0 = self.inner_infos;
            let t = &inputs[w];
            let id = self.inner_infos.ensure(&t.name, &t.dims, &mut actions);
            let ghost a1 = actions@;
            actions.push(BufferAction::WriteData { id, data: t.data.clone() });
            proof {
                let nmw = inputs@[w as int].name@;
                let kw = actions@.len() - 1;
                assert(crate::resource::spec_action_data(actions@[kw]) == Some(
                    inputs@[w as int].data@,
                ));
                assert(spec_writes_data(actions@, inputs@[w as int].data@));
                assert forall|jj: int| 0 <= jj < w implies spec_writes_data(
                    actions@,
                    (#[trigger] inputs@[jj]).data@,
                ) by {
                    lemma_writes_data_extend(a0, actions@, inputs@[jj].data@);
                }
                // Stable bindings stay put: an ensure with the very
                // dimensions the registry holds changes nothing.
                assert forall|nm: Seq<char>|
                    spec_binding_stable(env3, inputs@, old(self).inner_infos, nm) implies
                    #[trigger] self.inner_infos.spec_get(nm) == old(self).inner_infos.spec_get(
                    nm,
                ) by {
                    if nm == nmw {
                        assert(inputs@[w as int].dims@ == spec_env_get(env3, nm)->Some_0);
                        assert(reg0.spec_get(nm) == old(self).inner_infos.spec_get(nm));
                    }
                }
                assert forall|jj: int|
                    0 <= jj < w + 1 && #[trigger] spec_input_stable(inputs@, env3, jj) implies
                    match self.inner_infos.spec_get(inputs@[jj].name@) {
                    Some(p) => p.1 == inputs@[jj].dims@ && spec_writes_to(
                        actions@,
                        p.0,
                        inputs@[jj].data@,
                    ),
                    None => false,
                } by {
                    if jj < w {
                        if inputs@[jj].name@ == nmw {
                            assert(inputs@[w as int].dims@ == inputs@[jj].dims@);
                        }
                        let p0 = match reg0.spec_get(inputs@[jj].name@) {
                            Some(p) => p.0,
                            None => 0,
                        };
                        lemma_writes_to_extend(a0, actions@, p0, inputs@[jj].data@);
                    } else {
                        assert(match actions@[kw] {
                            BufferAction::WriteData { id: i2, data } => i2 == id && data@
                                == inputs@[jj].data@,
                            _ => false,
                        });
                    }
                }
                if spec_full_reuse(env3, inputs@, old(self).inner_infos) {
                    assert(spec_env_get(env3, nmw) == Some(inputs@[w as int].dims@));
                    assert(spec_binding_stable(env3, inputs@, old(self).inner_infos, nmw)) by {
                        assert forall|j2: int|
                            0 <= j2 < inputs@.len() && (#[trigger] inputs@[j2]).name@ == nmw
                            implies inputs@[j2].dims@ == spec_env_get(env3, nmw)->Some_0 by {
                            assert(spec_env_get(env3, inputs@[j2].name@) == Some(
                                inputs@[j2].dims@,
                            ));
                        }
                    }
                    assert(reg0.spec_get(nmw) == old(self).inner_infos.spec_get(nmw));
                    assert(a1 == a0);
                    assert forall|k: int| 0 <= k < actions@.len() implies (
                    #[trigger] actions@[k]) is WriteData by {
                        if k < a0.len() {
                            assert(actions@[k] == a0[k]);
                        } else {
                            assert(k == kw);
                        }
                    }
                }
            }
            w = w + 1;
        }
        let mut buffers: Vec<(String, u64)> = Vec::new();
        let mut tt: usize = 0;
        while tt < envf.len()
            invariant
                0 <= tt <= envf@.len(),
                m == self.model,
                old(self).wf(),
                self.inner_infos.wf(),
                env3 == env_view(envf@),
                env_wf(env3),
                env_distinct(env3),
                envf@.len() <= m.initializer@.len() + inputs@.len() + m.node@.len(),
                self.inner_infos.next_id <= old(self).inner_infos.next_id + inputs@.len() + tt,
                old(self).inner_infos.next_id + 2 * (m.initializer@.len() + inputs@.len()
                    + m.node@.len()) < u64::MAX,
                buffers@.len() == tt,
                forall|idx: int|
                    0 <= idx < tt ==> #[trigger] self.inner_infos.spec_get(envf@[idx].name@)
                        == Some((buffers@[idx].1, envf@[idx].dims@)),
                forall|idx: int| 0 <= idx < tt ==> (#[trigger] buffers@[idx]).0@ == envf@[idx].name@,
                forall|jj: int|
                    0 <= jj < inputs@.len() ==> spec_writes_data(
                        actions@,
                        (#[trigger] inputs@[jj]).data@,
                    ),
                forall|jj: int|
                    0 <= jj < inputs@.len() && #[trigger] spec_input_stable(inputs@, env3, jj)
                        ==> match self.inner_infos.spec_get(inputs@[jj].name@) {
                        Some(p) => p.1 == inputs@[jj].dims@ && spec_writes_to(
                            actions@,
                            p.0,
                            inputs@[jj].data@,
                        ),
                        None => false,
                    },
                forall|nm: Seq<char>|
                    spec_binding_stable(env3, inputs@, old(self).inner_infos, nm)
                        ==> #[trigger] self.inner_infos.spec_get(nm) == old(
                        self,
                    ).inner_infos.spec_get(nm),
                spec_full_reuse(env3, inputs@, old(self).inner_infos) ==> forall|k: int|
                    0 <= k < actions@.len() ==> (#[trigger] actions@[k]) is WriteData,
            decreases envf@.len() - tt,
        {
            let e = &envf[tt];
            proof {
                assert(env3[tt as int] == (envf@[tt as int].name@, envf@[tt as int].dims@));
                assert(crate::onnx::spec_valid_dims(envf@[tt as int].dims@));
            }
            proof {
                crate::dimensions::lemma_env_get_at(env3, tt as int);
                assert(spec_env_get(env3, envf@[tt as int].name@) == Some(envf@[tt as int].dims@));
            }
            let ghost before = actions@;
            let ghost reg0 = self.inner_infos;
            let id = self.inner_infos.ensure(&e.name, &e.dims, &mut actions);
            buffers.push((e.name.clone(), id));
            proof {
                let nmt = envf@[tt as int].name@;
                let dt = envf@[tt as int].dims@;
                assert forall|idx: int| 0 <= idx < tt implies #[trigger] self.inner_infos.spec_get(
                    envf@[idx].name@,
                ) == Some((buffers@[idx].1, envf@[idx].dims@)) by {
                    assert(env3[idx] == (envf@[idx].name@, envf@[idx].dims@));
                    assert(env3[idx].0 != env3[tt as int].0);
                }
                assert forall|jj: int| 0 <= jj < inputs@.len() implies spec_writes_data(
                    actions@,
                    (#[trigger] inputs@[jj]).data@,
                ) by {
                    lemma_writes_data_extend(before, actions@, inputs@[jj].data@);
                }
                assert forall|nm: Seq<char>|
                    spec_binding_stable(env3, inputs@, old(self).inner_infos, nm) implies
                    #[trigger] self.inner_infos.spec_get(nm) == old(self).inner_infos.spec_get(
                    nm,
                ) by {
                    if nm == nmt {
                        assert(dt == spec_env_get(env3, nm)->Some_0);
                        assert(reg0.spec_get(nm) == old(self).inner_infos.spec_get(nm));
                    }
                }
                assert forall|jj: int|
                    0 <= jj < inputs@.len() && #[trigger] spec_input_stable(inputs@, env3, jj)
                    implies match self.inner_infos.spec_get(inputs@[jj].name@) {
                    Some(p) => p.1 == inputs@[jj].dims@ && spec_writes_to(
                        actions@,
                        p.0,
                        inputs@[jj].data@,
                    ),
                    None => false,
                } by {
                    if inputs@[jj].name@ == nmt {
                        assert(spec_env_get(env3, inputs@[jj].name@) == Some(inputs@[jj].dims@));
                        assert(dt == inputs@[jj].dims@);
                    }
                    let p0 = match reg0.spec_get(inputs@[jj].name@) {
                        Some(p) => p.0,
                        None => 0,
                    };
                    lemma_writes_to_extend(before, actions@, p0, inputs@[jj].data@);
                }
                if spec_full_reuse(env3, inputs@, old(self).inner_infos) {
                    assert(spec_binding_stable(env3, inputs@, old(self).inner_infos, nmt)) by {
                        assert forall|j2: int|
                            0 <= j2 < inputs@.len() && (#[trigger] inputs@[j2]).name@ == nmt
                            implies inputs@[j2].dims@ == spec_env_get(env3, nmt)->Some_0 by {
                            assert(spec_env_get(env3, inputs@[j2].name@) == Some(
                                inputs@[j2].dims@,
                            ));
                        }
                    }
                    assert(reg0.spec_get(nmt) == old(self).inner_infos.spec_get(nmt));
                    assert(actions@ == before);
                }
            }
            tt = tt + 1;
        }
        proof {
            crate::dimensions::lemma_outputs_resolved(m.output@, env3);
        }
        let mut outs: Vec<OutputRef> = Vec::new();
        let mut q: usize = 0;
        while q < self.model.output.len()
            invariant
                0 <= q <= m.output@.len(),
                m == self.model,
                old(self).wf(),
                self.inner_infos.wf(),
                envf@.len() <= m.initializer@.len() + inputs@.len() + m.node@.len(),
                self.inner_infos.next_id <= old(self).inner_infos.next_id + inputs@.len()
                    + envf@.len(),
                env3 == env_view(envf@),
                env_wf(env3),
                env_distinct(env3),
                crate::dimensions::spec_outputs_resolved(m.output@, env3),
                forall|idx: int|
                    0 <= idx < envf@.len() ==> #[trigger] self.inner_infos.spec_get(
                        envf@[idx].name@,
                    ) == Some((buffers@[idx].1, envf@[idx].dims@)),
                buffers@.len() == envf@.len(),
                forall|idx: int|
                    0 <= idx < envf@.len() ==> (#[trigger] buffers@[idx]).0@ == envf@[idx].name@,
                forall|jj: int|
                    0 <= jj < inputs@.len() ==> spec_writes_data(
                        actions@,
                        (#[trigger] inputs@[jj]).data@,
                    ),
                forall|jj: int|
                    0 <= jj < inputs@.len() && #[trigger] spec_input_stable(inputs@, env3, jj)
                        ==> match self.inner_infos.spec_get(inputs@[jj].name@) {
                        Some(p) => p.1 == inputs@[jj].dims@ && spec_writes_to(
                            actions@,
                            p.0,
                            inputs@[jj].data@,
                        ),
                        None => false,
                    },
                forall|nm: Seq<char>|
                    spec_binding_stable(env3, inputs@, old(self).inner_infos, nm)
                        ==> #[trigger] self.inner_infos.spec_get(nm) == old(
                        self,
                    ).inner_infos.spec_get(nm),
                spec_full_reuse(env3, inputs@, old(self).inner_infos) ==> forall|k: int|
                    0 <= k < actions@.len() ==> (#[trigger] actions@[k]) is WriteData,
                outs@.len() == q,
                forall|k: int|
                    0 <= k < q ==> {
                        &&& (#[trigger] outs@[k]).name@ == m.output@[k].name@
                        &&& spec_env_get(env3, m.output@[k].name@) == Some(outs@[k].dims@)
                        &&& crate::onnx::spec_valid_dims(outs@[k].dims@)
                        &&& self.inner_infos.spec_get(m.output@[k].name@) == Some(
                            (outs@[k].buffer, outs@[k].dims@),
                        )
                    },
            decreases m.output@.len() - q,
        {
            let nm = &self.model.output[q].name;
            let d = match env_get(&envf, nm.as_str()) {
                Some(d) => d,
                None => unreached(),
            };
            proof {
                lemma_env_get_exists(env3, nm@);
                let ix = choose|ix: int|
                    0 <= ix < env3.len() && (#[trigger] env3[ix]).0 == nm@ && env3[ix].1
                        == match spec_env_get(env3, nm@) {
                        Some(dd) => dd,
                        None => Seq::empty(),
                    };
                assert(env3[ix] == (envf@[ix].name@, envf@[ix].dims@));
                assert(self.inner_infos.spec_get(envf@[ix].name@) == Some(
                    (buffers@[ix].1, envf@[ix].dims@),
                ));
            }
            let info = match self.inner_infos.get(nm) {
                Some(info) => info,
                None => unreached(),
            };
            outs.push(OutputRef { name: nm.clone(), buffer: info.buffer, dims: d.clone() });
            q = q + 1;
        }
        let plan = RunPlan { actions, kernels, buffers, outputs: outs };
        proof {
            assert forall|nm: Seq<char>| #[trigger] spec_env_get(env3, nm) is Some implies match self
                .inner_infos.spec_get(nm) {
                Some(p) => Some(p.1) == spec_env_get(env3, nm),
                None => false,
            } by {
                lemma_env_get_exists(env3, nm);
                let ix = choose|ix: int|
                    0 <= ix < env3.len() && (#[trigger] env3[ix]).0 == nm && env3[ix].1
                        == match spec_env_get(env3, nm) {
                        Some(dd) => dd,
                        None => Seq::empty(),
                    };
                assert(env3[ix] == (envf@[ix].name@, envf@[ix].dims@));
                assert(self.inner_infos.spec_get(envf@[ix].name@) == Some(
                    (plan.buffers@[ix].1, envf@[ix].dims@),
                ));
            }
            assert forall|idx: int| 0 <= idx < plan.buffers@.len() implies match self.inner_infos
                .spec_get((#[trigger] plan.buffers@[idx]).0@) {
                Some(p) => p.0 == plan.buffers@[idx].1,
                None => false,
            } by {
                assert(plan.buffers@[idx].0@ == envf@[idx].name@);
                assert(self.inner_infos.spec_get(envf@[idx].name@) == Some(
                    (plan.buffers@[idx].1, envf@[idx].dims@),
                ));
            }
            // Every resolved name has a row in the buffer table, so
            // every kernel binding can be resolved by the embedding
            // program.
            assert forall|nm: Seq<char>| #[trigger] spec_env_get(env3, nm) is Some implies exists|
                idx: int,
            |
                0 <= idx < plan.buffers@.len() && (#[trigger] plan.buffers@[idx]).0@ == nm by {
                lemma_env_get_exists(env3, nm);
                let ix = choose|ix: int|
                    0 <= ix < env3.len() && (#[trigger] env3[ix]).0 == nm && env3[ix].1
                        == match spec_env_get(env3, nm) {
                        Some(dd) => dd,
                        None => Seq::empty(),
                    };
                assert(env3[ix] == (envf@[ix].name@, envf@[ix].dims@));
                assert((#[trigger] plan.buffers@[ix]).0@ == nm);
            }
            crate::dimensions::lemma_resolve_nodes_names(m.node@, env2, env3);
            assert(spec_plan_matches(m, inputs@, old(self).inner_infos, *self, plan));
        }
        Ok(plan)
    }
}

/// Determinism: the kernels a run dispatches, and the names and
/// shapes of the outputs it reads back, are a function of the graph
/// and the supplied inputs alone.  Two successful runs over the same
/// graph with identical inputs — successive runs of one session, or
/// runs of different sessions — plan identical device work, whatever
/// earlier runs left in the buffer registry.  And when the second run
/// starts from the registry the first one left (and no node rebinds a
/// supplied input's name to another shape), its buffer actions are
/// exactly the fresh input uploads: every buffer is reused, so the
/// device sees the identical dispatch and write stream again.
/// The environment a run's resolution produces, as a function of the
/// graph and the inputs alone (empty where resolution fails).
pub open spec fn spec_resolved_env(m: Graph, ins: Seq<TensorData>) -> Seq<(Seq<char>, Seq<u64>)> {
    match spec_seed_inputs(m.input@, ins, spec_seed_inits(m.initializer@, Seq::empty())) {
        Ok(env2) => match spec_resolve_nodes(m.node@, env2) {
            Ok(env3) => env3,
            Err(_) => Seq::empty(),
        },
        Err(_) => Seq::empty(),
    }
}

pub proof fn lemma_run_deterministic(
    m: Graph,
    ins: Seq<TensorData>,
    r1: Registry,
    r2: Registry,
    f1: Session,
    f2: Session,
    p1: RunPlan,
    p2: RunPlan,
)
    requires
        spec_plan_matches(m, ins, r1, f1, p1),
        spec_plan_matches(m, ins, r2, f2, p2),
    ensures
        kernels_views(p1.kernels@) == kernels_views(p2.kernels@),
        p1.outputs@.len() == p2.outputs@.len(),
        forall|q: int|
            0 <= q < p1.outputs@.len() ==> (#[trigger] p1.outputs@[q]).name@ == p2.outputs@[q].name@
                && p1.outputs@[q].dims@ == p2.outputs@[q].dims@,
        (r2 == f1.inner_infos && (forall|j: int|
            0 <= j < ins.len() ==> spec_input_stable(ins, spec_resolved_env(m, ins), j)))
            ==> forall|k: int|
            0 <= k < p2.actions@.len() ==> (#[trigger] p2.actions@[k]) is WriteData,
{
    let env3 = spec_resolved_env(m, ins);
    if r2 == f1.inner_infos && (forall|j: int|
        0 <= j < ins.len() ==> spec_input_stable(ins, env3, j)) {
        assert(spec_full_reuse(env3, ins, f1.inner_infos)) by {
            assert forall|nm: Seq<char>| #[trigger] spec_env_get(env3, nm) is Some implies (
            match f1.inner_infos.spec_get(nm) {
                Some(p) => Some(p.1) == spec_env_get(env3, nm),
                None => false,
            }) by {}
            assert forall|j: int| 0 <= j < ins.len() implies spec_env_get(
                env3,
                (#[trigger] ins[j]).name@,
            ) == Some(ins[j].dims@) by {
                assert(spec_input_stable(ins, env3, j));
            }
        }
    }
}

/// Attribute defaulting: a reduction node without the optional
/// `keepdims` attribute infers the same output shape and compiles to
/// the same kernel as the same node with `keepdims` supplied
/// explicitly with its default value 1.
pub proof fn lemma_keepdims_default(
    n1: Node,
    n2: Node,
    a: crate::onnx::Attribute,
    env: Seq<(Seq<char>, Seq<u64>)>,
)
    requires
        n1.op_type@ == "ReduceSum"@,
        n2.op_type@ == n1.op_type@,
        n2.name@ == n1.name@,
        n2.input@ == n1.input@,
        n2.output@ == n1.output@,
        spec_find_attr(n1.attribute@, "keepdims"@) is None,
        n2.attribute@ == n1.attribute@.push(a),
        a.name@ == "keepdims"@,
        a.value == AttributeValue::Int(1),
    ensures
        spec_infer_node(n2, env) == spec_infer_node(n1, env),
        forall|s: Seq<u64>| #[trigger] spec_kernel(n2, env, s) == spec_kernel(n1, env, s),
{
    reveal_strlit("axis");
    reveal_strlit("keepdims");
    reveal_strlit("ReduceSum");
    reveal_strlit("Add");
    reveal_strlit("Sub");
    reveal_strlit("Mul");
    reveal_strlit("Div");
    reveal_strlit("Relu");
    assert("axis"@.len() == 4);
    assert("keepdims"@.len() == 8);
    assert("ReduceSum"@.len() == 9);
    assert("Add"@.len() == 3);
    assert("Sub"@.len() == 3);
    assert("Mul"@.len() == 3);
    assert("Div"@.len() == 3);
    assert("Relu"@.len() == 4);
    crate::onnx::lemma_find_attr_push(n1.attribute@, a, "keepdims"@);
    crate::onnx::lemma_find_attr_push(n1.attribute@, a, "axis"@);
    assert(spec_find_attr(n2.attribute@, "keepdims"@) == Some(AttributeValue::Int(1)));
    assert(a.name@ != "axis"@);
    assert(spec_find_attr(n2.attribute@, "axis"@) == spec_find_attr(
        n1.attribute@.push(a),
        "axis"@,
    ));
    if spec_find_attr(n1.attribute@, "axis"@) is Some {
        assert(spec_find_attr(n1.attribute@.push(a), "axis"@) == spec_find_attr(
            n1.attribute@,
            "axis"@,
        ));
    } else {
        assert(spec_find_attr(n1.attribute@.push(a), "axis"@) is None);
    }
    assert(spec_find_attr(n2.attribute@, "axis"@) == spec_find_attr(n1.attribute@, "axis"@));
    assert(!crate::dimensions::spec_is_binop(n1.op_type@));
    assert(spec_infer_node(n2, env) == spec_infer_node(n1, env));
    assert forall|s: Seq<u64>| #[trigger] spec_kernel(n2, env, s) == spec_kernel(n1, env, s) by {
        assert(crate::compiler::spec_bindings_of(n2) == crate::compiler::spec_bindings_of(n1));
        assert(crate::compiler::spec_shader_of(n2, env, s) == crate::compiler::spec_shader_of(
            n1,
            env,
            s,
        ));
    }
}

/// Two nodes that agree operationally: the same output names, the
/// same inferred shape and the same compiled kernel in every
/// environment.
pub open spec fn spec_node_agrees(n1: Node, n2: Node) -> bool {
    &&& n1.output@ == n2.output@
    &&& (forall|env: Seq<(Seq<char>, Seq<u64>)>|
        #[trigger] spec_infer_node(n1, env) == spec_infer_node(n2, env))
    &&& (forall|env: Seq<(Seq<char>, Seq<u64>)>, s: Seq<u64>|
        #[trigger] spec_kernel(n1, env, s) == spec_kernel(n2, env, s))
}

/// Node-by-node agreement carries through shape resolution and
/// kernel compilation: agreeing node lists resolve to the same
/// environment and compile to the same kernel sequence.
pub proof fn lemma_nodes_agree_congruent(
    ns1: Seq<Node>,
    ns2: Seq<Node>,
    env: Seq<(Seq<char>, Seq<u64>)>,
)
    requires
        ns1.len() == ns2.len(),
        forall|i: int| 0 <= i < ns1.len() ==> spec_node_agrees(#[trigger] ns1[i], ns2[i]),
    ensures
        spec_resolve_nodes(ns1, env) == spec_resolve_nodes(ns2, env),
        spec_kernels_rec(ns1, env) == spec_kernels_rec(ns2, env),
    decreases ns1.len(),
{
    if ns1.len() > 0 {
        assert(spec_node_agrees(ns1[0], ns2[0]));
        assert(spec_infer_node(ns1[0], env) == spec_infer_node(ns2[0], env));
        match spec_infer_node(ns1[0], env) {
            Err(_) => {},
            Ok(s) => {
                assert(spec_kernel(ns1[0], env, s) == spec_kernel(ns2[0], env, s));
                let env1 = spec_env_put(env, ns1[0].output@[0]@, s);
                assert(ns2[0].output@[0]@ == ns1[0].output@[0]@);
                assert forall|i: int| 0 <= i < ns1.drop_first().len() implies spec_node_agrees(
                    #[trigger] ns1.drop_first()[i],
                    ns2.drop_first()[i],
                ) by {
                    assert(ns1.drop_first()[i] == ns1[i + 1]);
                    assert(ns2.drop_first()[i] == ns2[i + 1]);
                }
                lemma_nodes_agree_congruent(ns1.drop_first(), ns2.drop_first(), env1);
            },
        }
    }
}

/// Attribute defaulting, lifted to whole runs: a graph whose
/// reduction node leaves `keepdims` to its default resolves exactly
/// as the same graph with the default supplied explicitly — the same
/// success or failure, the same resolved shapes, and the same kernel
/// sequence, for every choice of inputs.
pub proof fn lemma_keepdims_default_run(
    m1: Graph,
    m2: Graph,
    t: int,
    a: crate::onnx::Attribute,
    ins: Seq<TensorData>,
)
    requires
        m1.input@ == m2.input@,
        m1.output@ == m2.output@,
        m1.initializer@ == m2.initializer@,
        m1.node@.len() == m2.node@.len(),
        0 <= t < m1.node@.len(),
        forall|i: int| 0 <= i < m1.node@.len() && i != t ==> #[trigger] m1.node@[i] == m2.node@[i],
        m1.node@[t].op_type@ == "ReduceSum"@,
        m2.node@[t].op_type@ == m1.node@[t].op_type@,
        m2.node@[t].name@ == m1.node@[t].name@,
        m2.node@[t].input@ == m1.node@[t].input@,
        m2.node@[t].output@ == m1.node@[t].output@,
        spec_find_attr(m1.node@[t].attribute@, "keepdims"@) is None,
        m2.node@[t].attribute@ == m1.node@[t].attribute@.push(a),
        a.name@ == "keepdims"@,
        a.value == AttributeValue::Int(1),
    ensures
        spec_resolve(m1, ins) == spec_resolve(m2, ins),
        spec_seed_inputs(m1.input@, ins, spec_seed_inits(m1.initializer@, Seq::empty())) matches Ok(
            env2,
        ) ==> spec_kernels_rec(m1.node@, env2) == spec_kernels_rec(m2.node@, env2),
{
    assert forall|i: int| 0 <= i < m1.node@.len() implies spec_node_agrees(
        #[trigger] m1.node@[i],
        m2.node@[i],
    ) by {
        if i == t {
            assert forall|env: Seq<(Seq<char>, Seq<u64>)>| #[trigger] spec_infer_node(
                m1.node@[t],
                env,
            ) == spec_infer_node(m2.node@[t], env) by {
                lemma_keepdims_default(m1.node@[t], m2.node@[t], a, env);
            }
            assert forall|env: Seq<(Seq<char>, Seq<u64>)>, s: Seq<u64>| #[trigger] spec_kernel(
                m1.node@[t],
                env,
                s,
            ) == spec_kernel(m2.node@[t], env, s) by {
                lemma_keepdims_default(m1.node@[t], m2.node@[t], a, env);
            }
        }
    }
    match spec_seed_inputs(m1.input@, ins, spec_seed_inits(m1.initializer@, Seq::empty())) {
        Err(_) => {},
        Ok(env2) => {
            lemma_nodes_agree_congruent(m1.node@, m2.node@, env2);
        },
    }
}

} // verus!
