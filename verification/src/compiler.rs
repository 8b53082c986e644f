//! The operator compiler: translates one graph node, with the
//! resolved shapes of its inputs and output, into a compiled compute
//! kernel — generated shader text, a binding layout, and a dispatch
//! size — following a deterministic per-operator generation rule.
use vstd::prelude::*;
use vstd::string::StringExecFns;
use crate::onnx::{
    lemma_count_ge_one, lemma_count_split, spec_elem_count, spec_valid_dims, MAX_TENSOR_ELEMENTS,
};
use crate::utils::{push_u64, spec_digits};
use crate::dimensions::{
    env_get, env_view, env_wf, lemma_env_get_wf, spec_env_get, spec_infer_node, spec_is_binop,
    InferErrorKind, ShapeEntry,
};
use crate::onnx::{elem_count, spec_find_attr, str_is, AttributeValue, Node};
use vstd::pervasive::unreached;

verus! {

/// Threads per compute workgroup along x.
pub const WORKGROUP_SIZE: u64 = 256;

/// Largest workgroup count the device accepts per dispatch dimension.
pub const MAX_GROUPS_PER_DIM: u64 = 65535;

/// Workgroups needed to give every element one invocation.
pub open spec fn spec_groups(count: int) -> int {
    (count + 255) / 256
}

/// The dispatch tiling rule: one invocation per output element,
/// tiled first along x up to the per-dimension limit, then along y.
pub open spec fn spec_dispatch(count: int) -> (u32, u32, u32) {
    let g = spec_groups(count);
    let x = if g <= 65535 {
        g
    } else {
        65535
    };
    let y = (g + x - 1) / x;
    (x as u32, y as u32, 1u32)
}

/// The tiling covers every element, respects the per-dimension
/// limit, and keeps the largest flat invocation index the shader can
/// compute (`gid.x + gid.y * 65535 * 256`, below `y * 65535 * 256`)
/// inside the `u32` range, so the guard comparison never wraps.
pub proof fn lemma_dispatch_covers(count: int)
    requires
        1 <= count <= MAX_TENSOR_ELEMENTS,
    ensures
        ({
            let (x, y, z) = spec_dispatch(count);
            &&& 1 <= x <= MAX_GROUPS_PER_DIM
            &&& 1 <= y <= MAX_GROUPS_PER_DIM
            &&& z == 1
            &&& x * y * WORKGROUP_SIZE >= count
            &&& y * 16776960 <= 4294967295
        }),
{
    let g = spec_groups(count);
    assert(1 <= g <= 8388608);
    let x = if g <= 65535 {
        g
    } else {
        65535
    };
    let y = (g + x - 1) / x;
    assert(y >= 1) by (nonlinear_arith)
        requires
            1 <= x,
            1 <= g,
            y == (g + x - 1) / x,
    ;
    assert(y * x >= g) by (nonlinear_arith)
        requires
            1 <= x,
            1 <= g,
            y == (g + x - 1) / x,
    ;
    assert(y <= 129) by (nonlinear_arith)
        requires
            1 <= x,
            g <= 8388608,
            x == (if g <= 65535 {
                g
            } else {
                65535
            }),
            y == (g + x - 1) / x,
    ;
    assert(g * 256 >= count);
    assert(x * y * 256 >= count) by (nonlinear_arith)
        requires
            y * x >= g,
            g * 256 >= count,
            x >= 1,
            y >= 1,
    ;
}

/// Computes the dispatch size for a given element count.
pub fn dispatch_groups(count: u64) -> (r: (u32, u32, u32))
    requires
        1 <= count <= MAX_TENSOR_ELEMENTS,
    ensures
        r == spec_dispatch(count as int),
{
    proof {
        lemma_dispatch_covers(count as int);
    }
    let g: u64 = (count + 255) / 256;
    let x: u64 = if g <= 65535 {
        g
    } else {
        65535
    };
    let y: u64 = (g + x - 1) / x;
    (x as u32, y as u32, 1u32)
}

/// The suffix-product stride of each dimension: elements covered by
/// one step along that dimension, in row-major element order.
pub open spec fn spec_strides(dims: Seq<u64>) -> Seq<u64> {
    Seq::new(dims.len(), |d: int| spec_elem_count(dims.skip(d + 1)) as u64)
}

/// Computes the row-major strides of a shape.
pub fn strides_of(dims: &Vec<u64>) -> (r: Vec<u64>)
    requires
        spec_valid_dims(dims@),
    ensures
        r@ == spec_strides(dims@),
        forall|d: int| 0 <= d < r@.len() ==> 1 <= #[trigger] r@[d] <= MAX_TENSOR_ELEMENTS,
{
    let mut r: Vec<u64> = Vec::new();
    let n = dims.len();
    let mut d: usize = 0;
    let mut acc: u64 = 1;
    // Walk from the right so that each stride is the product of the
    // dimensions after it.
    let mut rev: Vec<u64> = Vec::new();
    while d < n
        invariant
            0 <= d <= n,
            n == dims@.len(),
            spec_valid_dims(dims@),
            rev@.len() == d,
            acc == spec_elem_count(dims@.skip(n - d as int)),
            1 <= acc <= MAX_TENSOR_ELEMENTS,
            forall|j: int|
                0 <= j < d ==> #[trigger] rev@[j] == spec_elem_count(
                    dims@.skip(n - j as int),
                ) as u64,
            forall|j: int| 0 <= j < d ==> 1 <= #[trigger] rev@[j] <= MAX_TENSOR_ELEMENTS,
        decreases n - d,
    {
        rev.push(acc);
        let dim = dims[n - 1 - d];
        proof {
            let k = n - d - 1;
            assert(dims@.skip(k).drop_first() =~= dims@.skip(k + 1));
            assert(spec_elem_count(dims@.skip(k)) == dims@[k] * spec_elem_count(
                dims@.skip(k + 1),
            ));
            lemma_count_split(dims@, k);
            assert(forall|m: int|
                0 <= m < dims@.take(k).len() ==> 1 <= #[trigger] dims@.take(k)[m]);
            lemma_count_ge_one(dims@.take(k));
            assert(spec_elem_count(dims@.skip(k)) <= spec_elem_count(dims@)) by (nonlinear_arith)
                requires
                    spec_elem_count(dims@) == spec_elem_count(dims@.take(k)) * spec_elem_count(
                        dims@.skip(k),
                    ),
                    spec_elem_count(dims@.take(k)) >= 1,
                    spec_elem_count(dims@.skip(k)) >= 0,
            ;
            assert(spec_elem_count(dims@.skip(k)) >= 1) by {
                assert(forall|m: int|
                    0 <= m < dims@.skip(k).len() ==> 1 <= #[trigger] dims@.skip(k)[m]);
                lemma_count_ge_one(dims@.skip(k));
            }
            assert(acc * dims@[k] == spec_elem_count(dims@.skip(k))) by (nonlinear_arith)
                requires
                    acc == spec_elem_count(dims@.skip(k + 1)),
                    spec_elem_count(dims@.skip(k)) == dims@[k] * spec_elem_count(
                        dims@.skip(k + 1),
                    ),
            ;
        }
        acc = acc * dim;
        d = d + 1;
    }
    let mut j: usize = 0;
    while j < n
        invariant
            0 <= j <= n,
            n == dims@.len(),
            rev@.len() == n,
            r@.len() == j,
            forall|m: int|
                0 <= m < n ==> #[trigger] rev@[m] == spec_elem_count(dims@.skip(n - m)) as u64,
            forall|m: int| 0 <= m < n ==> 1 <= #[trigger] rev@[m] <= MAX_TENSOR_ELEMENTS,
            forall|m: int|
                0 <= m < j ==> #[trigger] r@[m] == spec_elem_count(dims@.skip(m + 1)) as u64,
            forall|m: int| 0 <= m < j ==> 1 <= #[trigger] r@[m] <= MAX_TENSOR_ELEMENTS,
        decreases n - j,
    {
        r.push(rev[n - 1 - j]);
        j = j + 1;
    }
    proof {
        assert(r@ =~= spec_strides(dims@));
    }
    r
}

/// The stride with which an input participates at position `k` of a
/// broadcast of rank `r`: 0 where the input is broadcast along that
/// position, its own row-major stride otherwise.
pub open spec fn spec_bstride(s: Seq<u64>, r: int, k: int) -> u64 {
    if k < r - s.len() {
        0
    } else if s[k - (r - s.len())] == 1 {
        0
    } else {
        spec_strides(s)[k - (r - s.len())]
    }
}

/// The per-position broadcast strides of one input, aligned at the
/// trailing dimensions of a result of rank `r`.
pub open spec fn spec_bstrides(s: Seq<u64>, r: int) -> Seq<u64> {
    Seq::new(r as nat, |k: int| spec_bstride(s, r, k))
}

/// Computes the broadcast strides of one input for a result of the
/// given rank.
pub fn bstrides_of(s: &Vec<u64>, rank: usize) -> (r: Vec<u64>)
    requires
        spec_valid_dims(s@),
        s@.len() <= rank,
    ensures
        r@ == spec_bstrides(s@, rank as int),
{
    let st = strides_of(s);
    let mut v: Vec<u64> = Vec::new();
    let mut k: usize = 0;
    while k < rank
        invariant
            0 <= k <= rank,
            s@.len() <= rank,
            st@ == spec_strides(s@),
            v@.len() == k,
            forall|j: int| 0 <= j < k ==> #[trigger] v@[j] == spec_bstride(s@, rank as int, j),
        decreases rank - k,
    {
        if k < rank - s.len() {
            v.push(0);
        } else {
            let idx = k - (rank - s.len());
            if s[idx] == 1 {
                v.push(0);
            } else {
                v.push(st[idx]);
            }
        }
        k = k + 1;
    }
    proof {
        assert(v@ =~= spec_bstrides(s@, rank as int));
    }
    v
}

/// The strides a reduction reads its input with, one per output
/// position: the kept positions carry the input stride, the reduced
/// axis contributes nothing.
pub open spec fn spec_reduce_map(in_dims: Seq<u64>, ax: int, keep: bool) -> Seq<u64> {
    if keep {
        Seq::new(
            in_dims.len(),
            |k: int|
                if k == ax {
                    0u64
                } else {
                    spec_strides(in_dims)[k]
                },
        )
    } else {
        Seq::new(
            (in_dims.len() - 1) as nat,
            |k: int|
                if k < ax {
                    spec_strides(in_dims)[k]
                } else {
                    spec_strides(in_dims)[k + 1]
                },
        )
    }
}

/// Computes the reduction read strides.
pub fn reduce_map_of(in_dims: &Vec<u64>, ax: usize, keep: bool) -> (r: Vec<u64>)
    requires
        spec_valid_dims(in_dims@),
        ax < in_dims@.len(),
    ensures
        r@ == spec_reduce_map(in_dims@, ax as int, keep),
{
    let st = strides_of(in_dims);
    let mut v: Vec<u64> = Vec::new();
    let n = in_dims.len();
    let bound = if keep {
        n
    } else {
        n - 1
    };
    let mut k: usize = 0;
    while k < bound
        invariant
            0 <= k <= bound,
            n == in_dims@.len(),
            ax < n,
            st@ == spec_strides(in_dims@),
            bound == if keep {
                n as int
            } else {
                n - 1
            },
            v@.len() == k,
            forall|j: int|
                0 <= j < k ==> #[trigger] v@[j] == spec_reduce_map(in_dims@, ax as int, keep)[j],
        decreases bound - k,
    {
        if keep {
            if k == ax {
                v.push(0);
            } else {
                v.push(st[k]);
            }
        } else {
            if k < ax {
                v.push(st[k]);
            } else {
                v.push(st[k + 1]);
            }
        }
        k = k + 1;
    }
    proof {
        assert(v@ =~= spec_reduce_map(in_dims@, ax as int, keep));
    }
    v
}

/// One buffer declaration line of the generated shader.
pub open spec fn spec_decl_line(idx: u64, rw: bool) -> Seq<char> {
    "@group(0) @binding("@ + spec_digits(idx) + ") var<storage, "@ + (if rw {
        "read_write"@
    } else {
        "read"@
    }) + "> v"@ + spec_digits(idx) + ": array<f32>;\n"@
}

/// The first `k` buffer declaration lines: bindings below `n_ro` are
/// read-only, the rest read-write.
pub open spec fn spec_decls_to(n_ro: int, k: int) -> Seq<char>
    decreases k,
{
    if k <= 0 {
        Seq::empty()
    } else {
        spec_decls_to(n_ro, k - 1) + spec_decl_line((k - 1) as u64, k - 1 >= n_ro)
    }
}

/// The fixed opening of every generated shader: entry point, flat
/// invocation index, and the guard against out-of-range invocations.
pub open spec fn spec_main_open(count: u64) -> Seq<char> {
    "@compute @workgroup_size(256)\nfn main(@builtin(global_invocation_id) gid: vec3<u32>) {\n  let i: u32 = gid.x + gid.y * 16776960u;\n  if (i >= "@
        + spec_digits(count) + "u) { return; }\n"@
}

/// One index-accumulation line: adds one dimension's contribution to
/// a flat input offset.
pub open spec fn spec_idx_line(var: Seq<char>, os: u64, od: u64, st: u64) -> Seq<char> {
    "  "@ + var + " = "@ + var + " + ((i / "@ + spec_digits(os) + "u) % "@ + spec_digits(od)
        + "u) * "@ + spec_digits(st) + "u;\n"@
}

/// The first `k` index lines for two inputs read with broadcast
/// strides `sa` and `sb`.
pub open spec fn spec_gather2_to(
    os: Seq<u64>,
    od: Seq<u64>,
    sa: Seq<u64>,
    sb: Seq<u64>,
    k: int,
) -> Seq<char>
    decreases k,
{
    if k <= 0 {
        Seq::empty()
    } else {
        spec_gather2_to(os, od, sa, sb, k - 1) + spec_idx_line("ia"@, os[k - 1], od[k - 1], sa[k - 1])
            + spec_idx_line("ib"@, os[k - 1], od[k - 1], sb[k - 1])
    }
}

/// The first `k` index lines for one input read with strides `st`.
pub open spec fn spec_gather1_to(
    var: Seq<char>,
    os: Seq<u64>,
    od: Seq<u64>,
    st: Seq<u64>,
    k: int,
) -> Seq<char>
    decreases k,
{
    if k <= 0 {
        Seq::empty()
    } else {
        spec_gather1_to(var, os, od, st, k - 1) + spec_idx_line(var, os[k - 1], od[k - 1], st[k - 1])
    }
}

/// The shader operator token of an elementwise binary operator tag.
pub open spec fn spec_opchar(op: Seq<char>) -> Seq<char> {
    if op == "Add"@ {
        "+"@
    } else if op == "Sub"@ {
        "-"@
    } else if op == "Mul"@ {
        "*"@
    } else {
        "/"@
    }
}

/// The generated shader of an elementwise binary operator.
pub open spec fn spec_shader_binary(opc: Seq<char>, a: Seq<u64>, b: Seq<u64>, out: Seq<u64>) -> Seq<
    char,
> {
    spec_decls_to(2, 3) + spec_main_open(spec_elem_count(out) as u64)
        + "  var ia: u32 = 0u;\n  var ib: u32 = 0u;\n"@ + spec_gather2_to(
        spec_strides(out),
        out,
        spec_bstrides(a, out.len() as int),
        spec_bstrides(b, out.len() as int),
        out.len() as int,
    ) + "  v2[i] = v0[ia] "@ + opc + " v1[ib];\n}\n"@
}

/// The generated shader of the rectified-linear operator.
pub open spec fn spec_shader_relu(count: u64) -> Seq<char> {
    spec_decls_to(1, 2) + spec_main_open(count) + "  v1[i] = max(v0[i], 0.0);\n}\n"@
}

/// The generated shader of a same-order element copy (reshape).
pub open spec fn spec_shader_copy(count: u64) -> Seq<char> {
    spec_decls_to(1, 2) + spec_main_open(count) + "  v1[i] = v0[i];\n}\n"@
}

/// The generated shader of a sum reduction along one axis: one
/// invocation per output element, looping over the reduced axis in
/// order.
pub open spec fn spec_shader_reduce(in_dims: Seq<u64>, ax: int, keep: bool, out: Seq<u64>) -> Seq<
    char,
> {
    spec_decls_to(1, 2) + spec_main_open(spec_elem_count(out) as u64) + "  var base: u32 = 0u;\n"@
        + spec_gather1_to(
        "base"@,
        spec_strides(out),
        out,
        spec_reduce_map(in_dims, ax, keep),
        out.len() as int,
    ) + "  var acc: f32 = 0.0;\n  for (var k: u32 = 0u; k < "@ + spec_digits(in_dims[ax])
        + "u; k = k + 1u) {\n    acc = acc + v0[base + k * "@ + spec_digits(
        spec_strides(in_dims)[ax],
    ) + "u];\n  }\n  v1[i] = acc;\n}\n"@
}

/// One binding of a compiled kernel: the tensor name it reads or
/// writes, and whether it writes.
pub struct Binding {
    pub name: String,
    pub read_write: bool,
}

/// A compiled kernel: generated shader text, the binding layout in
/// node order (inputs read-only first, then outputs read-write), and
/// the dispatch size.
pub struct CompiledKernel {
    pub shader: String,
    pub bindings: Vec<Binding>,
    pub dispatch: (u32, u32, u32),
}

/// The binding layout of a node: its inputs read-only, in order,
/// then its outputs read-write.
pub open spec fn spec_bindings_of(n: Node) -> Seq<(Seq<char>, bool)> {
    n.input@.map_values(|x: String| (x@, false)) + n.output@.map_values(|x: String| (x@, true))
}

/// The whole content of a compiled kernel, abstractly.
pub open spec fn kernel_view(k: CompiledKernel) -> (Seq<char>, Seq<(Seq<char>, bool)>, (
    u32,
    u32,
    u32,
)) {
    (k.shader@, k.bindings@.map_values(|b: Binding| (b.name@, b.read_write)), k.dispatch)
}

/// The shader text generated for a node whose inference succeeded
/// with output shape `s`.
pub open spec fn spec_shader_of(n: Node, env: Seq<(Seq<char>, Seq<u64>)>, s: Seq<u64>) -> Seq<
    char,
> {
    let op = n.op_type@;
    if spec_is_binop(op) {
        let a = match spec_env_get(env, n.input@[0]@) {
            Some(a) => a,
            None => Seq::empty(),
        };
        let b = match spec_env_get(env, n.input@[1]@) {
            Some(b) => b,
            None => Seq::empty(),
        };
        spec_shader_binary(spec_opchar(op), a, b, s)
    } else if op == "Relu"@ {
        spec_shader_relu(spec_elem_count(s) as u64)
    } else if op == "ReduceSum"@ {
        let a = match spec_env_get(env, n.input@[0]@) {
            Some(a) => a,
            None => Seq::empty(),
        };
        let ax0 = match spec_find_attr(n.attribute@, "axis"@) {
            Some(AttributeValue::Int(v)) => v,
            _ => 0,
        };
        let axn = if ax0 >= 0 {
            ax0 as int
        } else {
            ax0 + a.len()
        };
        let keep = match spec_find_attr(n.attribute@, "keepdims"@) {
            Some(AttributeValue::Int(k)) => k != 0,
            _ => true,
        };
        spec_shader_reduce(a, axn, keep, s)
    } else {
        spec_shader_copy(spec_elem_count(s) as u64)
    }
}

/// The whole compiled kernel of a node, abstractly: shader text,
/// binding layout, dispatch size.
pub open spec fn spec_kernel(n: Node, env: Seq<(Seq<char>, Seq<u64>)>, s: Seq<u64>) -> (
    Seq<char>,
    Seq<(Seq<char>, bool)>,
    (u32, u32, u32),
) {
    (spec_shader_of(n, env, s), spec_bindings_of(n), spec_dispatch(spec_elem_count(s)))
}

/// Appends one buffer declaration line.
fn push_decl_line(s: &mut String, idx: u64, rw: bool)
    ensures
        final(s)@ == old(s)@ + spec_decl_line(idx, rw),
{
    s.append("@group(0) @binding(");
    push_u64(s, idx);
    s.append(") var<storage, ");
    if rw {
        s.append("read_write");
    } else {
        s.append("read");
    }
    s.append("> v");
    push_u64(s, idx);
    s.append(": array<f32>;\n");
    proof {
        assert(s@ =~= old(s)@ + spec_decl_line(idx, rw));
    }
}

/// Appends the buffer declaration lines of `total` bindings, the
/// first `n_ro` of them read-only.
fn push_decls(s: &mut String, n_ro: usize, total: usize)
    requires
        total <= 8,
    ensures
        final(s)@ == old(s)@ + spec_decls_to(n_ro as int, total as int),
{
    let mut k: usize = 0;
    while k < total
        invariant
            0 <= k <= total,
            total <= 8,
            s@ == old(s)@ + spec_decls_to(n_ro as int, k as int),
        decreases total - k,
    {
        push_decl_line(s, k as u64, k >= n_ro);
        k = k + 1;
    }
}

/// Appends the fixed shader opening for the given element count.
fn push_main_open(s: &mut String, count: u64)
    ensures
        final(s)@ == old(s)@ + spec_main_open(count),
{
    s.append(
        "@compute @workgroup_size(256)\nfn main(@builtin(global_invocation_id) gid: vec3<u32>) {\n  let i: u32 = gid.x + gid.y * 16776960u;\n  if (i >= ",
    );
    push_u64(s, count);
    s.append("u) { return; }\n");
    proof {
        assert(s@ =~= old(s)@ + spec_main_open(count));
    }
}

/// Appends one index-accumulation line.
fn push_idx_line(s: &mut String, var: &str, os: u64, od: u64, st: u64)
    ensures
        final(s)@ == old(s)@ + spec_idx_line(var@, os, od, st),
{
    s.append("  ");
    s.append(var);
    s.append(" = ");
    s.append(var);
    s.append(" + ((i / ");
    push_u64(s, os);
    s.append("u) % ");
    push_u64(s, od);
    s.append("u) * ");
    push_u64(s, st);
    s.append("u;\n");
    proof {
        assert(s@ =~= old(s)@ + spec_idx_line(var@, os, od, st));
    }
}

/// Appends the index lines of a two-input gather.
fn push_gather2(s: &mut String, os: &Vec<u64>, od: &Vec<u64>, sa: &Vec<u64>, sb: &Vec<u64>)
    requires
        os@.len() == od@.len(),
        os@.len() == sa@.len(),
        os@.len() == sb@.len(),
    ensures
        final(s)@ == old(s)@ + spec_gather2_to(os@, od@, sa@, sb@, os@.len() as int),
{
    let mut k: usize = 0;
    while k < os.len()
        invariant
            0 <= k <= os@.len(),
            os@.len() == od@.len(),
            os@.len() == sa@.len(),
            os@.len() == sb@.len(),
            s@ == old(s)@ + spec_gather2_to(os@, od@, sa@, sb@, k as int),
        decreases os@.len() - k,
    {
        push_idx_line(s, "ia", os[k], od[k], sa[k]);
        push_idx_line(s, "ib", os[k], od[k], sb[k]);
        proof {
            assert(s@ =~= old(s)@ + spec_gather2_to(os@, od@, sa@, sb@, k as int + 1));
        }
        k = k + 1;
    }
}

/// Appends the index lines of a one-target gather.
fn push_gather1(s: &mut String, var: &str, os: &Vec<u64>, od: &Vec<u64>, st: &Vec<u64>)
    requires
        os@.len() == od@.len(),
        os@.len() == st@.len(),
    ensures
        final(s)@ == old(s)@ + spec_gather1_to(var@, os@, od@, st@, os@.len() as int),
{
    let mut k: usize = 0;
    while k < os.len()
        invariant
            0 <= k <= os@.len(),
            os@.len() == od@.len(),
            os@.len() == st@.len(),
            s@ == old(s)@ + spec_gather1_to(var@, os@, od@, st@, k as int),
        decreases os@.len() - k,
    {
        push_idx_line(s, var, os[k], od[k], st[k]);
        proof {
            assert(s@ =~= old(s)@ + spec_gather1_to(var@, os@, od@, st@, k as int + 1));
        }
        k = k + 1;
    }
}

/// Compiles one node whose shape inference succeeded with output
/// shape `out_dims` into its kernel: shader, bindings and dispatch
/// exactly as the generation rule states.
pub fn build_kernel(n: &Node, env: &Vec<ShapeEntry>, out_dims: &Vec<u64>) -> (r: CompiledKernel)
    requires
        env_wf(env_view(env@)),
        spec_valid_dims(out_dims@),
        spec_infer_node(*n, env_view(env@)) == Ok::<Seq<u64>, (InferErrorKind, Seq<char>)>(out_dims@),
    ensures
        kernel_view(r) == spec_kernel(*n, env_view(env@), out_dims@),
{
    let ghost genv = env_view(env@);
    let count = match elem_count(out_dims) {
        Some(c) => c,
        None => unreached(),
    };
    proof {
        lemma_count_ge_one(out_dims@);
    }
    let dispatch = dispatch_groups(count);
    let mut bindings: Vec<Binding> = Vec::new();
    let mut i: usize = 0;
    while i < n.input.len()
        invariant
            0 <= i <= n.input@.len(),
            bindings@.len() == i,
            forall|j: int|
                0 <= j < i ==> (#[trigger] bindings@[j]).name@ == n.input@[j]@
                    && !bindings@[j].read_write,
        decreases n.input@.len() - i,
    {
        bindings.push(Binding { name: n.input[i].clone(), read_write: false });
        i = i + 1;
    }
    let mut o: usize = 0;
    while o < n.output.len()
        invariant
            0 <= o <= n.output@.len(),
            bindings@.len() == n.input@.len() + o,
            forall|j: int|
                0 <= j < n.input@.len() ==> (#[trigger] bindings@[j]).name@ == n.input@[j]@
                    && !bindings@[j].read_write,
            forall|j: int|
                n.input@.len() <= j < n.input@.len() + o ==> (#[trigger] bindings@[j]).name@
                    == n.output@[j - n.input@.len()]@ && bindings@[j].read_write,
        decreases n.output@.len() - o,
    {
        bindings.push(Binding { name: n.output[o].clone(), read_write: true });
        o = o + 1;
    }
    proof {
        let mapped = bindings@.map_values(|b: Binding| (b.name@, b.read_write));
        assert forall|j: int| 0 <= j < mapped.len() implies mapped[j] == spec_bindings_of(*n)[j] by {
            assert(mapped[j] == (bindings@[j].name@, bindings@[j].read_write));
            if j < n.input@.len() {
                assert(spec_bindings_of(*n)[j] == (n.input@[j]@, false));
            } else {
                assert(spec_bindings_of(*n)[j] == (n.output@[j - n.input@.len()]@, true));
            }
        }
        assert(mapped =~= spec_bindings_of(*n));
    }
    let is_bin = str_is(&n.op_type, "Add") || str_is(&n.op_type, "Sub") || str_is(
        &n.op_type,
        "Mul",
    ) || str_is(&n.op_type, "Div");
    let mut sh = String::new();
    if is_bin {
        let a = match env_get(env, n.input[0].as_str()) {
            Some(a) => a,
            None => unreached(),
        };
        let b = match env_get(env, n.input[1].as_str()) {
            Some(b) => b,
            None => unreached(),
        };
        proof {
            lemma_env_get_wf(genv, n.input@[0]@);
            lemma_env_get_wf(genv, n.input@[1]@);
            assert(out_dims@.len() == crate::dimensions::spec_brank(a@, b@));
        }
        let rank = out_dims.len();
        let os = strides_of(out_dims);
        let sa = bstrides_of(a, rank);
        let sb = bstrides_of(b, rank);
        push_decls(&mut sh, 2, 3);
        push_main_open(&mut sh, count);
        sh.append("  var ia: u32 = 0u;\n  var ib: u32 = 0u;\n");
        push_gather2(&mut sh, &os, out_dims, &sa, &sb);
        sh.append("  v2[i] = v0[ia] ");
        let opc: &str = if str_is(&n.op_type, "Add") {
            "+"
        } else if str_is(&n.op_type, "Sub") {
            "-"
        } else if str_is(&n.op_type, "Mul") {
            "*"
        } else {
            "/"
        };
        sh.append(opc);
        sh.append(" v1[ib];\n}\n");
        proof {
            assert(sh@ =~= spec_shader_of(*n, genv, out_dims@));
        }
    } else if str_is(&n.op_type, "Relu") {
        push_decls(&mut sh, 1, 2);
        push_main_open(&mut sh, count);
        sh.append("  v1[i] = max(v0[i], 0.0);\n}\n");
        proof {
            assert(sh@ =~= spec_shader_of(*n, genv, out_dims@));
        }
    } else if str_is(&n.op_type, "ReduceSum") {
        let a = match env_get(env, n.input[0].as_str()) {
            Some(a) => a,
            None => unreached(),
        };
        proof {
            lemma_env_get_wf(genv, n.input@[0]@);
        }
        let ax_attr = match crate::get_attribute("axis", None, n) {
            Ok(v) => v,
            Err(_) => unreached(),
        };
        let ax: i64 = match ax_attr {
            AttributeValue::Int(v) => *v,
            _ => unreached(),
        };
        let rank_i: i64 = a.len() as i64;
        let axn: i64 = if ax >= 0 {
            ax
        } else {
            ax + rank_i
        };
        let axu: usize = axn as usize;
        let kd_default = AttributeValue::Int(1);
        let kd = match crate::get_attribute("keepdims", Some(&kd_default), n) {
            Ok(v) => v,
            Err(_) => unreached(),
        };
        let keep: bool = match kd {
            AttributeValue::Int(v) => *v != 0,
            _ => unreached(),
        };
        let os = strides_of(out_dims);
        let mp = reduce_map_of(a, axu, keep);
        let ist = strides_of(a);
        push_decls(&mut sh, 1, 2);
        push_main_open(&mut sh, count);
        sh.append("  var base: u32 = 0u;\n");
        push_gather1(&mut sh, "base", &os, out_dims, &mp);
        sh.append("  var acc: f32 = 0.0;\n  for (var k: u32 = 0u; k < ");
        push_u64(&mut sh, a[axu]);
        sh.append("u; k = k + 1u) {\n    acc = acc + v0[base + k * ");
        push_u64(&mut sh, ist[axu]);
        sh.append("u];\n  }\n  v1[i] = acc;\n}\n");
        proof {
            assert(sh@ =~= spec_shader_of(*n, genv, out_dims@));
        }
    } else {
        push_decls(&mut sh, 1, 2);
        push_main_open(&mut sh, count);
        sh.append("  v1[i] = v0[i];\n}\n");
        proof {
            assert(sh@ =~= spec_shader_of(*n, genv, out_dims@));
        }
    }
    let k = CompiledKernel { shader: sh, bindings, dispatch };
    proof {
        assert(kernel_view(k).1 =~= spec_bindings_of(*n));
    }
    k
}

} // verus!
