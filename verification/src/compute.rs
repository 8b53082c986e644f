//! The executor's data: the execution plan of one run — device
//! actions, compiled kernels in node order, the name-to-buffer table
//! and the requested outputs — together with the run state machine
//! that sequences submission, asynchronous mapping and readback, and
//! the collection of mapped bytes into host-owned values.
use vstd::prelude::*;
use crate::compiler::CompiledKernel;
use crate::onnx::{spec_elem_count, TensorData};
use crate::resource::BufferAction;
use crate::SessionError;

verus! {

/// One requested output of a run: its tensor name, the buffer to map,
/// and the resolved dimensions of the value it holds.
pub struct OutputRef {
    pub name: String,
    pub buffer: u64,
    pub dims: Vec<u64>,
}

/// The execution plan of one run.  The embedding program performs the
/// buffer actions in order, records one dispatch per kernel in order,
/// submits the whole sequence once, then maps each output buffer.
pub struct RunPlan {
    pub actions: Vec<BufferAction>,
    pub kernels: Vec<CompiledKernel>,
    pub buffers: Vec<(String, u64)>,
    pub outputs: Vec<OutputRef>,
}

/// The state of one run, from recording to readback.
#[derive(PartialEq, Eq, Structural, Clone, Copy, Debug)]
pub enum RunState {
    Compiling,
    Submitted,
    Mapping,
    Ready,
    Failed,
}

/// One observed event while driving a run against the device.
#[derive(PartialEq, Eq, Structural, Clone, Copy, Debug)]
pub enum RunEvent {
    /// The recorded command sequence was submitted to the queue.
    Submit,
    /// The asynchronous map of every output buffer was requested.
    MapRequest,
    /// The device signalled that the mapping is ready.
    MapSuccess,
    /// The device reported that the mapping failed.
    MapFailure,
    /// The bounded wait on the device ran out.
    DeviceLost,
}

/// The transition rule of the run state machine: the one success path
/// is Compiling, Submitted, Mapping, Ready; every failure event, and
/// every out-of-order event, is terminal failure.
pub open spec fn spec_advance(s: RunState, e: RunEvent) -> RunState {
    match (s, e) {
        (RunState::Compiling, RunEvent::Submit) => RunState::Submitted,
        (RunState::Submitted, RunEvent::MapRequest) => RunState::Mapping,
        (RunState::Mapping, RunEvent::MapSuccess) => RunState::Ready,
        (RunState::Ready, _) => RunState::Ready,
        _ => RunState::Failed,
    }
}

/// Advances the run state machine by one observed event.
pub fn advance(s: RunState, e: RunEvent) -> (r: RunState)
    ensures
        r == spec_advance(s, e),
{
    match (s, e) {
        (RunState::Compiling, RunEvent::Submit) => RunState::Submitted,
        (RunState::Submitted, RunEvent::MapRequest) => RunState::Mapping,
        (RunState::Mapping, RunEvent::MapSuccess) => RunState::Ready,
        (RunState::Ready, _) => RunState::Ready,
        _ => RunState::Failed,
    }
}

/// The state a sequence of events drives the machine to, from a given
/// start state.
pub open spec fn spec_run_trace(s: RunState, events: Seq<RunEvent>) -> RunState
    decreases events.len(),
{
    if events.len() == 0 {
        s
    } else {
        spec_run_trace(spec_advance(s, events[0]), events.drop_first())
    }
}

/// Failure is terminal: no later event leaves the failed state.
pub proof fn lemma_failed_absorbing(events: Seq<RunEvent>)
    ensures
        spec_run_trace(RunState::Failed, events) == RunState::Failed,
    decreases events.len(),
{
    if events.len() > 0 {
        lemma_failed_absorbing(events.drop_first());
    }
}

/// A run reaches readiness only through the full protocol: from the
/// compiling state, any trace that ends ready begins with submission,
/// map request and map success, in that order.
pub proof fn lemma_ready_needs_protocol(events: Seq<RunEvent>)
    requires
        spec_run_trace(RunState::Compiling, events) == RunState::Ready,
    ensures
        events.len() >= 3,
        events[0] == RunEvent::Submit,
        events[1] == RunEvent::MapRequest,
        events[2] == RunEvent::MapSuccess,
{
    assert(events.len() > 0) by {
        if events.len() == 0 {
            assert(spec_run_trace(RunState::Compiling, events) == RunState::Compiling);
        }
    }
    let e1 = events.drop_first();
    assert(spec_run_trace(RunState::Compiling, events) == spec_run_trace(
        spec_advance(RunState::Compiling, events[0]),
        e1,
    ));
    if events[0] != RunEvent::Submit {
        lemma_failed_absorbing(e1);
        assert(false);
    }
    assert(e1.len() > 0) by {
        if e1.len() == 0 {
            assert(spec_run_trace(RunState::Submitted, e1) == RunState::Submitted);
        }
    }
    let e2 = e1.drop_first();
    assert(spec_run_trace(RunState::Submitted, e1) == spec_run_trace(
        spec_advance(RunState::Submitted, e1[0]),
        e2,
    ));
    if e1[0] != RunEvent::MapRequest {
        lemma_failed_absorbing(e2);
        assert(false);
    }
    assert(e2.len() > 0) by {
        if e2.len() == 0 {
            assert(spec_run_trace(RunState::Mapping, e2) == RunState::Mapping);
        }
    }
    if e2[0] != RunEvent::MapSuccess {
        assert(spec_run_trace(RunState::Mapping, e2) == spec_run_trace(
            spec_advance(RunState::Mapping, e2[0]),
            e2.drop_first(),
        ));
        lemma_failed_absorbing(e2.drop_first());
        assert(false);
    }
    assert(events[1] == e1[0]);
    assert(events[2] == e2[0]);
}

/// The bounded-wait rule: whether one more poll of the device is
/// allowed, or the wait has run out and the run is to fail with a
/// lost device rather than hang.
pub fn poll_again(polls_done: u64, poll_limit: u64) -> (r: bool)
    ensures
        r == (polls_done < poll_limit),
{
    polls_done < poll_limit
}

/// The data mapped back for one output, found by name.
pub open spec fn spec_find_mapped(mapped: Seq<TensorData>, name: Seq<char>) -> Option<Seq<u32>>
    decreases mapped.len(),
{
    if mapped.len() == 0 {
        None
    } else if mapped[0].name@ == name {
        Some(mapped[0].data@)
    } else {
        spec_find_mapped(mapped.drop_first(), name)
    }
}

/// Whether the mapped data satisfies one requested output: present
/// under its name and exactly one word per element.
pub open spec fn spec_mapped_ok(mapped: Seq<TensorData>, out: OutputRef) -> bool {
    match spec_find_mapped(mapped, out.name@) {
        Some(d) => d.len() == spec_elem_count(out.dims@),
        None => false,
    }
}

/// Finds the mapped data for one output name.
fn find_mapped<'a>(mapped: &'a Vec<TensorData>, name: &str) -> (r: Option<&'a Vec<u32>>)
    ensures
        match r {
            Some(d) => spec_find_mapped(mapped@, name@) == Some(d@),
            None => spec_find_mapped(mapped@, name@) is None,
        },
{
    let mut i: usize = 0;
    proof {
        assert(mapped@.skip(0) =~= mapped@);
    }
    while i < mapped.len()
        invariant
            0 <= i <= mapped@.len(),
            spec_find_mapped(mapped@, name@) == spec_find_mapped(mapped@.skip(i as int), name@),
        decreases mapped@.len() - i,
    {
        proof {
            assert(mapped@.skip(i as int).drop_first() =~= mapped@.skip(i as int + 1));
        }
        if crate::onnx::str_is(&mapped[i].name, name) {
            return Some(&mapped[i].data);
        }
        i = i + 1;
    }
    proof {
        assert(mapped@.skip(i as int) =~= Seq::<TensorData>::empty());
    }
    None
}

/// Copies the mapped bytes of every requested output into host-owned
/// values, in the plan's output order.  Fails with a mapping failure
/// naming the first output whose mapped data is absent or of the
/// wrong length; a partial readback aborts the whole run.
pub fn collect_outputs(plan: &RunPlan, mapped: &Vec<TensorData>) -> (r: Result<
    Vec<TensorData>,
    SessionError,
>)
    requires
        forall|q: int|
            0 <= q < plan.outputs@.len() ==> crate::onnx::spec_valid_dims(
                (#[trigger] plan.outputs@[q]).dims@,
            ),
    ensures
        match r {
            Ok(v) => {
                &&& forall|q: int|
                    0 <= q < plan.outputs@.len() ==> spec_mapped_ok(
                        mapped@,
                        #[trigger] plan.outputs@[q],
                    )
                &&& v@.len() == plan.outputs@.len()
                &&& forall|q: int|
                    0 <= q < v@.len() ==> {
                        &&& (#[trigger] v@[q]).name@ == plan.outputs@[q].name@
                        &&& v@[q].dims@ == plan.outputs@[q].dims@
                        &&& spec_find_mapped(mapped@, plan.outputs@[q].name@) == Some(v@[q].data@)
                    }
            },
            Err(e) => {
                &&& e matches SessionError::MappingFailed(nm)
                &&& exists|q: int|
                    0 <= q < plan.outputs@.len() && !spec_mapped_ok(
                        mapped@,
                        #[trigger] plan.outputs@[q],
                    ) && nm@ == plan.outputs@[q].name@
            },
        },
{
    let mut out: Vec<TensorData> = Vec::new();
    let mut q: usize = 0;
    while q < plan.outputs.len()
        invariant
            0 <= q <= plan.outputs@.len(),
            forall|j: int|
                0 <= j < plan.outputs@.len() ==> crate::onnx::spec_valid_dims(
                    (#[trigger] plan.outputs@[j]).dims@,
                ),
            out@.len() == q,
            forall|j: int|
                0 <= j < q ==> spec_mapped_ok(mapped@, #[trigger] plan.outputs@[j]),
            forall|j: int|
                0 <= j < q ==> {
                    &&& (#[trigger] out@[j]).name@ == plan.outputs@[j].name@
                    &&& out@[j].dims@ == plan.outputs@[j].dims@
                    &&& spec_find_mapped(mapped@, plan.outputs@[j].name@) == Some(out@[j].data@)
                },
        decreases plan.outputs@.len() - q,
    {
        let o = &plan.outputs[q];
        let d = match find_mapped(mapped, o.name.as_str()) {
            Some(d) => d,
            None => {
                return Err(SessionError::MappingFailed(o.name.clone()));
            },
        };
        proof {
            assert(crate::onnx::spec_valid_dims(plan.outputs@[q as int].dims@));
        }
        let c = match crate::onnx::elem_count(&o.dims) {
            Some(c) => c,
            None => vstd::pervasive::unreached(),
        };
        if d.len() as u64 != c {
            return Err(SessionError::MappingFailed(o.name.clone()));
        }
        out.push(TensorData { name: o.name.clone(), dims: o.dims.clone(), data: d.clone() });
        q = q + 1;
    }
    Ok(out)
}

} // verus!
