//! The buffer registry: the session-owned arena that maps each tensor
//! name to the device buffer backing it, together with the actions the
//! embedding program must perform on the device to keep buffers in
//! step with the registry.
use vstd::prelude::*;
use crate::onnx::{spec_elem_count, spec_valid_dims};
use crate::utils::dims_eq;

verus! {

/// Bytes per tensor element: one single-precision word.
pub const ELEMENT_BYTES: u64 = 4;

/// Metadata of one live device buffer backing a tensor: the buffer
/// handle the embedding program knows it by, and the dimensions of
/// the value it holds.
pub struct InnerInfo {
    pub buffer: u64,
    pub dims: Vec<u64>,
}

/// One device-side action, to be performed in order by the embedding
/// program that owns the device handles.
pub enum BufferAction {
    /// Create storage buffer `id`, `bytes` bytes, uninitialized.
    CreateUninit { id: u64, bytes: u64 },
    /// Create storage buffer `id` holding the given element words.
    CreateWithData { id: u64, data: Vec<u32> },
    /// Overwrite the contents of buffer `id` with the given words.
    WriteData { id: u64, data: Vec<u32> },
    /// Destroy buffer `id`; a reallocation superseded it.
    Release { id: u64 },
}

/// The data an action writes, if it is a write.
pub open spec fn spec_action_data(a: BufferAction) -> Option<Seq<u32>> {
    match a {
        BufferAction::WriteData { id, data } => Some(data@),
        _ => None,
    }
}

/// Whether some action in the list writes exactly this data.
pub open spec fn spec_writes_data(acts: Seq<BufferAction>, d: Seq<u32>) -> bool {
    exists|k: int| 0 <= k < acts.len() && spec_action_data(#[trigger] acts[k]) == Some(d)
}

/// Extending the action list keeps every write it already held.
pub proof fn lemma_writes_data_extend(a1: Seq<BufferAction>, a2: Seq<BufferAction>, d: Seq<u32>)
    requires
        spec_writes_data(a1, d),
        a1.len() <= a2.len(),
        forall|k: int| 0 <= k < a1.len() ==> #[trigger] a2[k] == a1[k],
    ensures
        spec_writes_data(a2, d),
{
    let k0 = choose|k: int| 0 <= k < a1.len() && spec_action_data(#[trigger] a1[k]) == Some(d);
    assert(spec_action_data(a2[k0]) == Some(d));
}

/// The buffer and constant a creation action uploads, if it is one.
pub open spec fn spec_action_create(a: BufferAction) -> Option<(u64, Seq<u32>)> {
    match a {
        BufferAction::CreateWithData { id, data } => Some((id, data@)),
        _ => None,
    }
}

/// Whether some action creates buffer `id` holding exactly `d`.
pub open spec fn spec_creates_data(acts: Seq<BufferAction>, id: u64, d: Seq<u32>) -> bool {
    exists|k: int| 0 <= k < acts.len() && spec_action_create(#[trigger] acts[k]) == Some((id, d))
}

/// Extending the action list keeps every creation it already held.
pub proof fn lemma_creates_data_extend(
    a1: Seq<BufferAction>,
    a2: Seq<BufferAction>,
    id: u64,
    d: Seq<u32>,
)
    requires
        spec_creates_data(a1, id, d),
        a1.len() <= a2.len(),
        forall|k: int| 0 <= k < a1.len() ==> #[trigger] a2[k] == a1[k],
    ensures
        spec_creates_data(a2, id, d),
{
    let k0 = choose|k: int|
        0 <= k < a1.len() && spec_action_create(#[trigger] a1[k]) == Some((id, d));
    assert(spec_action_create(a2[k0]) == Some((id, d)));
}

/// Whether some action writes exactly `d` into buffer `id`.
pub open spec fn spec_writes_to(acts: Seq<BufferAction>, id: u64, d: Seq<u32>) -> bool {
    exists|k: int|
        0 <= k < acts.len() && (match #[trigger] acts[k] {
            BufferAction::WriteData { id: i, data } => i == id && data@ == d,
            _ => false,
        })
}

/// Extending the action list keeps every addressed write it held.
pub proof fn lemma_writes_to_extend(
    a1: Seq<BufferAction>,
    a2: Seq<BufferAction>,
    id: u64,
    d: Seq<u32>,
)
    requires
        spec_writes_to(a1, id, d),
        a1.len() <= a2.len(),
        forall|k: int| 0 <= k < a1.len() ==> #[trigger] a2[k] == a1[k],
    ensures
        spec_writes_to(a2, id, d),
{
    let k0 = choose|k: int|
        0 <= k < a1.len() && (match #[trigger] a1[k] {
            BufferAction::WriteData { id: i, data } => i == id && data@ == d,
            _ => false,
        });
    assert(match a2[k0] {
        BufferAction::WriteData { id: i, data } => i == id && data@ == d,
        _ => false,
    });
}

/// One registry entry: a tensor name and its live handle.
pub struct RegistryEntry {
    pub name: String,
    pub info: InnerInfo,
}

/// The registry itself.  `next_id` is the source of fresh buffer
/// handles; a handle is never reused after release.
pub struct Registry {
    pub entries: Vec<RegistryEntry>,
    pub next_id: u64,
}

/// First entry of the given name: its buffer handle and dimensions.
pub open spec fn spec_lookup(entries: Seq<RegistryEntry>, name: Seq<char>) -> Option<
    (u64, Seq<u64>),
>
    decreases entries.len(),
{
    if entries.len() == 0 {
        None
    } else if entries[0].name@ == name {
        Some((entries[0].info.buffer, entries[0].info.dims@))
    } else {
        spec_lookup(entries.drop_first(), name)
    }
}

/// Replacing the entry at an index keeps every other name's binding,
/// provided names are distinct and the new entry keeps the name.
proof fn lemma_lookup_update(entries: Seq<RegistryEntry>, i: int, e: RegistryEntry)
    requires
        0 <= i < entries.len(),
        forall|a: int, b: int|
            0 <= a < b < entries.len() ==> (#[trigger] entries[a]).name@ != (
            #[trigger] entries[b]).name@,
        e.name@ == entries[i].name@,
    ensures
        spec_lookup(entries.update(i, e), e.name@) == Some::<(u64, Seq<u64>)>(
            (e.info.buffer, e.info.dims@),
        ),
        forall|n: Seq<char>|
            n != e.name@ ==> #[trigger] spec_lookup(entries.update(i, e), n) == spec_lookup(
                entries,
                n,
            ),
    decreases entries.len(),
{
    if i == 0 {
        assert(entries.update(0, e).drop_first() =~= entries.drop_first());
        assert forall|n: Seq<char>| n != e.name@ implies #[trigger] spec_lookup(
            entries.update(i, e),
            n,
        ) == spec_lookup(entries, n) by {
            assert(spec_lookup(entries.update(i, e), n) == spec_lookup(
                entries.drop_first(),
                n,
            ));
            assert(spec_lookup(entries, n) == spec_lookup(entries.drop_first(), n));
        }
    } else {
        assert(entries.update(i, e).drop_first() =~= entries.drop_first().update(i - 1, e));
        assert(entries[0].name@ != entries[i].name@);
        lemma_lookup_update(entries.drop_first(), i - 1, e);
        assert(spec_lookup(entries.update(i, e), e.name@) == spec_lookup(
            entries.drop_first().update(i - 1, e),
            e.name@,
        ));
        assert forall|n: Seq<char>| n != e.name@ implies #[trigger] spec_lookup(
            entries.update(i, e),
            n,
        ) == spec_lookup(entries, n) by {
            if entries[0].name@ == n {
                assert(entries.update(i, e)[0] == entries[0]);
            } else {
                assert(spec_lookup(entries.update(i, e), n) == spec_lookup(
                    entries.drop_first().update(i - 1, e),
                    n,
                ));
                assert(spec_lookup(entries, n) == spec_lookup(entries.drop_first(), n));
            }
        }
    }
}

/// Appending an entry of a fresh name binds that name and keeps every
/// other name's binding.
proof fn lemma_lookup_push(entries: Seq<RegistryEntry>, e: RegistryEntry)
    requires
        spec_lookup(entries, e.name@) is None,
    ensures
        spec_lookup(entries.push(e), e.name@) == Some::<(u64, Seq<u64>)>(
            (e.info.buffer, e.info.dims@),
        ),
        forall|n: Seq<char>|
            n != e.name@ ==> #[trigger] spec_lookup(entries.push(e), n) == spec_lookup(entries, n),
    decreases entries.len(),
{
    if entries.len() == 0 {
        assert(entries.push(e)[0] == e);
        assert(entries.push(e).drop_first() =~= Seq::<RegistryEntry>::empty());
        assert forall|n: Seq<char>| n != e.name@ implies #[trigger] spec_lookup(
            entries.push(e),
            n,
        ) == spec_lookup(entries, n) by {
            assert(spec_lookup(entries.push(e), n) == spec_lookup(
                entries.push(e).drop_first(),
                n,
            ));
        }
    } else {
        assert(entries.push(e).drop_first() =~= entries.drop_first().push(e));
        lemma_lookup_push(entries.drop_first(), e);
        assert(entries.push(e)[0] == entries[0]);
        assert(spec_lookup(entries.push(e), e.name@) == spec_lookup(
            entries.drop_first().push(e),
            e.name@,
        ));
        assert forall|n: Seq<char>| n != e.name@ implies #[trigger] spec_lookup(
            entries.push(e),
            n,
        ) == spec_lookup(entries, n) by {
            if entries[0].name@ != n {
                assert(spec_lookup(entries.push(e), n) == spec_lookup(
                    entries.drop_first().push(e),
                    n,
                ));
                assert(spec_lookup(entries, n) == spec_lookup(entries.drop_first(), n));
            }
        }
    }
}

impl Registry {
    /// Registry well-formedness: one live handle per name, every
    /// handle below the fresh-handle counter, distinct handles, and
    /// every recorded shape valid.
    pub open spec fn wf(self) -> bool {
        &&& forall|a: int, b: int|
            0 <= a < b < self.entries@.len() ==> (#[trigger] self.entries@[a]).name@ != (
            #[trigger] self.entries@[b]).name@
        &&& forall|a: int|
            0 <= a < self.entries@.len() ==> (#[trigger] self.entries@[a]).info.buffer
                < self.next_id
        &&& forall|a: int, b: int|
            0 <= a < b < self.entries@.len() ==> (#[trigger] self.entries@[a]).info.buffer != (
            #[trigger] self.entries@[b]).info.buffer
        &&& forall|a: int|
            0 <= a < self.entries@.len() ==> spec_valid_dims(
                (#[trigger] self.entries@[a]).info.dims@,
            )
    }

    /// The binding of a name, as the contracts speak of it.
    pub open spec fn spec_get(self, name: Seq<char>) -> Option<(u64, Seq<u64>)> {
        spec_lookup(self.entries@, name)
    }

    /// An empty registry.
    pub fn new() -> (r: Registry)
        ensures
            r.wf(),
            r.entries@.len() == 0,
            r.next_id == 0,
            forall|n: Seq<char>| #[trigger] r.spec_get(n) is None,
    {
        Registry { entries: Vec::new(), next_id: 0 }
    }

    /// Index of the entry holding `name`, if any.
    fn find_index(&self, name: &String) -> (r: Option<usize>)
        requires
            self.wf(),
        ensures
            match r {
                Some(i) => i < self.entries@.len() && self.entries@[i as int].name@ == name@
                    && self.spec_get(name@) == Some(
                    (self.entries@[i as int].info.buffer, self.entries@[i as int].info.dims@),
                ),
                None => self.spec_get(name@) is None && forall|k: int|
                    0 <= k < self.entries@.len() ==> (#[trigger] self.entries@[k]).name@ != name@,
            },
    {
        let mut i: usize = 0;
        proof {
            assert(self.entries@.skip(0) =~= self.entries@);
        }
        while i < self.entries.len()
            invariant
                self.wf(),
                0 <= i <= self.entries@.len(),
                spec_lookup(self.entries@, name@) == spec_lookup(
                    self.entries@.skip(i as int),
                    name@,
                ),
                forall|k: int| 0 <= k < i ==> (#[trigger] self.entries@[k]).name@ != name@,
            decreases self.entries@.len() - i,
        {
            proof {
                assert(self.entries@.skip(i as int).drop_first() =~= self.entries@.skip(
                    i as int + 1,
                ));
            }
            if crate::onnx::str_is(&self.entries[i].name, name.as_str()) {
                return Some(i);
            }
            i = i + 1;
        }
        proof {
            assert(self.entries@.skip(i as int) =~= Seq::<RegistryEntry>::empty());
        }
        None
    }

    /// The handle registered for `name`, or `None`.
    pub fn get(&self, name: &String) -> (r: Option<&InnerInfo>)
        requires
            self.wf(),
        ensures
            match r {
                Some(info) => self.spec_get(name@) == Some((info.buffer, info.dims@)),
                None => self.spec_get(name@) is None,
            },
    {
        match self.find_index(name) {
            Some(i) => Some(&self.entries[i].info),
            None => None,
        }
    }

    /// Returns an existing handle where the registered shape already
    /// matches; otherwise allocates a fresh buffer for the shape,
    /// releasing any superseded one, and records the device actions
    /// that realize the change.  Never fails: a shape change is
    /// reconciled by reallocation, by design.
    pub fn ensure(&mut self, name: &String, dims: &Vec<u64>, actions: &mut Vec<BufferAction>) -> (id:
        u64)
        requires
            old(self).wf(),
            spec_valid_dims(dims@),
            old(self).next_id < u64::MAX,
        ensures
            final(self).wf(),
            final(self).spec_get(name@) == Some((id, dims@)),
            forall|n: Seq<char>|
                n != name@ ==> #[trigger] final(self).spec_get(n) == old(self).spec_get(n),
            final(self).next_id >= old(self).next_id,
            final(self).next_id <= old(self).next_id + 1,
            match old(self).spec_get(name@) {
                Some(prev) => {
                    if prev.1 == dims@ {
                        &&& id == prev.0
                        &&& *final(self) == *old(self)
                        &&& final(actions)@ == old(actions)@
                    } else {
                        &&& id == old(self).next_id
                        &&& final(actions)@ == old(actions)@ + seq![
                            BufferAction::Release { id: prev.0 },
                            BufferAction::CreateUninit {
                                id,
                                bytes: (spec_elem_count(dims@) * ELEMENT_BYTES) as u64,
                            },
                        ]
                    }
                },
                None => {
                    &&& id == old(self).next_id
                    &&& final(actions)@ == old(actions)@ + seq![
                        BufferAction::CreateUninit {
                            id,
                            bytes: (spec_elem_count(dims@) * ELEMENT_BYTES) as u64,
                        },
                    ]
                },
            },
    {
        let count = match crate::onnx::elem_count(dims) {
            Some(c) => c,
            None => 0,
        };
        let bytes = count * ELEMENT_BYTES;
        match self.find_index(name) {
            Some(i) => {
                if dims_eq(&self.entries[i].info.dims, dims) {
                    proof {
                        assert(self.entries@[i as int].info.dims@ == dims@);
                    }
                    self.entries[i].info.buffer
                } else {
                    let fresh = self.next_id;
                    let old_id = self.entries[i].info.buffer;
                    actions.push(BufferAction::Release { id: old_id });
                    actions.push(BufferAction::CreateUninit { id: fresh, bytes });
                    let entry = RegistryEntry {
                        name: self.entries[i].name.clone(),
                        info: InnerInfo { buffer: fresh, dims: dims.clone() },
                    };
                    proof {
                        lemma_lookup_update(self.entries@, i as int, entry);
                    }
                    self.entries[i] = entry;
                    self.next_id = fresh + 1;
                    fresh
                }
            },
            None => {
                let fresh = self.next_id;
                actions.push(BufferAction::CreateUninit { id: fresh, bytes });
                let entry = RegistryEntry {
                    name: name.clone(),
                    info: InnerInfo { buffer: fresh, dims: dims.clone() },
                };
                proof {
                    lemma_lookup_push(self.entries@, entry);
                }
                self.entries.push(entry);
                self.next_id = fresh + 1;
                fresh
            },
        }
    }

    /// Registers a handle for `name` under a fresh buffer, replacing
    /// any existing handle and reporting the released buffer.
    pub fn put(&mut self, name: &String, dims: &Vec<u64>) -> (r: (u64, Option<u64>))
        requires
            old(self).wf(),
            spec_valid_dims(dims@),
            old(self).next_id < u64::MAX,
        ensures
            final(self).wf(),
            final(self).spec_get(name@) == Some((r.0, dims@)),
            forall|n: Seq<char>|
                n != name@ ==> #[trigger] final(self).spec_get(n) == old(self).spec_get(n),
            r.0 == old(self).next_id,
            final(self).next_id == old(self).next_id + 1,
            match old(self).spec_get(name@) {
                Some(prev) => r.1 == Some(prev.0),
                None => r.1 is None,
            },
    {
        let fresh = self.next_id;
        match self.find_index(name) {
            Some(i) => {
                let released = self.entries[i].info.buffer;
                let entry = RegistryEntry {
                    name: self.entries[i].name.clone(),
                    info: InnerInfo { buffer: fresh, dims: dims.clone() },
                };
                proof {
                    lemma_lookup_update(self.entries@, i as int, entry);
                }
                self.entries[i] = entry;
                self.next_id = fresh + 1;
                (fresh, Some(released))
            },
            None => {
                let entry = RegistryEntry {
                    name: name.clone(),
                    info: InnerInfo { buffer: fresh, dims: dims.clone() },
                };
                proof {
                    lemma_lookup_push(self.entries@, entry);
                }
                self.entries.push(entry);
                self.next_id = fresh + 1;
                (fresh, None)
            },
        }
    }
}

} // verus!
