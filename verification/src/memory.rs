//! Connection-scoped bookkeeping of memory imported by `Core::AddMem`: which
//! numeric ids are live under which generation, the backing object and
//! length of each, and which ranges of them may be mapped.

use std::collections::HashMap;

use vstd::prelude::*;
use vstd::slice::slice_to_vec;
use vstd::slice::slice_subrange;

use crate::config::{MemoryId, RegionRef, DATA_TYPE_MEM_FD};

verus! {

broadcast use vstd::std_specs::hash::group_hash_axioms;

/// Stable identity of one imported-memory generation.
#[derive(Clone, Copy, Debug, PartialEq, Eq, Structural, Hash)]
pub struct MemoryKey {
    /// Numeric Core memory identifier.
    pub id: MemoryId,
    /// Generation assigned when the descriptor was imported.
    pub generation: u64,
}

/// Device and inode of a shared-memory backing object.
#[derive(Clone, Copy, Debug, PartialEq, Eq, Structural, Hash)]
pub struct BackingIdentity {
    pub device: u64,
    pub inode: u64,
}

/// Memory kind accepted by the session.
#[derive(Clone, Copy, Debug, PartialEq, Eq, Structural)]
pub enum MemoryKind {
    /// `SPA_DATA_MemFd` shared memory.
    MemFd,
}

/// An absolute byte interval in one backing object.
#[derive(Clone, Copy, Debug, PartialEq, Eq, Structural)]
pub struct MemoryInterval {
    pub backing: BackingIdentity,
    pub start: usize,
    pub end: usize,
}

impl MemoryInterval {
    pub open spec fn spec_overlaps(self, other: Self) -> bool {
        self.backing == other.backing && self.start < other.end && other.start < self.end
    }

    /// Whether the two intervals share a byte of one backing object.
    pub fn overlaps(self, other: Self) -> (r: bool)
        ensures
            r == self.spec_overlaps(other),
    {
        self.backing == other.backing && self.start < other.end && other.start < self.end
    }
}

/// Whether imported files that can still be shrunk are accepted.
#[derive(Clone, Copy, Debug, PartialEq, Eq, Structural)]
pub enum ShrinkPolicy {
    /// Only files sealed against shrinking are imported.
    RequireSealed,
    /// Any file is imported.
    AllowShrinkable,
}

/// Failure to import, resolve, or map connection memory.
#[derive(Clone, Copy, Debug, PartialEq, Eq, Structural)]
pub enum MemoryError {
    /// The SPA memory type value is not canonical.
    UnknownMemoryType(u32),
    /// The SPA memory type is known but unsupported.
    UnsupportedMemoryType(u32),
    /// An active generation already owns this numeric ID.
    DuplicateActiveId(MemoryId),
    /// No active generation owns this numeric ID.
    UnknownMemory(MemoryId),
    /// A key names a retired generation or a different active generation.
    StaleGeneration { requested: MemoryKey, active: Option<MemoryKey> },
    /// The requested range is empty, overflows, or exceeds the imported file.
    InvalidRegion { key: MemoryKey, offset: usize, len: usize, file_len: usize },
    /// The generation counter cannot assign another unique key.
    GenerationExhausted,
    /// The policy rejects a file that can still be shrunk.
    ShrinkableMemory(MemoryId),
    /// Inspecting the descriptor failed with this OS error number.
    Inspect(i32),
    /// Mapping the checked range failed with this OS error number.
    MapFailed { key: MemoryKey, errno: i32 },
    /// The pool has been disconnected.
    Disconnected,
}

/// What inspecting an imported descriptor found.
#[derive(Clone, Copy, Debug, PartialEq, Eq, Structural)]
pub struct Inspection {
    /// File length.
    pub file_len: usize,
    /// Backing object.
    pub backing: BackingIdentity,
    /// Whether the file's seals prevent shrinking it.
    pub sealed: bool,
}

/// One live import.
#[derive(Clone, Copy, Debug, PartialEq, Eq, Structural)]
pub struct MemoryEntry {
    pub key: MemoryKey,
    pub backing: BackingIdentity,
    pub kind: MemoryKind,
    pub flags: u32,
    pub file_len: usize,
}

/// A checked range of one exact generation, ready to be mapped.
#[derive(Clone, Copy, Debug, PartialEq, Eq, Structural)]
pub struct MappedRange {
    pub key: MemoryKey,
    pub backing: BackingIdentity,
    pub kind: MemoryKind,
    pub flags: u32,
    pub offset: usize,
    pub len: usize,
    pub writable: bool,
}

impl MappedRange {
    pub open spec fn spec_interval(self) -> MemoryInterval {
        MemoryInterval {
            backing: self.backing,
            start: self.offset,
            end: (self.offset + self.len) as usize,
        }
    }

    /// The exact generation the range pins.
    pub fn key(&self) -> (k: MemoryKey)
        ensures
            k == self.key,
    {
        self.key
    }

    /// The backing object of the range.
    pub fn backing_identity(&self) -> (b: BackingIdentity)
        ensures
            b == self.backing,
    {
        self.backing
    }

    /// The range as an absolute interval of its backing object.
    pub fn interval(&self) -> (i: MemoryInterval)
        requires
            self.offset + self.len <= usize::MAX,
        ensures
            i == self.spec_interval(),
    {
        MemoryInterval { backing: self.backing, start: self.offset, end: self.offset + self.len }
    }

    /// Number of bytes in the range.
    pub fn len(&self) -> (n: usize)
        ensures
            n == self.len,
    {
        self.len
    }

    /// Whether the range is empty (never, for a checked range).
    pub fn is_empty(&self) -> (b: bool)
        ensures
            b == (self.len == 0),
    {
        self.len == 0
    }
}

/// One checked range as a resolver mapped it.
#[derive(Clone, Copy, Debug, PartialEq, Eq, Structural)]
pub struct MemoryMapping {
    /// The checked range.
    pub range: MappedRange,
    /// Address the range is mapped at.
    pub address: usize,
}

impl MemoryMapping {
    /// The mapping as an absolute interval of its backing object.
    pub fn interval(&self) -> (i: MemoryInterval)
        requires
            self.range.offset + self.range.len <= usize::MAX,
        ensures
            i == self.range.spec_interval(),
    {
        self.range.interval()
    }
}

/// Exact-generation memory resolution used by node sessions. A resolver
/// maps exactly the range it is asked for, and reads and writes the shared
/// bytes of what it mapped.
pub trait MemoryResolver {
    /// What resolving `id` gives in the resolver's current state: which
    /// generation is live for an id is a function of that state.
    spec fn spec_resolve(&self, id: MemoryId) -> Result<MemoryKey, MemoryError>;

    /// The live generation of a numeric memory id.
    fn resolve(&self, id: MemoryId) -> (r: Result<MemoryKey, MemoryError>)
        ensures
            r == self.spec_resolve(id),
            r matches Ok(k) ==> k.id == id,
    ;

    /// The backing object that generation `key` was imported from, in the
    /// resolver's current state.
    spec fn spec_backing(&self, key: MemoryKey) -> BackingIdentity;

    /// Maps `len` bytes at `offset` of exactly generation `key`.
    fn map(&self, key: MemoryKey, offset: usize, len: usize, writable: bool) -> (r: Result<
        MemoryMapping,
        MemoryError,
    >)
        ensures
            r matches Ok(m) ==> {
                &&& m.range.key == key
                &&& m.range.backing == self.spec_backing(key)
                &&& m.range.offset == offset
                &&& m.range.len == len
                &&& m.range.writable == writable
                &&& offset + len <= usize::MAX
                &&& m.address + len <= usize::MAX
            },
    ;

    /// The current bytes of a mapping.
    fn read(&self, mapping: &MemoryMapping) -> (r: Vec<u8>)
        ensures
            r@.len() == mapping.range.len,
    ;

    /// Stores `bytes` at `offset` of a mapping.
    fn write(&self, mapping: &MemoryMapping, offset: usize, bytes: &[u8])
        requires
            offset + bytes@.len() <= mapping.range.len,
    ;
}

/// One store into a shared record: the bytes written at an offset.
#[derive(Clone, Debug)]
pub struct RecordWrite {
    pub offset: usize,
    pub bytes: Vec<u8>,
}

/// What one step on a shared record read, and what it wrote back, in order.
#[derive(Clone, Debug)]
pub struct RecordStep {
    pub image: Vec<u8>,
    pub writes: Vec<RecordWrite>,
}

/// The stores of `ws` as offsets and bytes.
pub open spec fn writes_view(ws: Seq<RecordWrite>) -> Seq<(int, Seq<u8>)> {
    Seq::new(ws.len(), |i: int| (ws[i].offset as int, ws[i].bytes@))
}

/// The store of bytes `[offset, offset + n)` of the updated image `after`.
pub open spec fn field_of(after: Seq<u8>, offset: int, n: int) -> (int, Seq<u8>) {
    (offset, after.subrange(offset, offset + n))
}

/// Stores bytes `[offset, offset + n)` of `image`, an image of the whole
/// mapping, at the same offset of the mapping, and returns that store.
pub fn store_field<R: MemoryResolver>(
    memory: &R,
    mapping: &MemoryMapping,
    image: &Vec<u8>,
    offset: usize,
    n: usize,
) -> (w: RecordWrite)
    requires
        offset + n <= image@.len(),
        image@.len() == mapping.range.len,
    ensures
        (w.offset as int, w.bytes@) == field_of(image@, offset as int, n as int),
{
    let bytes = slice_to_vec(slice_subrange(image.as_slice(), offset, offset + n));
    memory.write(mapping, offset, bytes.as_slice());
    RecordWrite { offset, bytes }
}

/// Whether `t` is a canonical `SPA_DATA_*` value.
pub open spec fn known_data_type(t: u32) -> bool {
    t <= 4
}

/// Sole connection owner of the live memory ids and their generations.
pub struct MemoryPool {
    next_generation: u64,
    live: HashMap<u32, MemoryEntry>,
    shrink_policy: ShrinkPolicy,
    disconnected: bool,
}

/// Why importing `id` is refused, if it is.
pub open spec fn add_refusal(
    live: Map<u32, MemoryEntry>,
    disconnected: bool,
    policy: ShrinkPolicy,
    next_generation: u64,
    id: MemoryId,
    memory_type: u32,
    inspection: Result<Inspection, i32>,
) -> Option<MemoryError> {
    if disconnected {
        Some(MemoryError::Disconnected)
    } else if live.contains_key(id.0) {
        Some(MemoryError::DuplicateActiveId(id))
    } else if !known_data_type(memory_type) {
        Some(MemoryError::UnknownMemoryType(memory_type))
    } else if memory_type != DATA_TYPE_MEM_FD {
        Some(MemoryError::UnsupportedMemoryType(memory_type))
    } else if inspection is Err {
        Some(MemoryError::Inspect(inspection->Err_0))
    } else if policy == ShrinkPolicy::RequireSealed && !inspection->Ok_0.sealed {
        Some(MemoryError::ShrinkableMemory(id))
    } else if next_generation == u64::MAX {
        Some(MemoryError::GenerationExhausted)
    } else {
        None
    }
}

/// Why mapping `len` bytes at `offset` of `key` is refused, if it is.
pub open spec fn map_refusal(
    live: Map<u32, MemoryEntry>,
    disconnected: bool,
    key: MemoryKey,
    offset: usize,
    len: usize,
) -> Option<MemoryError> {
    if disconnected {
        Some(MemoryError::Disconnected)
    } else if !live.contains_key(key.id.0) {
        Some(MemoryError::StaleGeneration { requested: key, active: None })
    } else if live[key.id.0].key != key {
        Some(MemoryError::StaleGeneration { requested: key, active: Some(live[key.id.0].key) })
    } else if len == 0 || len > isize::MAX || offset + len > live[key.id.0].file_len {
        Some(
            MemoryError::InvalidRegion {
                key,
                offset,
                len,
                file_len: live[key.id.0].file_len,
            },
        )
    } else {
        None
    }
}

impl MemoryPool {
    pub closed spec fn spec_live(&self) -> Map<u32, MemoryEntry> {
        self.live@
    }

    pub closed spec fn spec_next_generation(&self) -> u64 {
        self.next_generation
    }

    pub closed spec fn spec_disconnected(&self) -> bool {
        self.disconnected
    }

    pub closed spec fn spec_policy(&self) -> ShrinkPolicy {
        self.shrink_policy
    }

    /// Each live entry sits under its own id, with a generation below the
    /// next one to assign.
    pub open spec fn wf(&self) -> bool {
        forall|id: u32| #[trigger]
            self.spec_live().contains_key(id) ==> self.spec_live()[id].key.id.0 == id
                && self.spec_live()[id].key.generation < self.spec_next_generation()
    }

    /// Creates an empty pool with an explicit shrink policy.
    pub fn new(shrink_policy: ShrinkPolicy) -> (p: Self)
        ensures
            p.wf(),
            p.spec_live() == Map::<u32, MemoryEntry>::empty(),
            p.spec_next_generation() == 1,
            !p.spec_disconnected(),
            p.spec_policy() == shrink_policy,
    {
        MemoryPool {
            next_generation: 1,
            live: HashMap::new(),
            shrink_policy,
            disconnected: false,
        }
    }

    /// Imports one inspected descriptor under a unique live id. Only
    /// `SPA_DATA_MemFd` is supported; other canonical kinds are told apart
    /// from unknown values.
    pub fn add(
        &mut self,
        id: MemoryId,
        memory_type: u32,
        flags: u32,
        inspection: Result<Inspection, i32>,
    ) -> (r: Result<MemoryKey, MemoryError>)
        requires
            old(self).wf(),
        ensures
            final(self).wf(),
            final(self).spec_disconnected() == old(self).spec_disconnected(),
            final(self).spec_policy() == old(self).spec_policy(),
            match add_refusal(
                old(self).spec_live(),
                old(self).spec_disconnected(),
                old(self).spec_policy(),
                old(self).spec_next_generation(),
                id,
                memory_type,
                inspection,
            ) {
                Some(e) => r == Err::<MemoryKey, MemoryError>(e) && final(self).spec_live()
                    == old(self).spec_live() && final(self).spec_next_generation() == old(self).spec_next_generation(),
                None => {
                    let key = MemoryKey { id, generation: old(self).spec_next_generation() };
                    &&& r == Ok::<MemoryKey, MemoryError>(key)
                    &&& final(self).spec_next_generation() == old(self).spec_next_generation() + 1
                    &&& final(self).spec_live() == old(self).spec_live().insert(
                        id.0,
                        MemoryEntry {
                            key,
                            backing: inspection->Ok_0.backing,
                            kind: MemoryKind::MemFd,
                            flags,
                            file_len: inspection->Ok_0.file_len,
                        },
                    )
                },
            },
    {
        if self.disconnected {
            return Err(MemoryError::Disconnected);
        }
        if self.live.contains_key(&id.0) {
            return Err(MemoryError::DuplicateActiveId(id));
        }
        if memory_type > 4 {
            return Err(MemoryError::UnknownMemoryType(memory_type));
        }
        if memory_type != DATA_TYPE_MEM_FD {
            return Err(MemoryError::UnsupportedMemoryType(memory_type));
        }
        let found = match inspection {
            Err(e) => {
                return Err(MemoryError::Inspect(e));
            },
            Ok(found) => found,
        };
        if self.shrink_policy == ShrinkPolicy::RequireSealed && !found.sealed {
            return Err(MemoryError::ShrinkableMemory(id));
        }
        let generation = self.next_generation;
        if generation == u64::MAX {
            return Err(MemoryError::GenerationExhausted);
        }
        self.next_generation = generation + 1;
        let key = MemoryKey { id, generation };
        self.live.insert(
            id.0,
            MemoryEntry {
                key,
                backing: found.backing,
                kind: MemoryKind::MemFd,
                flags,
                file_len: found.file_len,
            },
        );
        Ok(key)
    }

    /// The current generation of a live id.
    pub fn resolve(&self, id: MemoryId) -> (r: Result<MemoryKey, MemoryError>)
        ensures
            self.spec_disconnected() ==> r == Err::<MemoryKey, MemoryError>(
                MemoryError::Disconnected,
            ),
            !self.spec_disconnected() && self.spec_live().contains_key(id.0) ==> r == Ok::<
                MemoryKey,
                MemoryError,
            >(self.spec_live()[id.0].key),
            !self.spec_disconnected() && !self.spec_live().contains_key(id.0) ==> r == Err::<
                MemoryKey,
                MemoryError,
            >(MemoryError::UnknownMemory(id)),
    {
        if self.disconnected {
            return Err(MemoryError::Disconnected);
        }
        match self.live.get(&id.0) {
            Some(entry) => Ok(entry.key),
            None => Err(MemoryError::UnknownMemory(id)),
        }
    }

    /// The backing object of generation `key`, while it is live.
    pub fn backing(&self, key: MemoryKey) -> (b: Option<BackingIdentity>)
        ensures
            b == (if self.spec_live().contains_key(key.id.0) && self.spec_live()[key.id.0].key == key {
                Some(self.spec_live()[key.id.0].backing)
            } else {
                None
            }),
    {
        match self.live.get(&key.id.0) {
            Some(entry) => if entry.key == key {
                Some(entry.backing)
            } else {
                None
            },
            None => None,
        }
    }

    /// Checks `len` bytes at `offset` of generation `key` for mapping; only
    /// the live generation of its id can be mapped.
    pub fn map(&self, key: MemoryKey, offset: usize, len: usize, writable: bool) -> (r: Result<
        MappedRange,
        MemoryError,
    >)
        ensures
            match map_refusal(self.spec_live(), self.spec_disconnected(), key, offset, len) {
                Some(e) => r == Err::<MappedRange, MemoryError>(e),
                None => r == Ok::<MappedRange, MemoryError>(
                    MappedRange {
                        key,
                        backing: self.spec_live()[key.id.0].backing,
                        kind: self.spec_live()[key.id.0].kind,
                        flags: self.spec_live()[key.id.0].flags,
                        offset,
                        len,
                        writable,
                    },
                ),
            },
    {
        if self.disconnected {
            return Err(MemoryError::Disconnected);
        }
        let entry = match self.live.get(&key.id.0) {
            None => {
                return Err(MemoryError::StaleGeneration { requested: key, active: None });
            },
            Some(entry) => *entry,
        };
        if entry.key != key {
            return Err(MemoryError::StaleGeneration { requested: key, active: Some(entry.key) });
        }
        let valid = len > 0 && len <= isize::MAX as usize && match offset.checked_add(len) {
            Some(end) => end <= entry.file_len,
            None => false,
        };
        if !valid {
            return Err(
                MemoryError::InvalidRegion { key, offset, len, file_len: entry.file_len },
            );
        }
        Ok(
            MappedRange {
                key,
                backing: entry.backing,
                kind: entry.kind,
                flags: entry.flags,
                offset,
                len,
                writable,
            },
        )
    }

    /// Resolves and checks a region against the live generation of its id.
    pub fn bind(&self, region: RegionRef, writable: bool) -> (r: Result<MappedRange, MemoryError>)
        ensures
            self.spec_disconnected() ==> r == Err::<MappedRange, MemoryError>(
                MemoryError::Disconnected,
            ),
            !self.spec_disconnected() && !self.spec_live().contains_key(region.memory.0) ==> r
                == Err::<MappedRange, MemoryError>(MemoryError::UnknownMemory(region.memory)),
            !self.spec_disconnected() && self.spec_live().contains_key(region.memory.0) ==> ({
                let key = self.spec_live()[region.memory.0].key;
                match map_refusal(
                    self.spec_live(),
                    false,
                    key,
                    region.offset,
                    region.len,
                ) {
                    Some(e) => r == Err::<MappedRange, MemoryError>(e),
                    None => r matches Ok(m) && m.key == key && m.offset == region.offset && m.len
                        == region.len && m.writable == writable,
                }
            }),
    {
        let key = match self.resolve(region.memory) {
            Err(e) => {
                return Err(e);
            },
            Ok(key) => key,
        };
        self.map(key, region.offset, region.len, writable)
    }

    /// Retires a live id, so that nothing binds it any more.
    pub fn remove(&mut self, id: MemoryId) -> (r: Result<MemoryKey, MemoryError>)
        requires
            old(self).wf(),
        ensures
            final(self).wf(),
            final(self).spec_disconnected() == old(self).spec_disconnected(),
            final(self).spec_next_generation() == old(self).spec_next_generation(),
            final(self).spec_policy() == old(self).spec_policy(),
            old(self).spec_disconnected() ==> r == Err::<MemoryKey, MemoryError>(
                MemoryError::Disconnected,
            ) && final(self).spec_live() == old(self).spec_live(),
            !old(self).spec_disconnected() && old(self).spec_live().contains_key(id.0) ==> r
                == Ok::<MemoryKey, MemoryError>(old(self).spec_live()[id.0].key) && final(self).spec_live() == old(self).spec_live().remove(id.0),
            !old(self).spec_disconnected() && !old(self).spec_live().contains_key(id.0) ==> r
                == Err::<MemoryKey, MemoryError>(MemoryError::UnknownMemory(id)) && final(self).spec_live() == old(self).spec_live(),
    {
        if self.disconnected {
            return Err(MemoryError::Disconnected);
        }
        match self.live.remove(&id.0) {
            Some(entry) => Ok(entry.key),
            None => Err(MemoryError::UnknownMemory(id)),
        }
    }

    /// Retires every live id; the pool stays usable.
    pub fn clear(&mut self)
        requires
            old(self).wf(),
        ensures
            final(self).wf(),
            final(self).spec_live() == Map::<u32, MemoryEntry>::empty(),
            final(self).spec_disconnected() == old(self).spec_disconnected(),
            final(self).spec_next_generation() == old(self).spec_next_generation(),
            final(self).spec_policy() == old(self).spec_policy(),
    {
        self.live.clear();
    }

    /// Retires every live id and refuses all later imports and bindings.
    pub fn disconnect(&mut self)
        requires
            old(self).wf(),
        ensures
            final(self).wf(),
            final(self).spec_live() == Map::<u32, MemoryEntry>::empty(),
            final(self).spec_disconnected(),
            final(self).spec_next_generation() == old(self).spec_next_generation(),
            final(self).spec_policy() == old(self).spec_policy(),
    {
        self.live.clear();
        self.disconnected = true;
    }

    /// Number of live ids.
    pub fn len(&self) -> (n: usize)
        ensures
            n == self.spec_live().len(),
    {
        self.live.len()
    }

    /// Whether no id is live.
    pub fn is_empty(&self) -> (b: bool)
        ensures
            b == (self.spec_live().len() == 0),
    {
        self.live.len() == 0
    }
}

/// Every key a pool hands out is fresh: no live generation, and none that
/// any earlier import received, equals the generation of the next import.
pub proof fn law_next_generation_is_fresh(pool: &MemoryPool, id: u32)
    requires
        pool.wf(),
        pool.spec_live().contains_key(id),
    ensures
        pool.spec_live()[id].key.generation < pool.spec_next_generation(),
{
}

/// Only the live generation of an id maps: a key whose id was retired, or
/// whose id now has another generation, is stale.
pub proof fn law_stale_keys_do_not_map(pool: &MemoryPool, key: MemoryKey, offset: usize, len: usize)
    requires
        !pool.spec_disconnected(),
        !pool.spec_live().contains_key(key.id.0) || pool.spec_live()[key.id.0].key != key,
    ensures
        map_refusal(pool.spec_live(), pool.spec_disconnected(), key, offset, len) matches Some(
            MemoryError::StaleGeneration { requested, .. },
        ) && requested == key,
{
}

/// Why a shared mapping of a range cannot be made.
#[derive(Clone, Copy, Debug, PartialEq, Eq, Structural)]
pub enum WindowError {
    /// The range is empty.
    EmptyRegion,
    /// The range's end does not fit `usize`.
    Overflow,
    /// The range is too large for a slice.
    TooLarge,
    /// The range ends past the backing file.
    BeyondFile,
    /// The system reports a zero page size.
    ZeroPageSize,
}

/// The page-aligned window a mapping of a range uses.
#[derive(Clone, Copy, Debug, PartialEq, Eq, Structural)]
pub struct MapWindow {
    /// File offset of the mapping: the range's offset rounded down to a page.
    pub mapping_offset: usize,
    /// Offset of the range inside the mapping.
    pub logical_offset: usize,
    /// Bytes to map: the logical offset plus the range.
    pub mapping_len: usize,
}

/// Checks a range `[offset, offset + len)` of a file of `file_size` bytes
/// and widens it to the page that holds `offset`.
pub fn mapping_window(offset: usize, len: usize, file_size: usize, page_size: usize) -> (r: Result<
    MapWindow,
    WindowError,
>)
    ensures
        len == 0 ==> r == Err::<MapWindow, WindowError>(WindowError::EmptyRegion),
        len > 0 && offset + len > usize::MAX ==> r == Err::<MapWindow, WindowError>(WindowError::Overflow),
        len > 0 && offset + len <= usize::MAX && len > isize::MAX ==> r == Err::<MapWindow, WindowError>(
            WindowError::TooLarge,
        ),
        len > 0 && offset + len <= usize::MAX && len <= isize::MAX && offset + len > file_size ==> r
            == Err::<MapWindow, WindowError>(WindowError::BeyondFile),
        len > 0 && offset + len <= file_size && len <= isize::MAX && page_size == 0 ==> r == Err::<
            MapWindow,
            WindowError,
        >(WindowError::ZeroPageSize),
        len > 0 && offset + len <= file_size && len <= isize::MAX && page_size > 0 && offset % page_size + len
            > isize::MAX ==> r == Err::<MapWindow, WindowError>(WindowError::TooLarge),
        len > 0 && offset + len <= file_size && len <= isize::MAX && page_size > 0 && offset % page_size + len
            <= isize::MAX ==> r == Ok::<
            MapWindow,
            WindowError,
        >(
            MapWindow {
                mapping_offset: (offset - offset % page_size) as usize,
                logical_offset: (offset % page_size) as usize,
                mapping_len: (offset % page_size + len) as usize,
            },
        ),
{
    if len == 0 {
        return Err(WindowError::EmptyRegion);
    }
    if offset > usize::MAX - len {
        return Err(WindowError::Overflow);
    }
    if len > isize::MAX as usize {
        return Err(WindowError::TooLarge);
    }
    if offset + len > file_size {
        return Err(WindowError::BeyondFile);
    }
    if page_size == 0 {
        return Err(WindowError::ZeroPageSize);
    }
    let logical_offset = offset % page_size;
    assert(logical_offset <= offset) by (nonlinear_arith)
        requires
            logical_offset == offset % page_size,
            page_size > 0,
    ;
    if logical_offset + len > isize::MAX as usize {
        return Err(WindowError::TooLarge);
    }
    Ok(MapWindow { mapping_offset: offset - logical_offset, logical_offset, mapping_len: logical_offset + len })
}

} // verus!
