use crate::data_structures::custom_hashmap::CustomHashMap;
use crate::data_structures::custom_lru_cache::CustomLruCache;
use crate::data_structures::hash_key::HashKey;
use crate::data_structures::recency_list::{
    after_insert, distinct_keys, lemma_with_values_commutes, position_of, promoted, with_values,
};
use crate::error::StorageError;
use crate::models::course::{CourseInfo, CourseInfoView};
use crate::models::storage_models::{compact_of, interned_texts, CompactCourseInfo};
use crate::utils::{
    interned_all, lemma_interned_all_none, lemma_interned_all_split, lemma_interned_all_step,
    StringInterner,
};
use std::collections::hash_map::DefaultHasher;
use std::hash::Hasher;
use vstd::bytes::{spec_u64_to_le_bytes, u64_to_le_bytes};
use vstd::prelude::*;

verus! {

/// Number of slots of every block.
pub const BLOCK_SIZE: usize = 16;

/// How many entries the read cache of a storage keeps.
pub const CACHE_CAPACITY: usize = 100;

/// How many strings one insertion registers at most: the name, the
/// department, and those that the compact record interns itself.
pub const STRINGS_PER_RECORD: u32 = 14;

/// Where a record resides: a block and a slot of it. A record keeps its
/// location for as long as the store lives.
#[derive(Clone, Copy, Debug, PartialEq, Eq, Structural)]
pub struct Location {
    pub block_id: usize,
    pub slot_index: usize,
}

impl View for Location {
    type V = Location;

    open spec fn view(&self) -> Location {
        *self
    }
}

impl HashKey for Location {
    open spec fn hash_input(v: Location) -> Seq<Seq<u8>> {
        seq![spec_u64_to_le_bytes(v.block_id as u64), spec_u64_to_le_bytes(v.slot_index as u64)]
    }

    fn feed(&self, state: &mut DefaultHasher) {
        let block_bytes = u64_to_le_bytes(self.block_id as u64);
        state.write(block_bytes.as_slice());
        let slot_bytes = u64_to_le_bytes(self.slot_index as u64);
        state.write(slot_bytes.as_slice());
    }

    fn same_key(&self, other: &Self) -> (same: bool) {
        self.block_id == other.block_id && self.slot_index == other.slot_index
    }

    fn copy_key(&self) -> (copy: Self) {
        *self
    }
}

/// The model of a block: the records of its occupied slots in the order in
/// which they were written, whether it was written to, and how often it was
/// read.
pub struct BlockView<T> {
    pub records: Seq<T>,
    pub modified: bool,
    pub access_count: u32,
}

/// The model of a block that was never written to.
pub open spec fn empty_block<T>() -> BlockView<T> {
    BlockView { records: Seq::empty(), modified: false, access_count: 0 }
}

/// The model of a block after one more read: the counter grows by one and
/// stays at its largest value once it got there.
pub open spec fn touched<T>(block: BlockView<T>) -> BlockView<T> {
    BlockView {
        records: block.records,
        modified: block.modified,
        access_count: if block.access_count < u32::MAX {
            (block.access_count + 1) as u32
        } else {
            block.access_count
        },
    }
}

/// The model of a block after `record` was written to its first empty slot.
pub open spec fn written<T>(block: BlockView<T>, record: T) -> BlockView<T> {
    BlockView {
        records: block.records.push(record),
        modified: true,
        access_count: block.access_count,
    }
}

/// What a scan of `records` with `predicate` may return: the first record
/// that the predicate accepted, with its slot, after it refused all the
/// records before; or nothing, after it refused every record.
pub open spec fn scanned<T, F: Fn(&T) -> bool>(
    records: Seq<T>,
    predicate: &F,
    found: Option<(usize, &T)>,
) -> bool {
    match found {
        Some((slot, record)) => {
            &&& slot < records.len()
            &&& *record == records[slot as int]
            &&& call_ensures(predicate, (&records[slot as int],), true)
            &&& forall|j: int|
                0 <= j < slot ==> call_ensures(predicate, (&#[trigger] records[j],), false)
        },
        None => forall|j: int|
            0 <= j < records.len() ==> call_ensures(predicate, (&#[trigger] records[j],), false),
    }
}

/// The model of a store after a read of block `block_id`: that block counts
/// one more read, and a block that does not exist counts nothing.
pub open spec fn after_read<T>(blocks: Seq<BlockView<T>>, block_id: usize) -> Seq<BlockView<T>> {
    if block_id < blocks.len() {
        blocks.update(block_id as int, touched(blocks[block_id as int]))
    } else {
        blocks
    }
}

/// The first block of `blocks` that has an empty slot, or, where every block
/// is full, the number of blocks.
pub open spec fn first_with_room<T>(blocks: Seq<BlockView<T>>) -> int
    decreases blocks.len(),
{
    if blocks.len() == 0 {
        0
    } else if blocks[0].records.len() < BLOCK_SIZE {
        0
    } else {
        1 + first_with_room(blocks.drop_first())
    }
}

/// The model of a store after `allocate_or_reuse_block`: where every block is
/// full, an empty block is appended.
pub open spec fn allocated<T>(blocks: Seq<BlockView<T>>) -> Seq<BlockView<T>> {
    if first_with_room(blocks) < blocks.len() {
        blocks
    } else {
        blocks.push(empty_block())
    }
}

/// The model of a store after `record` was written to the block that
/// `allocate_or_reuse_block` returned.
pub open spec fn stored<T>(blocks: Seq<BlockView<T>>, record: T) -> Seq<BlockView<T>> {
    let target = first_with_room(blocks);
    allocated(blocks).update(target, written(allocated(blocks)[target], record))
}

/// The model of a store that was empty and then took `records`, first to
/// last, each in the block that `allocate_or_reuse_block` returned for it.
pub open spec fn filled<T>(records: Seq<T>) -> Seq<BlockView<T>>
    decreases records.len(),
{
    if records.len() == 0 {
        Seq::empty()
    } else {
        stored(filled(records.drop_last()), records.last())
    }
}

/// A fixed array of slots, each empty or holding one record. Slots are filled
/// from the first on and never emptied, so the occupied slots are always the
/// first ones.
pub struct Block<T> {
    data: [Option<T>; BLOCK_SIZE],
    modified: bool,
    access_count: u32,
    used: Ghost<nat>,
}

impl<T> View for Block<T> {
    type V = BlockView<T>;

    closed spec fn view(&self) -> BlockView<T> {
        BlockView {
            records: Seq::new(self.used@, |i: int| self.data@[i].unwrap()),
            modified: self.modified,
            access_count: self.access_count,
        }
    }
}

impl<T> Block<T> {
    /// The invariant of a block: the occupied slots are the first ones.
    pub closed spec fn wf(&self) -> bool {
        &&& self.used@ <= BLOCK_SIZE
        &&& forall|i: int| 0 <= i < self.used@ ==> (#[trigger] self.data@[i]) is Some
        &&& forall|i: int| self.used@ <= i < BLOCK_SIZE ==> (#[trigger] self.data@[i]) is None
    }

    /// A well-formed block holds no more records than it has slots.
    pub proof fn lemma_wf_bounded(&self)
        requires
            self.wf(),
        ensures
            self@.records.len() <= BLOCK_SIZE,
    {
    }
}

impl<T: Copy> Block<T> {
    /// A block whose slots are all empty.
    pub fn new() -> (block: Self)
        ensures
            block.wf(),
            block@ == empty_block::<T>(),
    {
        let block = Block {
            data: [None; BLOCK_SIZE],
            modified: false,
            access_count: 0,
            used: Ghost(0),
        };
        proof {
            assert(block@.records =~= Seq::<T>::empty());
        }
        block
    }

    /// The first empty slot, if there is one.
    fn first_free(&self) -> (slot: Option<usize>)
        requires
            self.wf(),
        ensures
            match slot {
                Some(i) => i == self@.records.len() && i < BLOCK_SIZE,
                None => self@.records.len() == BLOCK_SIZE,
            },
    {
        let mut i: usize = 0;
        while i < BLOCK_SIZE
            invariant
                self.wf(),
                i <= BLOCK_SIZE,
                forall|j: int| 0 <= j < i ==> (#[trigger] self.data@[j]) is Some,
            decreases BLOCK_SIZE - i,
        {
            if self.data[i].is_none() {
                proof {
                    if self.used@ < i {
                        assert(self.data@[self.used@ as int] is Some);
                    }
                }
                return Some(i);
            }
            i += 1;
        }
        proof {
            if self.used@ < BLOCK_SIZE {
                assert(self.data@[self.used@ as int] is Some);
            }
        }
        None
    }

    /// Writes `record` to the first empty slot and marks the block as
    /// written to. Returns the slot, or nothing where every slot is taken.
    fn write(&mut self, record: T) -> (slot: Option<usize>)
        requires
            old(self).wf(),
        ensures
            final(self).wf(),
            match slot {
                Some(i) => i == old(self)@.records.len() && i < BLOCK_SIZE && final(self)@
                    == written(old(self)@, record),
                None => old(self)@.records.len() == BLOCK_SIZE && final(self)@ == old(self)@,
            },
    {
        match self.first_free() {
            Some(i) => {
                self.data[i] = Some(record);
                self.modified = true;
                self.used = Ghost((self.used@ + 1) as nat);
                proof {
                    assert(self@.records =~= old(self)@.records.push(record));
                }
                Some(i)
            },
            None => None,
        }
    }

    /// Counts one more read of the block.
    fn touch(&mut self)
        requires
            old(self).wf(),
        ensures
            final(self).wf(),
            final(self)@ == touched(old(self)@),
    {
        if self.access_count < u32::MAX {
            self.access_count += 1;
        }
    }

    /// The record in slot `slot_index`, if that slot is occupied.
    fn slot(&self, slot_index: usize) -> (record: Option<&T>)
        requires
            self.wf(),
        ensures
            record == (if slot_index < self@.records.len() {
                Some(&self@.records[slot_index as int])
            } else {
                None
            }),
    {
        if slot_index < BLOCK_SIZE {
            self.data[slot_index].as_ref()
        } else {
            None
        }
    }

    /// The first record, in the order of the slots, that `predicate` accepts.
    fn find<F: Fn(&T) -> bool>(&self, predicate: &F) -> (found: Option<(usize, &T)>)
        requires
            self.wf(),
            forall|record: &T| call_requires(predicate, (record,)),
        ensures
            scanned(self@.records, predicate, found),
    {
        let mut i: usize = 0;
        while i < BLOCK_SIZE
            invariant
                self.wf(),
                i <= BLOCK_SIZE,
                i <= self@.records.len(),
                forall|record: &T| call_requires(predicate, (record,)),
                forall|j: int|
                    0 <= j < i ==> call_ensures(predicate, (&#[trigger] self@.records[j],), false),
            decreases BLOCK_SIZE - i,
        {
            match self.data[i].as_ref() {
                Some(record) => {
                    if predicate(record) {
                        return Some((i, record));
                    }
                },
                None => {
                    return None;
                },
            }
            i += 1;
        }
        None
    }
}

/// A growing sequence of blocks. Records are written to the first empty slot
/// of a block and stay there: nothing is ever removed or moved.
///
/// The model of a store is the sequence of the models of its blocks.
pub struct BlockStore<T> {
    blocks: Vec<Block<T>>,
}

impl<T> View for BlockStore<T> {
    type V = Seq<BlockView<T>>;

    closed spec fn view(&self) -> Seq<BlockView<T>> {
        Seq::new(self.blocks@.len(), |i: int| self.blocks@[i]@)
    }
}

impl<T> BlockStore<T> {
    /// The invariant of the store: every block is well-formed.
    pub closed spec fn wf(&self) -> bool {
        forall|i: int| 0 <= i < self.blocks@.len() ==> (#[trigger] self.blocks@[i]).wf()
    }

    /// No block of a well-formed store holds more records than it has slots.
    pub proof fn lemma_wf_bounded(&self)
        requires
            self.wf(),
        ensures
            forall|b: int|
                0 <= b < self@.len() ==> (#[trigger] self@[b]).records.len() <= BLOCK_SIZE,
    {
    }
}

impl<T: Copy> BlockStore<T> {
    /// A store without blocks.
    pub fn new() -> (store: Self)
        ensures
            store.wf(),
            store@ == Seq::<BlockView<T>>::empty(),
    {
        BlockStore { blocks: Vec::new() }
    }

    /// The number of blocks.
    pub fn block_count(&self) -> (count: usize)
        ensures
            count == self@.len(),
    {
        self.blocks.len()
    }

    /// The first block that has an empty slot. Where every block is full, a
    /// new empty block is appended and returned.
    pub fn allocate_or_reuse_block(&mut self) -> (block_id: usize)
        requires
            old(self).wf(),
        ensures
            final(self).wf(),
            block_id < final(self)@.len(),
            final(self)@[block_id as int].records.len() < BLOCK_SIZE,
            forall|b: int|
                0 <= b < block_id ==> (#[trigger] final(self)@[b]).records.len() == BLOCK_SIZE,
            block_id < old(self)@.len() ==> final(self)@ == old(self)@,
            block_id >= old(self)@.len() ==> block_id == old(self)@.len() && final(self)@ == old(
                self,
            )@.push(empty_block()),
            block_id == first_with_room(old(self)@),
            final(self)@ == allocated(old(self)@),
    {
        let mut i: usize = 0;
        while i < self.blocks.len()
            invariant
                self.wf(),
                *self == *old(self),
                i <= self.blocks@.len(),
                forall|b: int| 0 <= b < i ==> (#[trigger] self@[b]).records.len() == BLOCK_SIZE,
            decreases self.blocks@.len() - i,
        {
            if self.blocks[i].first_free().is_some() {
                proof {
                    lemma_first_with_room_is(self@, i as int);
                }
                return i;
            }
            i += 1;
        }
        proof {
            lemma_first_with_room_is(self@, i as int);
        }
        self.blocks.push(Block::new());
        proof {
            assert(self@ =~= old(self)@.push(empty_block()));
        }
        i
    }

    /// Writes `record` to the first empty slot of block `block_id` and marks
    /// the block as written to. A block that has no empty slot, or does not
    /// exist, takes nothing.
    pub fn put(&mut self, block_id: usize, record: T) -> (result: Result<usize, StorageError>)
        requires
            old(self).wf(),
        ensures
            final(self).wf(),
            match result {
                Ok(slot) => {
                    &&& block_id < old(self)@.len()
                    &&& slot == old(self)@[block_id as int].records.len()
                    &&& slot < BLOCK_SIZE
                    &&& final(self)@ == old(self)@.update(
                        block_id as int,
                        written(old(self)@[block_id as int], record),
                    )
                },
                Err(e) => {
                    &&& e == StorageError::StorageFull
                    &&& block_id >= old(self)@.len() || old(self)@[block_id as int].records.len()
                        == BLOCK_SIZE
                    &&& final(self)@ == old(self)@
                },
            },
    {
        if block_id >= self.blocks.len() {
            return Err(StorageError::StorageFull);
        }
        let slot = self.blocks[block_id].write(record);
        match slot {
            Some(slot) => Ok(slot),
            None => Err(StorageError::StorageFull),
        }
    }

    /// Reads the occupied slots of block `block_id` in the order in which
    /// they were written and returns the first record that `predicate`
    /// accepts, with its slot. The read is counted on the block.
    pub fn scan<F: Fn(&T) -> bool>(&mut self, block_id: usize, predicate: F) -> (found: Option<
        (usize, &T),
    >)
        requires
            old(self).wf(),
            forall|record: &T| call_requires(&predicate, (record,)),
        ensures
            final(self).wf(),
            final(self)@ == after_read(old(self)@, block_id),
            block_id < old(self)@.len() ==> scanned(
                old(self)@[block_id as int].records,
                &predicate,
                found,
            ),
            block_id >= old(self)@.len() ==> found is None,
    {
        if block_id >= self.blocks.len() {
            return None;
        }
        self.blocks[block_id].touch();
        self.blocks[block_id].find(&predicate)
    }

    /// The record in slot `slot_index` of block `block_id`, if there is such
    /// a slot and it is occupied. The read is counted on the block.
    pub fn get_slot(&mut self, block_id: usize, slot_index: usize) -> (record: Option<&T>)
        requires
            old(self).wf(),
        ensures
            final(self).wf(),
            final(self)@ == after_read(old(self)@, block_id),
            record == (if block_id < old(self)@.len() && slot_index < old(
                self,
            )@[block_id as int].records.len() {
                Some(&old(self)@[block_id as int].records[slot_index as int])
            } else {
                None
            }),
    {
        if block_id >= self.blocks.len() {
            return None;
        }
        self.blocks[block_id].touch();
        self.blocks[block_id].slot(slot_index)
    }
}

/// A block that has room while all the blocks before it are full is the
/// first block with room; so is the number of blocks where all are full.
pub proof fn lemma_first_with_room_is<T>(blocks: Seq<BlockView<T>>, candidate: int)
    requires
        0 <= candidate <= blocks.len(),
        forall|b: int| 0 <= b < candidate ==> (#[trigger] blocks[b]).records.len() >= BLOCK_SIZE,
        candidate < blocks.len() ==> blocks[candidate].records.len() < BLOCK_SIZE,
    ensures
        first_with_room(blocks) == candidate,
    decreases blocks.len(),
{
    if blocks.len() > 0 && candidate > 0 {
        let rest = blocks.drop_first();
        lemma_first_with_room_is(rest, candidate - 1);
    }
}

/// Records that fill an empty store one after the other lie in it in their
/// order, a block's worth per block: the record with number `i` is in block
/// `i / BLOCK_SIZE` at slot `i % BLOCK_SIZE`, and there are just as many
/// blocks as that takes.
pub proof fn lemma_filled_layout<T>(records: Seq<T>)
    ensures
        filled(records).len() == (records.len() + BLOCK_SIZE - 1) / (BLOCK_SIZE as int),
        forall|b: int|
            0 <= b < filled(records).len() ==> (#[trigger] filled(records)[b]).records
                == records.subrange(
                b * BLOCK_SIZE,
                if (b + 1) * BLOCK_SIZE <= records.len() {
                    (b + 1) * BLOCK_SIZE
                } else {
                    records.len() as int
                },
            ),
    decreases records.len(),
{
    let n = records.len() as int;
    let size = BLOCK_SIZE as int;
    if n > 0 {
        let earlier = records.drop_last();
        lemma_filled_layout(earlier);
        let before = filled(earlier);
        let target = (n - 1) / size;
        lemma_first_with_room_is(before, target);
    }
}

/// One record more than a block holds forces a second block: the first block
/// holds the first `BLOCK_SIZE` records, and the last record lies alone in
/// the second block, where no read of the first block finds it.
pub proof fn lemma_overflow_opens_second_block<T>(records: Seq<T>)
    requires
        records.len() == BLOCK_SIZE + 1,
    ensures
        filled(records.drop_last()).len() == 1,
        filled(records).len() == 2,
        filled(records)[0].records == records.take(BLOCK_SIZE as int),
        filled(records)[1].records == seq![records[BLOCK_SIZE as int]],
{
    lemma_filled_layout(records);
    lemma_filled_layout(records.drop_last());
    assert(records.drop_last().len() == BLOCK_SIZE);
}

/// A slot that was written keeps its record for good: neither an allocation,
/// nor the writing of another record, nor a read changes what it holds.
pub proof fn lemma_slots_keep_records<T>(
    blocks: Seq<BlockView<T>>,
    block_id: usize,
    record: T,
    b: int,
    slot: int,
)
    requires
        0 <= b < blocks.len(),
        0 <= slot < blocks[b].records.len(),
    ensures
        allocated(blocks)[b].records[slot] == blocks[b].records[slot],
        after_read(blocks, block_id)[b].records[slot] == blocks[b].records[slot],
        block_id < blocks.len() ==> blocks.update(
            block_id as int,
            written(blocks[block_id as int], record),
        )[b].records[slot] == blocks[b].records[slot],
        b < stored(blocks, record).len(),
        stored(blocks, record)[b].records[slot] == blocks[b].records[slot],
{
    lemma_first_with_room_bounds(blocks);
}

/// The first block with room is a block, or the number of blocks.
pub proof fn lemma_first_with_room_bounds<T>(blocks: Seq<BlockView<T>>)
    ensures
        0 <= first_with_room(blocks) <= blocks.len(),
    decreases blocks.len(),
{
    if blocks.len() > 0 {
        lemma_first_with_room_bounds(blocks.drop_first());
    }
}

/// Whether `location` names an occupied slot of `blocks`.
pub open spec fn taken(blocks: Seq<BlockView<CompactCourseInfo>>, location: Location) -> bool {
    &&& location.block_id < blocks.len()
    &&& location.slot_index < blocks[location.block_id as int].records.len()
}

/// The compact record at `location`.
pub open spec fn record_at(
    blocks: Seq<BlockView<CompactCourseInfo>>,
    location: Location,
) -> CompactCourseInfo {
    blocks[location.block_id as int].records[location.slot_index as int]
}

/// The hydrated record that the compact record at `location` stands for.
pub open spec fn hydrated_at(
    blocks: Seq<BlockView<CompactCourseInfo>>,
    strings: Seq<Seq<char>>,
    location: Location,
) -> CourseInfoView {
    record_at(blocks, location).rehydrated(strings)
}

/// The slot that the next record is written to: the first empty slot of the
/// first block that has one, or the first slot of a new block.
pub open spec fn next_location<T>(blocks: Seq<BlockView<T>>) -> Location {
    Location {
        block_id: first_with_room(blocks) as usize,
        slot_index: allocated(blocks)[first_with_room(blocks)].records.len() as usize,
    }
}

/// The strings of a record that an insertion interns, in the order in which
/// it does so: the name, the department, and then the others.
pub open spec fn record_texts(course: CourseInfoView) -> Seq<Seq<char>> {
    seq![course.course_name, course.department] + interned_texts(course)
}

/// The model of a cached record.
pub open spec fn record_view(course: CourseInfo) -> CourseInfoView {
    course@
}

/// The cache list after the record at `location` was fetched: a cached
/// record becomes the most recently used one, and one that is not cached
/// enters the cache as its slot stands for it.
pub open spec fn cache_after_fetch(
    cached: Seq<(Location, CourseInfoView)>,
    blocks: Seq<BlockView<CompactCourseInfo>>,
    strings: Seq<Seq<char>>,
    location: Location,
) -> Seq<(Location, CourseInfoView)> {
    match position_of(cached, location) {
        Some(i) => promoted(cached, i),
        None => after_insert(
            cached,
            location,
            hydrated_at(blocks, strings, location),
            CACHE_CAPACITY as nat,
        ),
    }
}

/// The blocks after the record at `location` was fetched: only a record that
/// is not cached is read from its block.
pub open spec fn blocks_after_fetch(
    cached: Seq<(Location, CourseInfoView)>,
    blocks: Seq<BlockView<CompactCourseInfo>>,
    location: Location,
) -> Seq<BlockView<CompactCourseInfo>> {
    match position_of(cached, location) {
        Some(_) => blocks,
        None => after_read(blocks, location.block_id),
    }
}

/// A cache entry is right when it holds what its slot stands for.
spec fn cache_entry_ok(
    blocks: Seq<BlockView<CompactCourseInfo>>,
    strings: Seq<Seq<char>>,
    entry: (Location, CourseInfo),
) -> bool {
    &&& taken(blocks, entry.0)
    &&& entry.1@ == hydrated_at(blocks, strings, entry.0)
}

/// The parts of a storage agree: the ids of every stored record name
/// strings, every index entry leads to a record with that key, and every
/// cache entry holds what its slot stands for.
spec fn coherent(
    blocks: Seq<BlockView<CompactCourseInfo>>,
    strings: Seq<Seq<char>>,
    codes: Map<u32, Location>,
    ids: Map<Seq<char>, Location>,
    cached: Seq<(Location, CourseInfo)>,
) -> bool {
    &&& forall|location: Location| #[trigger]
        taken(blocks, location) ==> record_at(blocks, location).ids_within(strings)
    &&& forall|code: u32| #[trigger]
        codes.contains_key(code) ==> taken(blocks, codes[code]) && record_at(
            blocks,
            codes[code],
        ).course_code == code
    &&& forall|id: Seq<char>| #[trigger]
        ids.contains_key(id) ==> taken(blocks, ids[id]) && hydrated_at(
            blocks,
            strings,
            ids[id],
        ).unique_id == id
    &&& forall|entry: (Location, CourseInfo)|
        cached.contains(entry) ==> #[trigger] cache_entry_ok(blocks, strings, entry)
}

/// Blocks that only gained records and blocks, and strings that only gained
/// strings, keep every slot and what it stands for.
spec fn grown(
    blocks0: Seq<BlockView<CompactCourseInfo>>,
    strings0: Seq<Seq<char>>,
    blocks1: Seq<BlockView<CompactCourseInfo>>,
    strings1: Seq<Seq<char>>,
) -> bool {
    &&& strings0.len() <= strings1.len()
    &&& forall|i: int| 0 <= i < strings0.len() ==> #[trigger] strings1[i] == strings0[i]
    &&& forall|location: Location| #[trigger]
        taken(blocks0, location) ==> taken(blocks1, location) && record_at(blocks1, location)
            == record_at(blocks0, location)
}

/// What was coherent stays so when blocks and strings only grow, the indexes
/// stay and the cache keeps a part of its entries.
proof fn lemma_coherent_grown(
    blocks0: Seq<BlockView<CompactCourseInfo>>,
    strings0: Seq<Seq<char>>,
    blocks1: Seq<BlockView<CompactCourseInfo>>,
    strings1: Seq<Seq<char>>,
    codes: Map<u32, Location>,
    ids: Map<Seq<char>, Location>,
    cached: Seq<(Location, CourseInfo)>,
)
    requires
        coherent(blocks0, strings0, codes, ids, cached),
        grown(blocks0, strings0, blocks1, strings1),
    ensures
        forall|location: Location| #[trigger]
            taken(blocks0, location) ==> record_at(blocks1, location).ids_within(strings1)
                && hydrated_at(blocks1, strings1, location) == hydrated_at(
                blocks0,
                strings0,
                location,
            ),
        forall|code: u32| #[trigger]
            codes.contains_key(code) ==> taken(blocks1, codes[code]) && record_at(
                blocks1,
                codes[code],
            ).course_code == code,
        forall|id: Seq<char>| #[trigger]
            ids.contains_key(id) ==> taken(blocks1, ids[id]) && hydrated_at(
                blocks1,
                strings1,
                ids[id],
            ).unique_id == id,
        forall|entry: (Location, CourseInfo)|
            cached.contains(entry) ==> #[trigger] cache_entry_ok(blocks1, strings1, entry),
{
    assert forall|entry: (Location, CourseInfo)| cached.contains(entry) implies #[trigger]
        cache_entry_ok(blocks1, strings1, entry) by {
        assert(cache_entry_ok(blocks0, strings0, entry));
    }
}

/// Keeps course records compactly and finds them again by packed code and by
/// unique id.
///
/// A record is compacted against the string interner, written to the next
/// free slot of the block store, and entered in both indexes under its
/// location. Reads go through a cache of hydrated records.
///
/// The model of a storage has five parts: the interner's strings, the
/// blocks, the two indexes from key to location, and the cache list. What a
/// lookup of a key returns, `by_code` and `by_id`, follows from them.
pub struct CourseStorage {
    blocks: BlockStore<CompactCourseInfo>,
    string_interner: StringInterner,
    code_index: CustomHashMap<u32, Location>,
    id_index: CustomHashMap<String, Location>,
    cache: CustomLruCache<Location, CourseInfo>,
}

impl CourseStorage {
    /// The strings that the interner has registered, in the order of their
    /// ids.
    pub closed spec fn strings(&self) -> Seq<Seq<char>> {
        self.string_interner@
    }

    /// The blocks with the compact records.
    pub closed spec fn blocks(&self) -> Seq<BlockView<CompactCourseInfo>> {
        self.blocks@
    }

    /// The location that each packed code leads to.
    pub closed spec fn code_index(&self) -> Map<u32, Location> {
        self.code_index@
    }

    /// The location that each unique id leads to.
    pub closed spec fn id_index(&self) -> Map<Seq<char>, Location> {
        self.id_index@
    }

    /// The cache list: the cached records with their locations, the most
    /// recently used one first.
    pub closed spec fn cached(&self) -> Seq<(Location, CourseInfoView)> {
        with_values(self.cache@, |course: CourseInfo| record_view(course))
    }

    /// The record that a lookup of each packed code returns.
    pub open spec fn by_code(&self) -> Map<u32, CourseInfoView> {
        Map::new(
            |code: u32| self.code_index().contains_key(code),
            |code: u32| hydrated_at(self.blocks(), self.strings(), self.code_index()[code]),
        )
    }

    /// The record that a lookup of each unique id returns.
    pub open spec fn by_id(&self) -> Map<Seq<char>, CourseInfoView> {
        Map::new(
            |id: Seq<char>| self.id_index().contains_key(id),
            |id: Seq<char>| hydrated_at(self.blocks(), self.strings(), self.id_index()[id]),
        )
    }

    /// The number of distinct strings that the storage has registered.
    pub open spec fn interned_count(&self) -> nat {
        self.strings().len()
    }

    /// The invariant of the storage: every part is well-formed, and the
    /// parts agree.
    pub closed spec fn wf(&self) -> bool {
        &&& self.blocks.wf()
        &&& self.string_interner.wf()
        &&& self.code_index.wf()
        &&& self.id_index.wf()
        &&& self.cache.wf()
        &&& self.cache.spec_capacity() == CACHE_CAPACITY
        &&& coherent(
            self.blocks@,
            self.string_interner@,
            self.code_index@,
            self.id_index@,
            self.cache@,
        )
    }

    /// Whether one more record fits: the interner can name its strings in
    /// 32 bits, and the sizes of both indexes stay within the machine's word.
    pub open spec fn spec_has_room(&self) -> bool {
        &&& self.interned_count() + STRINGS_PER_RECORD <= u32::MAX
        &&& self.code_index().len() < usize::MAX
        &&& self.id_index().len() < usize::MAX
    }

    /// In a well-formed storage, every index entry leads to an occupied slot
    /// whose record carries that key, every cached record is what its slot
    /// stands for, no location is cached twice, and both indexes are finite.
    pub proof fn lemma_wf_model(&self)
        requires
            self.wf(),
        ensures
            self.code_index().dom().finite(),
            self.id_index().dom().finite(),
            self.by_code().dom() == self.code_index().dom(),
            self.by_id().dom() == self.id_index().dom(),
            self.strings().no_duplicates(),
            forall|code: u32| #[trigger]
                self.code_index().contains_key(code) ==> taken(
                    self.blocks(),
                    self.code_index()[code],
                ) && self.by_code()[code].packed_code == code,
            forall|id: Seq<char>| #[trigger]
                self.id_index().contains_key(id) ==> taken(self.blocks(), self.id_index()[id])
                    && self.by_id()[id].unique_id == id,
            distinct_keys(self.cached()),
            self.cached().len() <= CACHE_CAPACITY,
            forall|i: int|
                0 <= i < self.cached().len() ==> taken(
                    self.blocks(),
                    (#[trigger] self.cached()[i]).0,
                ) && self.cached()[i].1 == hydrated_at(
                    self.blocks(),
                    self.strings(),
                    self.cached()[i].0,
                ),
    {
        self.code_index.lemma_wf_finite();
        self.id_index.lemma_wf_finite();
        self.string_interner.lemma_wf_model();
        self.cache.lemma_wf_model();
        assert forall|i: int| 0 <= i < self.cached().len() implies taken(
            self.blocks(),
            (#[trigger] self.cached()[i]).0,
        ) && self.cached()[i].1 == hydrated_at(
            self.blocks(),
            self.strings(),
            self.cached()[i].0,
        ) by {
            assert(cache_entry_ok(self.blocks@, self.string_interner@, self.cache@[i]));
        }
    }

    /// An empty storage. It grows on demand, whatever `capacity` is.
    pub fn new(capacity: usize) -> (storage: Self)
        ensures
            storage.wf(),
            storage.strings() == Seq::<Seq<char>>::empty(),
            storage.blocks() == Seq::<BlockView<CompactCourseInfo>>::empty(),
            storage.code_index() == Map::<u32, Location>::empty(),
            storage.id_index() == Map::<Seq<char>, Location>::empty(),
            storage.cached() == Seq::<(Location, CourseInfoView)>::empty(),
            storage.by_code() == Map::<u32, CourseInfoView>::empty(),
            storage.by_id() == Map::<Seq<char>, CourseInfoView>::empty(),
            storage.spec_has_room(),
    {
        CourseStorage {
            blocks: BlockStore::new(),
            string_interner: StringInterner::new(),
            code_index: CustomHashMap::new(),
            id_index: CustomHashMap::new(),
            cache: CustomLruCache::new(CACHE_CAPACITY),
        }
    }

    /// Whether one more record fits.
    #[verifier::when_used_as_spec(spec_has_room)]
    pub fn has_room(&self) -> (room: bool)
        requires
            self.wf(),
        ensures
            room == self.spec_has_room(),
    {
        self.string_interner.len() <= (u32::MAX - STRINGS_PER_RECORD) as usize
            && self.code_index.len() < usize::MAX && self.id_index.len() < usize::MAX
    }

    /// Stores `course`: its strings are interned, the name and the
    /// department first; its compact form is written to the next free slot;
    /// both indexes lead from its keys to that slot from now on; and the
    /// record enters the cache as the most recently used one.
    ///
    /// From now on a lookup of its packed code, and one of its unique id,
    /// return it; what other keys lead to does not change. A slot that one
    /// of its keys led to before stays as it is.
    pub fn insert(&mut self, course: CourseInfo)
        requires
            old(self).wf(),
            old(self).spec_has_room(),
        ensures
            final(self).wf(),
            final(self).strings() == interned_all(old(self).strings(), record_texts(course@)),
            final(self).blocks() == stored(
                old(self).blocks(),
                compact_of(course@, final(self).strings()),
            ),
            final(self).code_index() == old(self).code_index().insert(
                course.packed_code,
                next_location(old(self).blocks()),
            ),
            final(self).id_index() == old(self).id_index().insert(
                course.unique_id@,
                next_location(old(self).blocks()),
            ),
            final(self).cached() == after_insert(
                old(self).cached(),
                next_location(old(self).blocks()),
                course@,
                CACHE_CAPACITY as nat,
            ),
            final(self).by_code() == old(self).by_code().insert(course.packed_code, course@),
            final(self).by_id() == old(self).by_id().insert(course.unique_id@, course@),
            final(self).by_code().get(course.packed_code) == Some(course@),
            final(self).by_id().get(course.unique_id@) == Some(course@),
            final(self).interned_count() <= old(self).interned_count() + STRINGS_PER_RECORD,
    {
        let ghost blocks0 = self.blocks@;
        let ghost strings0 = self.string_interner@;
        let ghost codes0 = self.code_index@;
        let ghost ids0 = self.id_index@;
        let ghost cached0 = self.cache@;
        let ghost texts = record_texts(course@);
        proof {
            self.cache.lemma_wf_model();
            lemma_interned_all_none(strings0);
            assert(texts.take(0) =~= Seq::<Seq<char>>::empty());
            lemma_interned_all_step(strings0, texts, 0);
            lemma_interned_all_step(strings0, texts, 1);
            assert(texts.take(2) =~= seq![course.course_name@, course.department@]);
            lemma_interned_all_split(
                strings0,
                seq![course.course_name@, course.department@],
                interned_texts(course@),
            );
        }
        let name_id = self.string_interner.intern(course.course_name.clone());
        let dept_id = self.string_interner.intern(course.department.clone());
        let compact = CompactCourseInfo::from_course_info(
            &course,
            name_id,
            dept_id,
            &mut self.string_interner,
        );
        let ghost strings1 = self.string_interner@;
        let block_id = self.blocks.allocate_or_reuse_block();
        let slot_index = self.blocks.put(block_id, compact).unwrap();
        let location = Location { block_id, slot_index };
        let ghost blocks1 = self.blocks@;
        proof {
            lemma_coherent_grown(blocks0, strings0, blocks1, strings1, codes0, ids0, cached0);
            assert forall|place: Location| #[trigger] taken(blocks1, place) implies record_at(
                blocks1,
                place,
            ).ids_within(strings1) by {
                if place != location {
                    assert(taken(blocks0, place));
                }
            }
        }
        self.code_index.insert(compact.course_code, location);
        self.id_index.insert(course.unique_id.clone(), location);
        let ghost stored_record = course;
        proof {
            lemma_with_values_commutes(
                cached0,
                |course: CourseInfo| record_view(course),
                location,
                stored_record,
                CACHE_CAPACITY as nat,
            );
        }
        self.cache.insert(location, course);
    }

    /// The record stored under the packed code `code`, if there is one. The
    /// index leads to its location; a cached record is copied and becomes
    /// the most recently used one; one that is not cached is read from its
    /// slot, rehydrated, and enters the cache.
    pub fn get_by_code(&mut self, code: u32) -> (found: Option<CourseInfo>)
        requires
            old(self).wf(),
        ensures
            final(self).wf(),
            final(self).strings() == old(self).strings(),
            final(self).code_index() == old(self).code_index(),
            final(self).id_index() == old(self).id_index(),
            final(self).by_code() == old(self).by_code(),
            final(self).by_id() == old(self).by_id(),
            match old(self).code_index().get(code) {
                Some(location) => {
                    &&& found matches Some(course)
                    &&& course@ == old(self).by_code()[code]
                    &&& final(self).cached() == cache_after_fetch(
                        old(self).cached(),
                        old(self).blocks(),
                        old(self).strings(),
                        location,
                    )
                    &&& final(self).blocks() == blocks_after_fetch(
                        old(self).cached(),
                        old(self).blocks(),
                        location,
                    )
                },
                None => {
                    &&& found is None
                    &&& final(self).cached() == old(self).cached()
                    &&& final(self).blocks() == old(self).blocks()
                },
            },
    {
        let location = self.code_index.get(code)?;
        let found = self.fetch(location);
        Some(found)
    }

    /// The record stored under the unique id `id`, if there is one. The
    /// index leads to its location; a cached record is copied and becomes
    /// the most recently used one; one that is not cached is read from its
    /// slot, rehydrated, and enters the cache.
    pub fn get_by_id(&mut self, id: &str) -> (found: Option<CourseInfo>)
        requires
            old(self).wf(),
        ensures
            final(self).wf(),
            final(self).strings() == old(self).strings(),
            final(self).code_index() == old(self).code_index(),
            final(self).id_index() == old(self).id_index(),
            final(self).by_code() == old(self).by_code(),
            final(self).by_id() == old(self).by_id(),
            match old(self).id_index().get(id@) {
                Some(location) => {
                    &&& found matches Some(course)
                    &&& course@ == old(self).by_id()[id@]
                    &&& final(self).cached() == cache_after_fetch(
                        old(self).cached(),
                        old(self).blocks(),
                        old(self).strings(),
                        location,
                    )
                    &&& final(self).blocks() == blocks_after_fetch(
                        old(self).cached(),
                        old(self).blocks(),
                        location,
                    )
                },
                None => {
                    &&& found is None
                    &&& final(self).cached() == old(self).cached()
                    &&& final(self).blocks() == old(self).blocks()
                },
            },
    {
        let location = self.id_index.get(id.to_owned())?;
        let found = self.fetch(location);
        Some(found)
    }

    /// The hydrated record at `location`: a copy of the cached one, or, on a
    /// miss, the slot's compact record rehydrated, which then enters the
    /// cache.
    fn fetch(&mut self, location: Location) -> (course: CourseInfo)
        requires
            old(self).wf(),
            taken(old(self).blocks(), location),
        ensures
            final(self).wf(),
            final(self).strings() == old(self).strings(),
            final(self).code_index() == old(self).code_index(),
            final(self).id_index() == old(self).id_index(),
            final(self).by_code() == old(self).by_code(),
            final(self).by_id() == old(self).by_id(),
            course@ == hydrated_at(old(self).blocks(), old(self).strings(), location),
            final(self).cached() == cache_after_fetch(
                old(self).cached(),
                old(self).blocks(),
                old(self).strings(),
                location,
            ),
            final(self).blocks() == blocks_after_fetch(
                old(self).cached(),
                old(self).blocks(),
                location,
            ),
    {
        let ghost blocks0 = self.blocks@;
        let ghost strings = self.string_interner@;
        let ghost cached0 = self.cache@;
        let ghost as_view = |course: CourseInfo| record_view(course);
        proof {
            self.cache.lemma_wf_model();
        }
        if let Some(course) = self.cache.get(&location) {
            proof {
                let i = position_of(cached0, location).unwrap();
                assert(cache_entry_ok(blocks0, strings, cached0[i]));
            }
            let copy = course.clone();
            proof {
                lemma_with_values_commutes(
                    cached0,
                    as_view,
                    location,
                    copy,
                    CACHE_CAPACITY as nat,
                );
            }
            return copy;
        }
        let compact = *self.blocks.get_slot(location.block_id, location.slot_index).unwrap();
        let ghost blocks1 = self.blocks@;
        proof {
            assert forall|place: Location| #[trigger] taken(blocks1, place) implies taken(
                blocks0,
                place,
            ) by {}
            lemma_coherent_grown(
                blocks0,
                strings,
                blocks1,
                strings,
                self.code_index@,
                self.id_index@,
                cached0,
            );
        }
        let course = compact.to_course_info(&self.string_interner).unwrap();
        let copy = course.clone();
        self.cache.insert(location, copy);
        course
    }
}

/// A record that was stored is found again under both of its keys, equal in
/// every field, whatever the storage held before.
pub proof fn lemma_stored_is_found(
    by_code: Map<u32, CourseInfoView>,
    by_id: Map<Seq<char>, CourseInfoView>,
    record: CourseInfoView,
)
    ensures
        by_code.insert(record.packed_code, record).get(record.packed_code) == Some(record),
        by_id.insert(record.unique_id, record).get(record.unique_id) == Some(record),
{
}

} // verus!
