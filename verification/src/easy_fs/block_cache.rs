//! Blocks of the device kept in memory, written back late.

use std::collections::VecDeque;
use vstd::prelude::*;

use super::block_dev::{whole_blocks, BlockDevice, BLOCK_SZ};
use super::codec::DiskLayout;
use crate::bytes::same_outside;

verus! {

/// The copy of one block in memory.
pub struct BlockCache {
    cache: [u8; BLOCK_SZ],
    block_id: usize,
    modified: bool,
}

impl BlockCache {
    /// The bytes as they stand in memory.
    pub closed spec fn data(&self) -> Seq<u8> {
        self.cache@
    }

    /// The number of the block on the device.
    pub closed spec fn id(&self) -> int {
        self.block_id as int
    }

    /// The copy may differ from the device.
    pub closed spec fn dirty(&self) -> bool {
        self.modified
    }

    /// Loads a block from the device; the fresh copy is clean.
    pub fn new<D: BlockDevice>(block_id: usize, block_device: &D) -> (r: Self)
        requires
            block_device.contents().dom().contains(block_id as int),
        ensures
            r.data() == block_device.contents()[block_id as int],
            r.id() == block_id,
            !r.dirty(),
    {
        let mut cache: [u8; BLOCK_SZ] = [0u8; BLOCK_SZ];
        block_device.read_block(block_id, &mut cache);
        BlockCache { cache, block_id, modified: false }
    }

    /// The value of type `T` at byte `offset`.
    pub fn get_ref<T: DiskLayout>(&self, offset: usize) -> (r: T)
        requires
            offset + T::layout_size() <= BLOCK_SZ,
        ensures
            r.stored_in(self.data().subrange(offset as int, offset + T::layout_size())),
    {
        T::load(&self.cache, offset)
    }

    /// The value of type `T` at byte `offset`, handed out to be changed and `put` back: whatever
    /// then happens to it, the copy counts as modified from here on.
    pub fn get_mut<T: DiskLayout>(&mut self, offset: usize) -> (r: T)
        requires
            offset + T::layout_size() <= BLOCK_SZ,
        ensures
            r.stored_in(old(self).data().subrange(offset as int, offset + T::layout_size())),
            final(self).data() == old(self).data(),
            handed_out(old(self), final(self)),
    {
        self.modified = true;
        T::load(&self.cache, offset)
    }

    /// Puts a value at byte `offset`.
    pub fn put<T: DiskLayout>(&mut self, offset: usize, value: &T)
        requires
            offset + T::layout_size() <= BLOCK_SZ,
        ensures
            value.stored_in(final(self).data().subrange(offset as int, offset + T::layout_size())),
            same_outside(
                old(self).data(),
                final(self).data(),
                offset as int,
                offset + T::layout_size(),
            ),
            handed_out(old(self), final(self)),
    {
        self.modified = true;
        value.store(&mut self.cache, offset);
    }

    /// Lets `f` look at the value of type `T` at byte `offset` and returns what it says.
    pub fn read<T: DiskLayout, V>(&self, offset: usize, f: impl FnOnce(&T) -> V) -> (r: V)
        requires
            offset + T::layout_size() <= BLOCK_SZ,
            forall|t: &T|
                t.stored_in(self.data().subrange(offset as int, offset + T::layout_size()))
                    ==> call_requires(f, (t,)),
        ensures
            exists|t: &T|
                t.stored_in(self.data().subrange(offset as int, offset + T::layout_size()))
                    && call_ensures(f, (t,), r),
    {
        let t: T = self.get_ref(offset);
        f(&t)
    }

    /// Lets `f` change the value of type `T` at byte `offset` and returns what it says.
    pub fn modify<T: DiskLayout, V>(&mut self, offset: usize, f: impl FnOnce(&mut T) -> V) -> (r: V)
        requires
            offset + T::layout_size() <= BLOCK_SZ,
            forall|m: &mut T|
                (*m).stored_in(old(self).data().subrange(offset as int, offset + T::layout_size()))
                    ==> call_requires(f, (m,)),
        ensures
            exists|m: &mut T|
                (*m).stored_in(old(self).data().subrange(offset as int, offset + T::layout_size()))
                    && call_ensures(f, (m,), r) && (*final(m)).stored_in(
                    final(self).data().subrange(offset as int, offset + T::layout_size()),
                ),
            same_outside(
                old(self).data(),
                final(self).data(),
                offset as int,
                offset + T::layout_size(),
            ),
            handed_out(old(self), final(self)),
    {
        let mut t: T = self.get_mut(offset);
        let r: V = f(&mut t);
        self.put(offset, &t);
        r
    }

    /// Writes the copy back to the device if it was modified, by one call of `write_block`.
    pub fn sync<D: BlockDevice>(&mut self, block_device: &mut D)
        requires
            old(block_device).contents().dom().contains(old(self).id()),
        ensures
            synced_to(old(self), final(self), old(block_device), final(block_device)),
            old(self).dirty() ==> exists|m: &mut D, buf: &[u8; BLOCK_SZ]|
                #![trigger call_ensures(D::write_block, (m, old(self).id() as usize, buf), ())]
                *m == *old(block_device) && *final(m) == *final(block_device) && buf@ == old(
                    self,
                ).data() && call_ensures(D::write_block, (m, old(self).id() as usize, buf), ()),
    {
        if self.modified {
            self.modified = false;
            let ghost d0 = *block_device;
            write_by(D::write_block, self.block_id, &self.cache, block_device);
            proof {
                let m = choose|m: &mut D|
                    *m == d0 && *final(m) == *block_device && call_ensures(
                        D::write_block,
                        (m, self.block_id, &self.cache),
                        (),
                    );
                assert(call_ensures(
                    D::write_block,
                    (m, old(self).id() as usize, &self.cache),
                    (),
                ));
            }
        }
    }
}

/// Writes a block to a device by one call of `write`.
fn write_by<D, F: FnOnce(&mut D, usize, &[u8; BLOCK_SZ])>(
    write: F,
    block_id: usize,
    buf: &[u8; BLOCK_SZ],
    device: &mut D,
)
    requires
        forall|m: &mut D| *m == *old(device) ==> call_requires(write, (m, block_id, buf)),
    ensures
        exists|m: &mut D|
            *m == *old(device) && *final(m) == *final(device) && call_ensures(
                write,
                (m, block_id, buf),
                (),
            ),
{
    write(device, block_id, buf)
}

/// The copy was handed out for change: it counts as modified, whatever became of its bytes.
pub open spec fn handed_out(c0: &BlockCache, c1: &BlockCache) -> bool {
    &&& c1.id() == c0.id()
    &&& c1.dirty()
}

/// What a sync does: a copy that was handed out for change is written to the device, and one that was
/// not leaves the device alone. The copy stays as it is and does not count as modified any more.
pub open spec fn synced_to<D: BlockDevice>(
    c0: &BlockCache,
    c1: &BlockCache,
    d0: &D,
    d1: &D,
) -> bool {
    &&& c1.data() == c0.data()
    &&& c1.id() == c0.id()
    &&& !c1.dirty()
    &&& if c0.dirty() {
        d1.contents() == d0.contents().insert(c0.id(), c0.data())
    } else {
        *d1 == *d0
    }
}

/// How many blocks are kept in memory at most.
pub const BLOCK_CACHE_SIZE: usize = 16;

/// A place in the manager's queue: a cached block and the number of users that hold it.
struct CacheSlot {
    cache: BlockCache,
    holders: usize,
}

/// What a place in the queue means.
pub struct SlotView {
    pub block_id: int,
    pub holders: nat,
    pub modified: bool,
    pub data: Seq<u8>,
}

/// Some place holds block `b`.
pub open spec fn holds(slots: Seq<SlotView>, b: int) -> bool {
    exists|i: int| 0 <= i < slots.len() && #[trigger] slots[i].block_id == b
}

/// The place that holds block `b`.
pub open spec fn place_of(slots: Seq<SlotView>, b: int) -> int {
    choose|i: int| 0 <= i < slots.len() && #[trigger] slots[i].block_id == b
}

/// `i` is the oldest place that nobody holds.
pub open spec fn is_victim(slots: Seq<SlotView>, i: int) -> bool {
    &&& 0 <= i < slots.len()
    &&& slots[i].holders == 0
    &&& forall|j: int| 0 <= j < i ==> #[trigger] slots[j].holders > 0
}

/// The oldest place that nobody holds.
pub open spec fn victim(slots: Seq<SlotView>) -> int {
    choose|i: int| is_victim(slots, i)
}

/// What a reader sees of block `b`: the copy in memory where there is one.
pub open spec fn seen(slots: Seq<SlotView>, device: Map<int, Seq<u8>>, b: int) -> Seq<u8> {
    if holds(slots, b) {
        slots[place_of(slots, b)].data
    } else {
        device[b]
    }
}

/// The device after a place left the queue: a modified copy is written back.
pub open spec fn written_back(device: Map<int, Seq<u8>>, slot: SlotView) -> Map<int, Seq<u8>> {
    if slot.modified {
        device.insert(slot.block_id, slot.data)
    } else {
        device
    }
}

/// Block `b` can be taken hold of without a change of the device: it is in the queue, there is room
/// for it, or the block that has to leave for it is not modified.
pub open spec fn leaves_device_alone(slots: Seq<SlotView>, b: int) -> bool {
    holds(slots, b) || slots.len() < BLOCK_CACHE_SIZE || !slots[victim(slots)].modified
}

/// The place of a block that was just loaded and is held once.
pub open spec fn fresh_slot(device: Map<int, Seq<u8>>, b: int) -> SlotView {
    SlotView { block_id: b, holders: 1, modified: false, data: device[b] }
}

/// How many users hold block `b`.
pub open spec fn holders_of(slots: Seq<SlotView>, b: int) -> nat {
    if holds(slots, b) {
        slots[place_of(slots, b)].holders
    } else {
        0
    }
}

/// Block `b` was taken hold of. A block that was in the queue stays in its place, with one more user.
/// Otherwise it was loaded to the end of the queue; where the queue was full, the oldest block that
/// nobody held has left it, and was written back if it was modified. The device is as before but for
/// that.
pub open spec fn got<D: BlockDevice>(
    m0: &BlockCacheManager<D>,
    m1: &BlockCacheManager<D>,
    b: int,
) -> bool {
    let slots = m0.slots();
    let p = place_of(slots, b);
    let fresh = fresh_slot(m0.device_contents(), b);
    &&& m1.slots() == (if holds(slots, b) {
        slots.update(p, (SlotView { holders: slots[p].holders + 1, ..slots[p] }))
    } else if slots.len() < BLOCK_CACHE_SIZE {
        slots.push(fresh)
    } else {
        slots.remove(victim(slots)).push(fresh)
    })
    &&& device_after(m0, m1, b)
}

/// One user let go of block `b`; nothing else has changed.
pub open spec fn let_go<D: BlockDevice>(
    m0: &BlockCacheManager<D>,
    m1: &BlockCacheManager<D>,
    b: int,
) -> bool {
    let slots = m0.slots();
    let p = place_of(slots, b);
    &&& m1.slots() == slots.update(
        p,
        (SlotView { holders: (slots[p].holders - 1) as nat, ..slots[p] }),
    )
    &&& m1.device_itself() == m0.device_itself()
}

/// Every modified copy was written back, and none counts as modified any more. Where none was
/// modified, the device is as before.
pub open spec fn all_synced<D: BlockDevice>(
    m0: &BlockCacheManager<D>,
    m1: &BlockCacheManager<D>,
) -> bool {
    &&& m1.slots() == m0.slots().map_values(|s: SlotView| SlotView { modified: false, ..s })
    &&& m1.device_contents() == m0@
    &&& m0.nothing_modified() ==> m1.device_itself() == m0.device_itself()
}

/// The queue when a block was taken hold of and let go again.
pub open spec fn queue_with(slots: Seq<SlotView>, device: Map<int, Seq<u8>>, b: int) -> Seq<
    SlotView,
> {
    let fresh = SlotView { holders: 0, ..fresh_slot(device, b) };
    if holds(slots, b) {
        slots
    } else if slots.len() < BLOCK_CACHE_SIZE {
        slots.push(fresh)
    } else {
        slots.remove(victim(slots)).push(fresh)
    }
}

/// Block `b` was looked at: it is in the queue, and a modified block that had to leave for it was
/// written back. Otherwise the device is as before.
#[verifier::opaque]
pub open spec fn looked_at<D: BlockDevice>(
    m0: &BlockCacheManager<D>,
    m1: &BlockCacheManager<D>,
    b: int,
) -> bool {
    &&& m1.slots() == queue_with(m0.slots(), m0.device_contents(), b)
    &&& device_after(m0, m1, b)
}

/// Block `b` was changed in memory: it is in the queue and counts as modified, and a modified block
/// that had to leave for it was written back. Otherwise the device is as before.
#[verifier::opaque]
pub open spec fn changed_in_memory<D: BlockDevice>(
    m0: &BlockCacheManager<D>,
    m1: &BlockCacheManager<D>,
    b: int,
) -> bool {
    let queue = queue_with(m0.slots(), m0.device_contents(), b);
    let p = place_of(queue, b);
    &&& m1.slots() == queue.update(
        p,
        (SlotView { modified: true, data: m1@[b], ..queue[p] }),
    )
    &&& device_after(m0, m1, b)
}

/// What becomes of the device when block `b` is brought into the queue.
pub open spec fn device_after<D: BlockDevice>(
    m0: &BlockCacheManager<D>,
    m1: &BlockCacheManager<D>,
    b: int,
) -> bool {
    if leaves_device_alone(m0.slots(), b) {
        m1.device_itself() == m0.device_itself()
    } else {
        m1.device_contents() == written_back(
            m0.device_contents(),
            m0.slots()[victim(m0.slots())],
        )
    }
}

/// A block is found in the only place that holds it.
pub proof fn lemma_place(slots: Seq<SlotView>, i: int)
    requires
        0 <= i < slots.len(),
        forall|j: int, k: int|
            0 <= j < k < slots.len() ==> #[trigger] slots[j].block_id != #[trigger] slots[k].block_id,
    ensures
        holds(slots, slots[i].block_id),
        place_of(slots, slots[i].block_id) == i,
{
}

proof fn lemma_victim(slots: Seq<SlotView>, i: int)
    requires
        is_victim(slots, i),
    ensures
        victim(slots) == i,
{
    let v = victim(slots);
    assert(is_victim(slots, v));
    if v < i {
        assert(slots[v].holders > 0);
    } else if i < v {
        assert(slots[i].holders > 0);
    }
}

/// All cached blocks of one device, oldest first.
pub struct BlockCacheManager<D> {
    queue: VecDeque<CacheSlot>,
    device: D,
}

impl<D: BlockDevice> BlockCacheManager<D> {
    /// The queue, oldest place first.
    pub closed spec fn slots(&self) -> Seq<SlotView> {
        Seq::new(
            self.queue@.len(),
            |i: int|
                SlotView {
                    block_id: self.queue@[i].cache.id(),
                    holders: self.queue@[i].holders as nat,
                    modified: self.queue@[i].cache.dirty(),
                    data: self.queue@[i].cache.data(),
                },
        )
    }

    /// The device itself.
    pub closed spec fn device_itself(&self) -> D {
        self.device
    }

    /// What is on the device itself.
    pub open spec fn device_contents(&self) -> Map<int, Seq<u8>> {
        self.device_itself().contents()
    }

    /// The disk as its users see it, through the cache.
    pub open spec fn view(&self) -> Map<int, Seq<u8>> {
        Map::new(
            |b: int| self.device_contents().dom().contains(b),
            |b: int| seen(self.slots(), self.device_contents(), b),
        )
    }

    /// No block is cached twice, every copy is of a block of the device, and a copy that does not
    /// count as modified is what the device holds.
    pub open spec fn wf(&self) -> bool {
        &&& self.slots().len() <= BLOCK_CACHE_SIZE
        &&& whole_blocks(self.device_contents())
        &&& forall|i: int, j: int|
            0 <= i < j < self.slots().len() ==> #[trigger] self.slots()[i].block_id
                != #[trigger] self.slots()[j].block_id
        &&& forall|i: int|
            0 <= i < self.slots().len() ==> {
                &&& self.device_contents().dom().contains(#[trigger] self.slots()[i].block_id)
                &&& self.slots()[i].data.len() == BLOCK_SZ
                &&& !self.slots()[i].modified ==> self.slots()[i].data
                    == self.device_contents()[self.slots()[i].block_id]
            }
    }

    /// Nobody holds a block.
    pub open spec fn idle(&self) -> bool {
        forall|i: int| 0 <= i < self.slots().len() ==> #[trigger] self.slots()[i].holders == 0
    }

    /// No copy counts as modified.
    pub open spec fn nothing_modified(&self) -> bool {
        forall|i: int| 0 <= i < self.slots().len() ==> !(#[trigger] self.slots()[i]).modified
    }

    /// Every block that a user sees is a whole block.
    pub proof fn lemma_whole_blocks(&self)
        requires
            self.wf(),
        ensures
            whole_blocks(self@),
    {
        assert forall|b: int| #[trigger] self@.dom().contains(b) implies self@[b].len() == BLOCK_SZ by {
            if holds(self.slots(), b) {
                let p = place_of(self.slots(), b);
                assert(self.slots()[p].block_id == b);
            }
        }
    }

    /// An empty cache over a device.
    pub fn new(device: D) -> (r: Self)
        requires
            whole_blocks(device.contents()),
        ensures
            r.wf(),
            r.idle(),
            r.slots() == Seq::<SlotView>::empty(),
            r.device_itself() == device,
            r@ == device.contents(),
    {
        let r: Self = BlockCacheManager { queue: VecDeque::new(), device };
        assert(r@ == device.contents());
        r
    }

    /// The device, with every modified copy written back to it.
    pub fn into_device(self) -> (d: D)
        requires
            self.wf(),
        ensures
            d.contents() == self@,
            self.nothing_modified() ==> d == self.device_itself(),
    {
        let mut m: Self = self;
        m.block_cache_sync_all();
        assert(m.device.contents() == self@);
        m.device
    }

    /// Takes a place out of the queue.
    fn take_slot(&mut self, i: usize) -> (r: CacheSlot)
        requires
            i < old(self).queue@.len(),
        ensures
            r == old(self).queue@[i as int],
            final(self).queue@ == old(self).queue@.remove(i as int),
            final(self).device == old(self).device,
    {
        let slot: Option<CacheSlot> = self.queue.remove(i);
        slot.unwrap()
    }

    /// Puts a place back where it was taken out.
    fn put_slot(&mut self, i: usize, slot: CacheSlot)
        requires
            i <= old(self).queue@.len(),
        ensures
            final(self).queue@ == old(self).queue@.insert(i as int, slot),
            final(self).device == old(self).device,
    {
        self.queue.insert(i, slot);
    }

    /// The place of a block in the queue.
    fn position(&self, block_id: usize) -> (r: Option<usize>)
        requires
            self.wf(),
        ensures
            r is Some <==> holds(self.slots(), block_id as int),
            r matches Some(i) ==> i < self.queue@.len() && self.slots()[i as int].block_id
                == block_id && place_of(self.slots(), block_id as int) == i,
    {
        let mut i: usize = 0;
        while i < self.queue.len()
            invariant
                i <= self.queue@.len(),
                self.wf(),
                forall|j: int| 0 <= j < i ==> #[trigger] self.slots()[j].block_id != block_id,
            decreases self.queue@.len() - i,
        {
            if self.queue[i].cache.block_id == block_id {
                assert(self.slots()[i as int].block_id == block_id);
                proof {
                    lemma_place(self.slots(), i as int);
                }
                return Some(i);
            }
            assert(self.slots()[i as int].block_id != block_id);
            i += 1;
        }
        None
    }

    /// Takes hold of a block. A block that is cached is found in its place. Otherwise it is loaded
    /// to the end of the queue; where the queue is full, the oldest block that nobody holds leaves
    /// it first and is written back if it was modified, by one call of `write_block`. In all other
    /// cases the device is left as it is.
    pub fn get_block_cache(&mut self, block_id: usize)
        requires
            old(self).wf(),
            old(self).device_contents().dom().contains(block_id as int),
            holds(old(self).slots(), block_id as int) ==> old(self).slots()[place_of(
                old(self).slots(),
                block_id as int,
            )].holders < usize::MAX,
            !holds(old(self).slots(), block_id as int) && old(self).slots().len()
                == BLOCK_CACHE_SIZE ==> exists|i: int| is_victim(old(self).slots(), i),
        ensures
            final(self).wf(),
            final(self)@ == old(self)@,
            holds(final(self).slots(), block_id as int),
            got(old(self), final(self), block_id as int),
            !leaves_device_alone(old(self).slots(), block_id as int) ==> exists|
                m: &mut D,
                buf: &[u8; BLOCK_SZ],
            |
                #![trigger call_ensures(
                    D::write_block,
                    (m, old(self).slots()[victim(old(self).slots())].block_id as usize, buf),
                    (),
                )]
                *m == old(self).device_itself() && *final(m) == final(self).device_itself() && buf@
                    == old(self).slots()[victim(old(self).slots())].data && call_ensures(
                    D::write_block,
                    (m, old(self).slots()[victim(old(self).slots())].block_id as usize, buf),
                    (),
                ),
    {
        let ghost before = self.slots();
        let ghost dev = self.device_contents();
        let ghost disk = self@;
        match self.position(block_id) {
            Some(i) => {
                let mut slot: CacheSlot = self.take_slot(i);
                assert(before[i as int].holders == slot.holders);
                slot.holders = slot.holders + 1;
                self.put_slot(i, slot);
                assert(self.slots() == before.update(
                    i as int,
                    (SlotView { holders: before[i as int].holders + 1, ..before[i as int] }),
                ));
                assert forall|b: int| #[trigger] seen(self.slots(), dev, b) == seen(before, dev, b) by {
                    self.lemma_same_seen(before, b);
                }
                proof {
                    lemma_place(self.slots(), i as int);
                }
                assert(self@ == disk);
            },
            None => {
                if self.queue.len() == BLOCK_CACHE_SIZE {
                    let mut i: usize = 0;
                    while i < self.queue.len() && self.queue[i].holders != 0
                        invariant
                            i <= self.queue@.len(),
                            exists|v: int| is_victim(self.slots(), v),
                            forall|j: int| 0 <= j < i ==> #[trigger] self.slots()[j].holders > 0,
                        decreases self.queue@.len() - i,
                    {
                        assert(self.slots()[i as int].holders > 0);
                        i += 1;
                    }
                    let ghost v = choose|v: int| is_victim(self.slots(), v);
                    assert(is_victim(self.slots(), v));
                    assert(i <= v);
                    assert(self.slots()[i as int].holders == self.queue@[i as int].holders);
                    assert(is_victim(self.slots(), i as int));
                    proof {
                        lemma_victim(before, i as int);
                    }
                    let mut out: CacheSlot = self.take_slot(i);
                    assert(self.slots() == before.remove(i as int));
                    assert(before[i as int].data == out.cache.data());
                    assert(dev.dom().contains(before[i as int].block_id));
                    out.cache.sync(&mut self.device);
                    assert(self.device_contents() == written_back(dev, before[i as int]));
                    proof {
                        self.lemma_evicted(before, dev, i as int);
                    }
                    assert(self@ == disk);
                    assert(!holds(self.slots(), block_id as int));
                }
                let ghost mid = self.slots();
                let ghost mdev = self.device_contents();
                assert(mdev[block_id as int] == dev[block_id as int]);
                let cache: BlockCache = BlockCache::new(block_id, &self.device);
                self.queue.push_back(CacheSlot { cache, holders: 1 });
                let ghost n = mid.len() as int;
                assert(self.slots() == mid.push(fresh_slot(dev, block_id as int)));
                assert(self.slots()[n].block_id == block_id);
                assert forall|i: int, j: int| 0 <= i < j < self.slots().len() implies
                    #[trigger] self.slots()[i].block_id != #[trigger] self.slots()[j].block_id by {
                    assert(self.slots()[i] == mid[i]);
                    if j < n {
                        assert(self.slots()[j] == mid[j]);
                    }
                }
                assert(self.wf());
                assert forall|b: int| mdev.dom().contains(b) implies #[trigger] seen(
                    self.slots(),
                    mdev,
                    b,
                ) == seen(mid, mdev, b) by {
                    if holds(mid, b) {
                        let p = place_of(mid, b);
                        assert(mid[p].block_id == b);
                        assert(self.slots()[p].block_id == b);
                        lemma_place(self.slots(), p);
                    } else if b == block_id {
                        lemma_place(self.slots(), n);
                    } else {
                        if holds(self.slots(), b) {
                            let p = place_of(self.slots(), b);
                            assert(self.slots()[p].block_id == b);
                            assert(mid[p].block_id == b);
                        }
                    }
                }
                assert(self@ == disk);
                proof {
                    lemma_place(self.slots(), n);
                }
            },
        }
    }

    /// A queue with the same blocks in the same places and the same data looks the same.
    proof fn lemma_same_seen(&self, before: Seq<SlotView>, b: int)
        requires
            before.len() == self.slots().len(),
            forall|i: int|
                0 <= i < before.len() ==> {
                    &&& #[trigger] self.slots()[i].block_id == before[i].block_id
                    &&& self.slots()[i].data == before[i].data
                },
            forall|i: int, j: int|
                0 <= i < j < before.len() ==> #[trigger] before[i].block_id
                    != #[trigger] before[j].block_id,
        ensures
            seen(self.slots(), self.device_contents(), b) == seen(
                before,
                self.device_contents(),
                b,
            ),
    {
        if holds(before, b) {
            let p = place_of(before, b);
            assert(self.slots()[p].block_id == b);
            lemma_place(self.slots(), p);
        } else if holds(self.slots(), b) {
            let p = place_of(self.slots(), b);
            assert(self.slots()[p].block_id == before[p].block_id);
        }
    }

    /// Nothing is lost when a block leaves the queue and is written back.
    proof fn lemma_evicted(&self, before: Seq<SlotView>, dev: Map<int, Seq<u8>>, v: int)
        requires
            0 <= v < before.len() <= BLOCK_CACHE_SIZE,
            whole_blocks(dev),
            forall|i: int, j: int|
                0 <= i < j < before.len() ==> #[trigger] before[i].block_id
                    != #[trigger] before[j].block_id,
            forall|i: int|
                0 <= i < before.len() ==> {
                    &&& dev.dom().contains(#[trigger] before[i].block_id)
                    &&& before[i].data.len() == BLOCK_SZ
                    &&& !before[i].modified ==> before[i].data == dev[before[i].block_id]
                },
            self.slots() == before.remove(v),
            self.device_contents() == written_back(dev, before[v]),
        ensures
            self.wf(),
            forall|b: int|
                #[trigger] seen(self.slots(), self.device_contents(), b) == seen(before, dev, b),
            self.device_contents().dom() == dev.dom(),
    {
        let s = self.slots();
        let d = self.device_contents();
        assert forall|i: int| 0 <= i < s.len() implies #[trigger] s[i] == (if i < v {
            before[i]
        } else {
            before[i + 1]
        }) by {}
        assert forall|i: int, j: int| 0 <= i < j < s.len() implies #[trigger] s[i].block_id
            != #[trigger] s[j].block_id by {}
        assert(d.dom() =~= dev.dom());
        assert forall|b: int| #[trigger] seen(s, d, b) == seen(before, dev, b) by {
            if holds(before, b) {
                let p = place_of(before, b);
                assert(before[p].block_id == b);
                if p == v {
                    if holds(s, b) {
                        let q = place_of(s, b);
                        assert(s[q].block_id == b);
                    }
                } else {
                    let q = if p < v { p } else { p - 1 };
                    assert(s[q].block_id == b);
                    lemma_place(s, q);
                }
            } else if holds(s, b) {
                let q = place_of(s, b);
                assert(s[q].block_id == b);
                let p = if q < v { q } else { q + 1 };
                assert(before[p].block_id == b);
            }
        }
    }

    /// Lets go of a block that was taken by `get_block_cache`.
    pub fn release(&mut self, block_id: usize)
        requires
            old(self).wf(),
            holds(old(self).slots(), block_id as int),
            old(self).slots()[place_of(old(self).slots(), block_id as int)].holders > 0,
        ensures
            final(self).wf(),
            final(self)@ == old(self)@,
            let_go(old(self), final(self), block_id as int),
    {
        let ghost before = self.slots();
        let ghost dev = self.device_contents();
        let ghost disk = self@;
        if let Some(i) = self.position(block_id) {
            assert(before[i as int].holders == self.queue@[i as int].holders);
            let mut slot: CacheSlot = self.take_slot(i);
            slot.holders = slot.holders - 1;
            self.put_slot(i, slot);
            assert(self.slots() == before.update(
                i as int,
                (SlotView { holders: (before[i as int].holders - 1) as nat, ..before[i as int] }),
            ));
            assert forall|b: int| #[trigger] seen(self.slots(), dev, b) == seen(before, dev, b) by {
                self.lemma_same_seen(before, b);
            }
            assert(self@ == disk);
        }
    }

    /// Right after an idle cache took hold of a block, that block is held once and no other is.
    proof fn lemma_one_holder(&self, before: Seq<SlotView>, b: int)
        requires
            self.wf(),
            holds(self.slots(), b),
            forall|i: int| 0 <= i < before.len() ==> #[trigger] before[i].holders == 0,
            ({
                let s = self.slots();
                let p = place_of(before, b);
                ||| holds(before, b) && s == before.update(
                    p,
                    (SlotView { holders: before[p].holders + 1, ..before[p] }),
                )
                ||| exists|x: SlotView|
                    x.block_id == b && x.holders == 1 && s == #[trigger] before.push(x)
                ||| exists|x: SlotView, v: int|
                    x.block_id == b && x.holders == 1 && 0 <= v < before.len() && s
                        == #[trigger] before.remove(v).push(x)
            }),
        ensures
            forall|i: int|
                0 <= i < self.slots().len() ==> #[trigger] self.slots()[i].holders == (
                if self.slots()[i].block_id == b {
                    1nat
                } else {
                    0nat
                }),
    {
        let s = self.slots();
        let p = place_of(before, b);
        if holds(before, b) && s == before.update(
            p,
            (SlotView { holders: before[p].holders + 1, ..before[p] }),
        ) {
            assert(s[p].block_id == b);
        } else if exists|x: SlotView|
            x.block_id == b && x.holders == 1 && s == #[trigger] before.push(x) {
            assert(s[before.len() as int].block_id == b);
            assert forall|i: int| 0 <= i < before.len() implies #[trigger] s[i].holders == 0 by {
                assert(s[i] == before[i]);
            }
        } else {
            let (x, v) = choose|x: SlotView, v: int|
                x.block_id == b && x.holders == 1 && 0 <= v < before.len() && s
                    == #[trigger] before.remove(v).push(x);
            assert(s[before.len() - 1].block_id == b);
            assert forall|i: int| 0 <= i < before.len() - 1 implies #[trigger] s[i].holders == 0 by {
                assert(s[i] == before[if i < v { i } else { i + 1 }]);
            }
        }
    }

    /// The value of type `T` at byte `offset` of a block.
    pub fn load<T: DiskLayout>(&mut self, block_id: usize, offset: usize) -> (r: T)
        requires
            old(self).wf(),
            old(self).idle(),
            old(self)@.dom().contains(block_id as int),
            offset + T::layout_size() <= BLOCK_SZ,
        ensures
            final(self).wf(),
            final(self).idle(),
            final(self)@ == old(self)@,
            r.stored_in(
                old(self)@[block_id as int].subrange(offset as int, offset + T::layout_size()),
            ),
            looked_at(old(self), final(self), block_id as int),
    {
        let ghost before = self.slots();
        assert(self.slots().len() == BLOCK_CACHE_SIZE ==> is_victim(self.slots(), 0));
        self.get_block_cache(block_id);
        proof {
            self.lemma_one_holder(before, block_id as int);
        }
        let ghost held = self.slots();
        let place: Option<usize> = self.position(block_id);
        let i: usize = place.unwrap();
        assert(self@[block_id as int] == self.slots()[i as int].data);
        let r: T = self.queue[i].cache.get_ref(offset);
        self.release(block_id);
        assert forall|j: int| 0 <= j < self.slots().len() implies #[trigger] self.slots()[j].holders
            == 0 by {
            assert(held[j].holders <= 1);
        }
        assert(looked_at(old(self), self, block_id as int)) by {
            reveal(looked_at);
            assert(self.slots() =~= queue_with(
                before,
                old(self).device_contents(),
                block_id as int,
            ));
        }
        r
    }

    /// Puts a value of type `T` at byte `offset` of a block.
    pub fn store<T: DiskLayout>(&mut self, block_id: usize, offset: usize, value: &T)
        requires
            old(self).wf(),
            old(self).idle(),
            old(self)@.dom().contains(block_id as int),
            offset + T::layout_size() <= BLOCK_SZ,
        ensures
            final(self).wf(),
            final(self).idle(),
            final(self)@ == old(self)@.insert(block_id as int, final(self)@[block_id as int]),
            value.stored_in(
                final(self)@[block_id as int].subrange(offset as int, offset + T::layout_size()),
            ),
            same_outside(
                old(self)@[block_id as int],
                final(self)@[block_id as int],
                offset as int,
                offset + T::layout_size(),
            ),
            changed_in_memory(old(self), final(self), block_id as int),
    {
        let ghost before = self.slots();
        let ghost disk = self@;
        assert(self.slots().len() == BLOCK_CACHE_SIZE ==> is_victim(self.slots(), 0));
        self.get_block_cache(block_id);
        proof {
            self.lemma_one_holder(before, block_id as int);
        }
        let ghost held = self.slots();
        let place: Option<usize> = self.position(block_id);
        let i: usize = place.unwrap();
        assert(disk[block_id as int] == held[i as int].data);
        let mut slot: CacheSlot = self.take_slot(i);
        slot.cache.put(offset, value);
        self.put_slot(i, slot);
        let ghost put = self.slots();
        assert(put == held.update(
            i as int,
            (SlotView { modified: true, data: put[i as int].data, ..held[i as int] }),
        ));
        assert(self.wf());
        proof {
            lemma_place(put, i as int);
        }
        assert forall|b: int| #[trigger]
            self.device_contents().dom().contains(b) && b != block_id implies seen(
            put,
            self.device_contents(),
            b,
        ) == seen(held, self.device_contents(), b) by {
            if holds(held, b) {
                let p = place_of(held, b);
                assert(put[p].block_id == b);
                lemma_place(put, p);
            } else if holds(put, b) {
                let p = place_of(put, b);
                assert(put[p].block_id == held[p].block_id);
            }
        }
        assert(self@ == disk.insert(block_id as int, put[i as int].data));
        self.release(block_id);
        assert forall|j: int| 0 <= j < self.slots().len() implies #[trigger] self.slots()[j].holders
            == 0 by {
            assert(put[j].holders <= 1);
            assert(held[j].holders <= 1);
        }
        assert(changed_in_memory(old(self), self, block_id as int)) by {
            reveal(changed_in_memory);
            let queue = queue_with(before, old(self).device_contents(), block_id as int);
            assert(queue.len() == held.len());
            assert(queue[i as int].block_id == block_id);
            assert forall|j: int, k: int| 0 <= j < k < queue.len() implies
                #[trigger] queue[j].block_id != #[trigger] queue[k].block_id by {
                assert(held[j].block_id == queue[j].block_id);
                assert(held[k].block_id == queue[k].block_id);
            }
            lemma_place(queue, i as int);
            lemma_place(self.slots(), i as int);
            assert(self.slots() =~= queue.update(
                i as int,
                (SlotView { modified: true, data: self@[block_id as int], ..queue[i as int] }),
            ));
        }
    }

    /// Writes every modified copy back; the device then holds what the users see. Where no copy was
    /// modified, the device is left as it is.
    pub fn block_cache_sync_all(&mut self)
        requires
            old(self).wf(),
        ensures
            final(self).wf(),
            final(self)@ == old(self)@,
            all_synced(old(self), final(self)),
    {
        let ghost before = self.slots();
        let ghost disk = self@;
        let mut i: usize = 0;
        while i < self.queue.len()
            invariant
                i <= self.queue@.len(),
                self.wf(),
                self@ == disk,
                before == old(self).slots(),
                old(self).nothing_modified() ==> self.device_itself() == old(self).device_itself(),
                before.len() == self.slots().len(),
                forall|j: int|
                    0 <= j < before.len() ==> #[trigger] self.slots()[j] == (if j < i {
                        SlotView { modified: false, ..before[j] }
                    } else {
                        before[j]
                    }),
            decreases self.queue@.len() - i,
        {
            let ghost mid = self.slots();
            let ghost dev = self.device_contents();
            assert(dev.dom().contains(mid[i as int].block_id));
            assert(mid[i as int].data == self.queue@[i as int].cache.data());
            assert(mid[i as int] == before[i as int]);
            let mut slot: CacheSlot = self.take_slot(i);
            slot.cache.sync(&mut self.device);
            self.put_slot(i, slot);
            assert(self.device_contents() == written_back(dev, mid[i as int]));
            assert(self.slots() == mid.update(
                i as int,
                (SlotView { modified: false, ..mid[i as int] }),
            ));
            assert(self.device_contents().dom() =~= dev.dom());
            assert(self.wf());
            assert forall|b: int| #[trigger] dev.dom().contains(b) implies seen(
                self.slots(),
                self.device_contents(),
                b,
            ) == seen(mid, dev, b) by {
                if holds(mid, b) {
                    let p = place_of(mid, b);
                    assert(self.slots()[p].block_id == b);
                    lemma_place(self.slots(), p);
                } else if holds(self.slots(), b) {
                    let p = place_of(self.slots(), b);
                    assert(self.slots()[p].block_id == mid[p].block_id);
                }
            }
            assert(self@ =~= disk);
            i += 1;
        }
        assert forall|b: int| #[trigger] self.device_contents().dom().contains(b) implies seen(
            self.slots(),
            self.device_contents(),
            b,
        ) == self.device_contents()[b] by {
            if holds(self.slots(), b) {
                let p = place_of(self.slots(), b);
                assert(self.slots()[p].block_id == b);
                assert(!self.slots()[p].modified);
            }
        }
        assert(self.device_contents() =~= disk);
        assert(self.slots() =~= before.map_values(|s: SlotView| SlotView { modified: false, ..s }));
    }
}

} // verus!
