//! What the operations of the file system mean together.

use vstd::prelude::*;
use vstd::utf8::valid_utf8;

use super::block_cache::{
    all_synced, got, handed_out, holders_of, holds, is_victim, lemma_place, let_go, place_of, synced_to, victim,
    BlockCache, BlockCacheManager, SlotView, BLOCK_CACHE_SIZE,
};
use super::block_dev::{BlockDevice, BLOCK_SZ};
use super::dir::{
    content_without, entries, entry_bytes, lemma_appended, lemma_content_without,
    lemma_entry_bytes, lemma_links_bounds, lemma_lookup, lemma_position, lemma_position_found, lookup, position,
    tree_ok, without, EntryView,
};
use super::efs::EasyFileSystem;
use super::fs_state::{division_in, FileView};
use super::layout::{
    block_count, blocks_for, can_grow, data_count, data_position, good_name, grown, growth,
    is_index_position, lemma_block_count_monotone, lemma_indexed_path, lemma_positions,
    lemma_same_index, read_into, read_len, InodeView, MAX_FILE_SIZE,
};
use super::vfs::overwritten;

verus! {

/// Reading where one has written gives what was written, whatever was in the buffer before.
pub proof fn law_read_gives_what_was_written(
    content: Seq<u8>,
    offset: int,
    written: Seq<u8>,
    before: Seq<u8>,
    after: Seq<u8>,
)
    requires
        0 <= offset,
        before.len() == written.len(),
        read_into(
            before,
            after,
            overwritten(content, offset, written),
            offset,
            read_len(
                offset,
                before.len() as int,
                overwritten(content, offset, written).len() as int,
            ),
        ),
    ensures
        after == written,
{
    assert(after =~= written);
}

/// A write changes nothing outside what it writes and the gap before it.
pub proof fn law_write_keeps_the_rest(content: Seq<u8>, offset: int, written: Seq<u8>, k: int)
    requires
        0 <= offset,
        0 <= k < content.len(),
        !(offset <= k < offset + written.len()),
    ensures
        overwritten(content, offset, written).len() >= content.len(),
        overwritten(content, offset, written)[k] == content[k],
{
}

/// Of two writes to the same place the second one counts.
pub proof fn law_second_write_counts(
    content: Seq<u8>,
    offset: int,
    first: Seq<u8>,
    second: Seq<u8>,
)
    requires
        0 <= offset,
        first.len() == second.len(),
    ensures
        overwritten(overwritten(content, offset, first), offset, second) == overwritten(
            content,
            offset,
            second,
        ),
{
    assert(overwritten(overwritten(content, offset, first), offset, second) =~= overwritten(
        content,
        offset,
        second,
    ));
}

/// After a name was given to an inode, it is found under that name, and every other name stands for
/// what it stood for.
pub proof fn law_new_name_is_found(
    es: Seq<EntryView>,
    name: Seq<u8>,
    id: int,
    other: Seq<u8>,
)
    requires
        lookup(es, name) is None,
        other != name,
    ensures
        lookup(es.push(EntryView { name, id }), name) == Some(id),
        lookup(es.push(EntryView { name, id }), other) == lookup(es, other),
{
    let es2 = es.push(EntryView { name, id });
    lemma_position_found(es, name);
    assert forall|j: int| 0 <= j < es.len() implies #[trigger] es2[j].name != name by {
        assert(es2[j] == es[j]);
    }
    lemma_position(es2, name, es.len() as int);
    lemma_position_found(es, other);
    let k = position(es, other);
    assert forall|j: int| 0 <= j < k implies #[trigger] es2[j].name != other by {
        assert(es2[j] == es[j]);
    }
    if k < es.len() {
        assert(es2[k] == es[k]);
        lemma_position(es2, other, k);
    } else {
        lemma_position(es2, other, es2.len() as int);
    }
}

/// After a name was taken away, it is not found, and every other name stands for what it stood for.
pub proof fn law_removed_name_is_gone(files: Map<int, FileView>, name: Seq<u8>, other: Seq<u8>)
    requires
        tree_ok(files),
        lookup(entries(files[0].content), name) is Some,
        other != name,
    ensures
        ({
            let es = entries(files[0].content);
            let es2 = without(es, position(es, name));
            &&& lookup(es2, name) is None
            &&& lookup(es2, other) == lookup(es, other)
        }),
{
    let es = entries(files[0].content);
    let k = position(es, name);
    let es2 = without(es, k);
    let last = es.len() - 1;
    lemma_position_found(es, name);
    assert forall|j: int| 0 <= j < es2.len() implies #[trigger] es2[j] == es[if j == k {
        last
    } else {
        j
    }] by {}
    assert forall|a: int, b: int| 0 <= a < b < es2.len() implies #[trigger] es2[a].name
        != #[trigger] es2[b].name by {
        let i = if a == k {
            last
        } else {
            a
        };
        let j = if b == k {
            last
        } else {
            b
        };
        if i < j {
            assert(es[i].name != es[j].name);
        } else {
            assert(es[j].name != es[i].name);
        }
    }
    assert forall|j: int| 0 <= j < es2.len() implies #[trigger] es2[j].name != name by {
        let i = if j == k {
            last
        } else {
            j
        };
        if i < k {
            assert(es[i].name != es[k].name);
        } else {
            assert(es[k].name != es[i].name);
        }
    }
    lemma_position(es2, name, es2.len() as int);
    lemma_position_found(es, other);
    let m = position(es, other);
    if m < es.len() {
        let place = if m == last {
            k
        } else {
            m
        };
        assert(es2[place] == es[m]);
        lemma_lookup(es2, place);
    } else {
        assert forall|j: int| 0 <= j < es2.len() implies #[trigger] es2[j].name != other by {
            let i = if j == k {
                last
            } else {
                j
            };
            assert(es[i].name != other);
        }
        lemma_position(es2, other, es2.len() as int);
    }
}

/// A file that is made and unlinked again leaves every file, the directory among them, as it was.
pub proof fn law_unlink_undoes_create(files: Map<int, FileView>, name: Seq<u8>, id: u32)
    requires
        tree_ok(files),
        good_name(name),
        valid_utf8(name),
        lookup(entries(files[0].content), name) is None,
        !files.dom().contains(id as int),
    ensures
        ({
            let root = files[0];
            let root2 = FileView { content: root.content + entry_bytes(name, id), ..root };
            let files2 = files.insert(
                id as int,
                (FileView { content: Seq::empty(), nlink: 1, directory: false }),
            ).insert(0, root2);
            let k = position(entries(root2.content), name);
            let root3 = FileView { content: content_without(root2.content, k), ..root2 };
            &&& lookup(entries(root2.content), name) == Some(id as int)
            &&& files2.remove(id as int).insert(0, root3) == files
        }),
{
    let root = files[0];
    let raw = entry_bytes(name, id);
    let c2 = root.content + raw;
    let es = entries(root.content);
    lemma_entry_bytes(name, id);
    lemma_appended(root.content, raw);
    lemma_position_found(es, name);
    let es2 = entries(c2);
    assert forall|j: int| 0 <= j < es.len() implies #[trigger] es2[j].name != name by {
        assert(es2[j] == es[j]);
    }
    lemma_position(es2, name, es.len() as int);
    lemma_content_without(c2, es.len() as int);
    assert(content_without(c2, es.len() as int) =~= root.content);
    let root2 = FileView { content: c2, ..root };
    let files2 = files.insert(
        id as int,
        (FileView { content: Seq::empty(), nlink: 1, directory: false }),
    ).insert(0, root2);
    let root3 = FileView { content: content_without(c2, es.len() as int), ..root2 };
    assert(files2.remove(id as int).insert(0, root3) =~= files);
}

/// A file that gets another name is found under both; when the new name is taken away again, every
/// file, the directory among them, is as it was.
pub proof fn law_unlink_undoes_link(
    files: Map<int, FileView>,
    old_name: Seq<u8>,
    new_name: Seq<u8>,
    id: u32,
)
    requires
        tree_ok(files),
        good_name(new_name),
        valid_utf8(new_name),
        lookup(entries(files[0].content), old_name) == Some(id as int),
        lookup(entries(files[0].content), new_name) is None,
        files[id as int].nlink < 255,
    ensures
        ({
            let root = files[0];
            let f = files[id as int];
            let f2 = FileView { nlink: (f.nlink + 1) as u8, ..f };
            let root2 = FileView { content: root.content + entry_bytes(new_name, id), ..root };
            let files2 = files.insert(id as int, f2).insert(0, root2);
            let es2 = entries(files2[0].content);
            let k = position(es2, new_name);
            let root3 = FileView { content: content_without(root2.content, k), ..root2 };
            let f3 = FileView { nlink: (f2.nlink - 1) as u8, ..f2 };
            &&& lookup(es2, old_name) == Some(id as int)
            &&& lookup(es2, new_name) == Some(id as int)
            &&& files2[id as int].content == f.content
            &&& f2.nlink > 1
            &&& files2.insert(id as int, f3).insert(0, root3) == files
        }),
{
    let root = files[0];
    let f = files[id as int];
    let raw = entry_bytes(new_name, id);
    let c2 = root.content + raw;
    let es = entries(root.content);
    lemma_entry_bytes(new_name, id);
    lemma_appended(root.content, raw);
    lemma_position_found(es, new_name);
    lemma_position_found(es, old_name);
    let es2 = entries(c2);
    assert(es2 =~= es.push(EntryView { name: new_name, id: id as int }));
    law_new_name_is_found(es, new_name, id as int, old_name);
    assert forall|j: int| 0 <= j < es.len() implies #[trigger] es2[j].name != new_name by {
        assert(es2[j] == es[j]);
    }
    lemma_position(es2, new_name, es.len() as int);
    lemma_content_without(c2, es.len() as int);
    assert(content_without(c2, es.len() as int) =~= root.content);
    let m = position(es, old_name);
    assert(es[m].id != 0 && files.dom().contains(es[m].id));
    lemma_links_bounds(es, id as int);
    let f2 = FileView { nlink: (f.nlink + 1) as u8, ..f };
    let f3 = FileView { nlink: (f2.nlink - 1) as u8, ..f2 };
    assert(f3 == f);
    let root2 = FileView { content: c2, ..root };
    let files2 = files.insert(id as int, f2).insert(0, root2);
    let root3 = FileView { content: content_without(c2, es.len() as int), ..root2 };
    assert(files2.insert(id as int, f3).insert(0, root3) =~= files);
}

/// What has been written back survives: a device that is taken out and opened again holds the same
/// files.
pub proof fn law_files_survive<D: BlockDevice>(fs: &EasyFileSystem<D>)
    requires
        fs.wf(),
        fs.synced(),
    ensures
        ({
            let contents = fs.cache.device_contents();
            &&& division_in(contents[0]).sound(contents)
            &&& division_in(contents[0]).files(contents) == fs.files()
            &&& division_in(contents[0]).slots(contents) == fs.slots()
        }),
{
}

/// No two inodes share a block, also if one of them is not in use.
pub proof fn law_files_do_not_share_blocks<D: BlockDevice>(
    fs: &EasyFileSystem<D>,
    i: int,
    j: int,
    b: int,
)
    requires
        fs.wf(),
        fs.division().slot(i),
        fs.division().slot(j),
        i != j,
        fs.division().owns(fs.disk(), i, b),
    ensures
        !fs.division().owns(fs.disk(), j, b),
{
}

/// What can be done with the copy of a block.
pub enum CacheCall {
    /// `get_ref` or `read`.
    Look,
    /// `get_mut`, `put` or `modify`.
    Change,
    /// `sync`.
    Sync,
}

/// What a call does to the copy of a block and to the device.
pub open spec fn cache_step<D: BlockDevice>(
    call: CacheCall,
    c0: BlockCache,
    c1: BlockCache,
    d0: D,
    d1: D,
) -> bool {
    match call {
        CacheCall::Look => c1 == c0 && d1 == d0,
        CacheCall::Change => handed_out(&c0, &c1) && d1 == d0,
        CacheCall::Sync => synced_to(&c0, &c1, &d0, &d1),
    }
}

/// A copy and a device before and after each of a series of calls, from a fresh copy on.
pub open spec fn cache_run<D: BlockDevice>(
    calls: Seq<CacheCall>,
    cs: Seq<BlockCache>,
    ds: Seq<D>,
) -> bool {
    &&& cs.len() == calls.len() + 1
    &&& ds.len() == calls.len() + 1
    &&& !cs[0].dirty()
    &&& cs[0].data() == ds[0].contents()[cs[0].id()]
    &&& forall|n: int|
        0 <= n < calls.len() ==> cache_step(
            #[trigger] calls[n],
            cs[n],
            cs[n + 1],
            ds[n],
            ds[n + 1],
        )
}

/// Among the first `n` calls the copy was handed out for change, and there was no sync after that.
pub open spec fn changed_since_sync(calls: Seq<CacheCall>, n: int) -> bool
    decreases n,
{
    if n <= 0 {
        false
    } else {
        match calls[n - 1] {
            CacheCall::Look => changed_since_sync(calls, n - 1),
            CacheCall::Change => true,
            CacheCall::Sync => false,
        }
    }
}

/// However a copy was used before, a sync writes it to the device, by one call of `write_block`,
/// exactly if it was handed out for change since it was loaded or since the last sync. Otherwise the
/// device is left alone. The copy itself stays as it is.
pub proof fn law_sync_writes_what_was_handed_out<D: BlockDevice>(
    calls: Seq<CacheCall>,
    cs: Seq<BlockCache>,
    ds: Seq<D>,
    n: int,
)
    requires
        cache_run(calls, cs, ds),
        0 <= n < calls.len(),
        calls[n] is Sync,
        cs[n].dirty() ==> exists|m: &mut D, buf: &[u8; BLOCK_SZ]|
            #![trigger call_ensures(D::write_block, (m, cs[n].id() as usize, buf), ())]
            *m == ds[n] && *final(m) == ds[n + 1] && buf@ == cs[n].data() && call_ensures(
                D::write_block,
                (m, cs[n].id() as usize, buf),
                (),
            ),
    ensures
        cs[n].id() == cs[0].id(),
        cs[n + 1].data() == cs[n].data(),
        if changed_since_sync(calls, n) {
            &&& exists|m: &mut D, buf: &[u8; BLOCK_SZ]|
                #![trigger call_ensures(D::write_block, (m, cs[0].id() as usize, buf), ())]
                *m == ds[n] && *final(m) == ds[n + 1] && buf@ == cs[n].data() && call_ensures(
                    D::write_block,
                    (m, cs[0].id() as usize, buf),
                    (),
                )
            &&& ds[n + 1].contents() == ds[n].contents().insert(cs[0].id(), cs[n].data())
        } else {
            ds[n + 1] == ds[n]
        },
{
    lemma_dirty(calls, cs, ds, n);
    assert(cache_step(calls[n], cs[n], cs[n + 1], ds[n], ds[n + 1]));
}

/// A sync right after a sync leaves the device alone.
pub proof fn law_second_sync_writes_nothing<D: BlockDevice>(
    calls: Seq<CacheCall>,
    cs: Seq<BlockCache>,
    ds: Seq<D>,
    n: int,
)
    requires
        cache_run(calls, cs, ds),
        0 <= n < calls.len() - 1,
        calls[n] is Sync,
        calls[n + 1] is Sync,
    ensures
        ds[n + 2] == ds[n + 1],
{
    lemma_dirty(calls, cs, ds, n + 1);
    assert(cache_step(calls[n + 1], cs[n + 1], cs[n + 2], ds[n + 1], ds[n + 2]));
}

/// Between two syncs nothing is written to the device.
pub proof fn law_only_sync_writes<D: BlockDevice>(
    calls: Seq<CacheCall>,
    cs: Seq<BlockCache>,
    ds: Seq<D>,
    n: int,
)
    requires
        cache_run(calls, cs, ds),
        0 <= n < calls.len(),
        !(calls[n] is Sync),
    ensures
        ds[n + 1] == ds[n],
{
    assert(cache_step(calls[n], cs[n], cs[n + 1], ds[n], ds[n + 1]));
}

/// A copy counts as modified exactly if it was handed out for change since the last sync.
proof fn lemma_dirty<D: BlockDevice>(
    calls: Seq<CacheCall>,
    cs: Seq<BlockCache>,
    ds: Seq<D>,
    n: int,
)
    requires
        cache_run(calls, cs, ds),
        0 <= n <= calls.len(),
    ensures
        cs[n].dirty() == changed_since_sync(calls, n),
        cs[n].id() == cs[0].id(),
    decreases n,
{
    if n > 0 {
        lemma_dirty(calls, cs, ds, n - 1);
        assert(cache_step(calls[n - 1], cs[n - 1], cs[n], ds[n - 1], ds[n]));
    }
}

/// What can be done with the cached blocks.
pub enum ManagerCall {
    /// `get_block_cache`.
    Get(int),
    /// `release`.
    Release(int),
    /// `block_cache_sync_all`.
    SyncAll,
}

/// Block `b` is in the queue, or there is a place for it: a free one, or one that nobody holds.
pub open spec fn can_get(slots: Seq<SlotView>, b: int) -> bool {
    holds(slots, b) || slots.len() < BLOCK_CACHE_SIZE || exists|i: int| is_victim(slots, i)
}

/// The cached blocks before and after each of a series of calls.
pub open spec fn manager_run<D: BlockDevice>(
    calls: Seq<ManagerCall>,
    ms: Seq<BlockCacheManager<D>>,
) -> bool {
    &&& ms.len() == calls.len() + 1
    &&& forall|n: int| 0 <= n < ms.len() ==> (#[trigger] ms[n]).wf()
    &&& forall|n: int|
        0 <= n < calls.len() ==> match #[trigger] calls[n] {
            ManagerCall::Get(b) => {
                &&& got(&ms[n], &ms[n + 1], b)
                &&& can_get(ms[n].slots(), b)
            },
            ManagerCall::Release(b) => {
                &&& holders_of(ms[n].slots(), b) > 0
                &&& let_go(&ms[n], &ms[n + 1], b)
            },
            ManagerCall::SyncAll => all_synced(&ms[n], &ms[n + 1]),
        }
}

/// A block that somebody holds stays in memory, whatever other blocks are taken hold of in between:
/// who asks for it again gets the same copy, the device is not touched, and the queue stays as it
/// is but for the number of users of the block.
pub proof fn law_held_block_is_found_again<D: BlockDevice>(
    calls: Seq<ManagerCall>,
    ms: Seq<BlockCacheManager<D>>,
    b: int,
    again: BlockCacheManager<D>,
)
    requires
        manager_run(calls, ms),
        holders_of(ms[0].slots(), b) > 0,
        forall|n: int|
            0 <= n < calls.len() && #[trigger] calls[n] == ManagerCall::Release(b) ==> holders_of(
                ms[n].slots(),
                b,
            ) > 1,
        got(&ms.last(), &again, b),
    ensures
        holds(ms.last().slots(), b),
        ({
            let slots = ms.last().slots();
            let p = place_of(slots, b);
            &&& slots[p].data == ms[0].slots()[place_of(ms[0].slots(), b)].data
            &&& again.slots() == slots.update(
                p,
                (SlotView { holders: slots[p].holders + 1, ..slots[p] }),
            )
            &&& again.device_itself() == ms.last().device_itself()
        }),
{
    lemma_still_held(calls, ms, b, calls.len() as int);
}

/// A block that somebody holds is still held, with the same bytes, after `n` calls.
proof fn lemma_still_held<D: BlockDevice>(
    calls: Seq<ManagerCall>,
    ms: Seq<BlockCacheManager<D>>,
    b: int,
    n: int,
)
    requires
        manager_run(calls, ms),
        holders_of(ms[0].slots(), b) > 0,
        forall|n: int|
            0 <= n < calls.len() && #[trigger] calls[n] == ManagerCall::Release(b) ==> holders_of(
                ms[n].slots(),
                b,
            ) > 1,
        0 <= n <= calls.len(),
    ensures
        holds(ms[n].slots(), b),
        holders_of(ms[n].slots(), b) > 0,
        ms[n].slots()[place_of(ms[n].slots(), b)].data == ms[0].slots()[place_of(
            ms[0].slots(),
            b,
        )].data,
    decreases n,
{
    if n > 0 {
        lemma_still_held(calls, ms, b, n - 1);
        let s = ms[n - 1].slots();
        let s2 = ms[n].slots();
        let p = place_of(s, b);
        let call = calls[n - 1];
        assert(ms[n - 1].wf() && ms[n].wf());
        assert(s[p].block_id == b);
        let q = if call is Get && !holds(s, call->Get_0) && s.len() == BLOCK_CACHE_SIZE && victim(s)
            < p {
            p - 1
        } else {
            p
        };
        match call {
            ManagerCall::Get(c) => {
                if holds(s, c) {
                    assert(s[place_of(s, c)].block_id == c);
                } else if s.len() == BLOCK_CACHE_SIZE {
                    assert(is_victim(s, victim(s)));
                }
            },
            ManagerCall::Release(c) => {
                assert(s[place_of(s, c)].block_id == c);
            },
            ManagerCall::SyncAll => {},
        }
        assert(s2[q].block_id == b && s2[q].data == s[p].data && s2[q].holders > 0);
        lemma_place(s2, q);
    }
}

/// A file that grows step by step, from nothing on. Before step `i` its inode is `vs[i]` and the disk
/// is `before[i]`; it grows to `sizes[i]` bytes and gets the blocks `lists[i]`, as many as it needs; then
/// the disk is `after[i]`. Between two steps its index blocks are left alone.
pub open spec fn growing(
    vs: Seq<InodeView>,
    sizes: Seq<u32>,
    lists: Seq<Seq<u32>>,
    before: Seq<Map<int, Seq<u8>>>,
    after: Seq<Map<int, Seq<u8>>>,
) -> bool {
    let k = lists.len();
    &&& vs.len() == k + 1
    &&& sizes.len() == k
    &&& before.len() == k + 1
    &&& after.len() == k
    &&& vs[0].size == 0
    &&& forall|i: int|
        0 <= i < k ==> {
            &&& vs[i].size <= #[trigger] sizes[i]
            &&& lists[i].len() == blocks_for(sizes[i] as int) - blocks_for(vs[i].size as int)
            &&& grown(vs[i], before[i], sizes[i], lists[i], vs[i + 1], after[i])
            &&& index_kept(vs[i + 1], after[i], before[i + 1])
        }
}

/// The index blocks of a file are as before.
pub open spec fn index_kept(v: InodeView, disk: Map<int, Seq<u8>>, disk2: Map<int, Seq<u8>>) -> bool {
    forall|p: int|
        0 <= p < v.all_blocks(disk).len() && is_index_position(p) ==> disk2[#[trigger] v.all_blocks(
            disk,
        )[p]] == disk[v.all_blocks(disk)[p]]
}

/// The first `n` lists, one behind the other.
pub open spec fn joined(lists: Seq<Seq<u32>>, n: int) -> Seq<u32>
    decreases n,
{
    if n <= 0 {
        Seq::empty()
    } else {
        joined(lists, n - 1) + lists[n - 1]
    }
}

/// However the growth of a file was split into steps, clearing it gives back every block that it ever
/// got, data and index blocks alike, each once and in the order in which it got them. `returned` is
/// what `clear_size` returns.
pub proof fn law_clearing_gives_back_what_growing_took(
    vs: Seq<InodeView>,
    sizes: Seq<u32>,
    lists: Seq<Seq<u32>>,
    before: Seq<Map<int, Seq<u8>>>,
    after: Seq<Map<int, Seq<u8>>>,
    returned: Seq<u32>,
)
    requires
        growing(vs, sizes, lists, before, after),
        returned.map_values(|b: u32| b as int) == vs.last().all_blocks(before.last()),
    ensures
        returned == joined(lists, lists.len() as int),
        returned.no_duplicates(),
{
    let k = lists.len() as int;
    lemma_growing(vs, sizes, lists, before, after, k);
    let all = vs.last().all_blocks(before.last());
    let j = joined(lists, k);
    assert(all.len() == returned.len() && all.len() == j.len());
    assert forall|p: int| 0 <= p < returned.len() implies returned[p] == #[trigger] j[p] by {
        assert(all[p] == returned[p] as int);
        assert(all[p] == j[p] as int);
    }
    assert(returned =~= j);
    assert forall|p: int, q: int| 0 <= p < q < returned.len() implies returned[p] != returned[q] by {
        assert(all[p] == returned[p] as int);
        assert(all[q] == returned[q] as int);
    }
}

/// Which of the new blocks becomes data block `i` of a file that had `size` bytes and grows: those
/// that come before it and the index blocks that it needs are taken first.
pub open spec fn taken_as(size: u32, i: int) -> int {
    data_position(i) - blocks_for(size as int)
}

/// A file that grows keeps its data blocks, and the further ones are distinct blocks of the list that
/// it got, in the order in which they stand there. `new_blocks` are as many as are needed, each
/// once, and none of them was used by the file; those that become index blocks are on the disk.
pub proof fn law_growth_keeps_blocks_and_takes_new_ones(
    v: InodeView,
    disk: Map<int, Seq<u8>>,
    new_size: u32,
    new_blocks: Seq<u32>,
    v2: InodeView,
    disk2: Map<int, Seq<u8>>,
)
    requires
        v.indexed(disk),
        v.size <= new_size <= MAX_FILE_SIZE,
        new_blocks.len() == blocks_for(new_size as int) - blocks_for(v.size as int),
        new_blocks.no_duplicates(),
        forall|j: int|
            0 <= j < new_blocks.len() ==> !v.all_blocks(disk).contains(
                #[trigger] new_blocks[j] as int,
            ),
        forall|j: int|
            0 <= j < new_blocks.len() && is_index_position(j + blocks_for(v.size as int))
                ==> disk.dom().contains(#[trigger] new_blocks[j] as int),
    ensures
        can_grow(v, disk, new_size, new_blocks),
        grown(v, disk, new_size, new_blocks, v2, disk2) ==> {
            let n0 = data_count(v.size as int);
            let n = data_count(new_size as int);
            &&& v2.size == new_size
            &&& v2.nlink == v.nlink
            &&& v2.directory == v.directory
            &&& forall|i: int| 0 <= i < n ==> #[trigger] v2.path_on_disk(disk2, i)
            &&& forall|i: int|
                0 <= i < n0 ==> #[trigger] v2.block_of(disk2, i) == v.block_of(disk, i)
            &&& forall|i: int|
                n0 <= i < n ==> 0 <= taken_as(v.size, i) < new_blocks.len()
                    && #[trigger] v2.block_of(disk2, i) == new_blocks[taken_as(v.size, i)]
            &&& forall|i: int, j: int|
                n0 <= i < j < n ==> #[trigger] taken_as(v.size, i) < #[trigger] taken_as(v.size, j)
            &&& forall|i: int, j: int|
                n0 <= i < j < n ==> #[trigger] v2.block_of(disk2, i) != #[trigger] v2.block_of(
                    disk2,
                    j,
                )
        },
{
    let n0 = data_count(v.size as int);
    let n = data_count(new_size as int);
    let had = v.all_blocks(disk);
    let target = growth(v, disk, new_size, new_blocks);
    lemma_block_count_monotone(n0, n);
    assert(had.len() == blocks_for(v.size as int));
    assert(target =~= had + new_blocks.map_values(|b: u32| b as int));
    assert forall|p: int, q: int| 0 <= p < q < target.len() implies target[p] != target[q] by {
        if p < had.len() {
            assert(had.contains(had[p]));
            if q >= had.len() {
                assert(target[q] == new_blocks[q - had.len()] as int);
            }
        } else {
            assert(new_blocks[p - had.len()] != new_blocks[q - had.len()]);
        }
    }
    assert forall|p: int|
        0 <= p < target.len() && is_index_position(p) implies disk.dom().contains(
        #[trigger] target[p],
    ) by {
        if p >= had.len() {
            assert(target[p] == new_blocks[p - had.len()] as int);
        }
    }
    if grown(v, disk, new_size, new_blocks, v2, disk2) {
        let has = v2.all_blocks(disk2);
        assert(has =~= target);
        lemma_positions(v, disk, n0);
        lemma_positions(v2, disk2, n);
        assert forall|i: int| 0 <= i < n implies #[trigger] v2.path_on_disk(disk2, i) by {
            lemma_indexed_path(v2, disk2, i);
        }
        assert forall|i: int| 0 <= i < n0 implies #[trigger] v2.block_of(disk2, i) == v.block_of(
            disk,
            i,
        ) by {
            assert(has[data_position(i)] == had[data_position(i)]);
        }
        assert forall|i: int| n0 <= i < n implies 0 <= taken_as(v.size, i) < new_blocks.len()
            && #[trigger] v2.block_of(disk2, i) == new_blocks[taken_as(v.size, i)] by {
            assert(0 <= data_position(i) < block_count(n));
            assert(data_position(i) >= block_count(n0));
            assert(has[data_position(i)] == v2.block_of(disk2, i));
        }
        assert forall|i: int, j: int| n0 <= i < j < n implies #[trigger] taken_as(v.size, i)
            < #[trigger] taken_as(v.size, j) by {}
        assert forall|i: int, j: int| n0 <= i < j < n implies #[trigger] v2.block_of(disk2, i)
            != #[trigger] v2.block_of(disk2, j) by {
            assert(taken_as(v.size, i) < taken_as(v.size, j));
        }
    }
}

/// What a file has after `n` steps of growth.
proof fn lemma_growing(
    vs: Seq<InodeView>,
    sizes: Seq<u32>,
    lists: Seq<Seq<u32>>,
    before: Seq<Map<int, Seq<u8>>>,
    after: Seq<Map<int, Seq<u8>>>,
    n: int,
)
    requires
        growing(vs, sizes, lists, before, after),
        0 <= n <= lists.len(),
    ensures
        vs[n].all_blocks(before[n]) == joined(lists, n).map_values(|b: u32| b as int),
        vs[n].all_blocks(before[n]).no_duplicates(),
    decreases n,
{
    let to_int = |b: u32| b as int;
    if n == 0 {
        assert(vs[0].all_blocks(before[0]) =~= joined(lists, 0).map_values(to_int));
    } else {
        let i = n - 1;
        lemma_growing(vs, sizes, lists, before, after, i);
        assert(vs[i].size <= sizes[i]);
        let (v, v2) = (vs[i], vs[n]);
        let list = lists[i];
        lemma_block_count_monotone(data_count(v.size as int), data_count(sizes[i] as int));
        let had = v.all_blocks(before[i]);
        let has = v2.all_blocks(after[i]);
        assert(has =~= had + list.map_values(to_int));
        assert(has =~= joined(lists, n).map_values(to_int));
        lemma_same_index(v2, after[i], before[n], data_count(v2.size as int));
    }
}

} // verus!
