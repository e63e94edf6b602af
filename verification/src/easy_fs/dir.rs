//! What the bytes of a directory mean, and when names, entries and link counts fit together.

use vstd::prelude::*;
use vstd::utf8::valid_utf8;

use super::fs_state::FileView;
use super::layout::{first_zero, good_name, lemma_stored_name, padded, stored_name};
use crate::bytes::{lemma_u32_bytes, splice, u32_at, u32_bytes};

verus! {

/// A directory entry: a name for an inode.
#[verifier::ext_equal]
pub struct EntryView {
    pub name: Seq<u8>,
    pub id: int,
}

/// The bytes of entry `k` of a directory.
pub open spec fn raw_entry(content: Seq<u8>, k: int) -> Seq<u8> {
    content.subrange(32 * k, 32 * k + 32)
}

/// The entry that 32 bytes stand for.
pub open spec fn entry_in(raw: Seq<u8>) -> EntryView {
    EntryView { name: stored_name(raw.subrange(0, 28)), id: u32_at(raw, 28) as int }
}

/// The entries of a directory, in the order in which they are stored.
pub open spec fn entries(content: Seq<u8>) -> Seq<EntryView> {
    Seq::new((content.len() / 32) as nat, |k: int| entry_in(raw_entry(content, k)))
}

/// The name field ends in a zero and what comes before it is text.
pub open spec fn readable(raw: Seq<u8>) -> bool {
    &&& first_zero(raw.subrange(0, 28)) < 28
    &&& valid_utf8(stored_name(raw.subrange(0, 28)))
}

/// The bytes of an entry.
pub open spec fn entry_bytes(name: Seq<u8>, id: u32) -> Seq<u8> {
    padded(name) + u32_bytes(id)
}

/// The first entry of that name, or the number of entries if there is none.
pub open spec fn position(es: Seq<EntryView>, name: Seq<u8>) -> int
    decreases es.len(),
{
    if es.len() == 0 || es[0].name == name {
        0
    } else {
        1 + position(es.drop_first(), name)
    }
}

/// The inode that a name stands for.
pub open spec fn lookup(es: Seq<EntryView>, name: Seq<u8>) -> Option<int> {
    if position(es, name) < es.len() {
        Some(es[position(es, name)].id)
    } else {
        None
    }
}

/// How many entries name inode `id`.
pub open spec fn links(es: Seq<EntryView>, id: int) -> int
    decreases es.len(),
{
    if es.len() == 0 {
        0
    } else {
        links(es.drop_last(), id) + if es.last().id == id {
            1int
        } else {
            0
        }
    }
}

/// The entries without entry `k`: the last one takes its place.
pub open spec fn without(es: Seq<EntryView>, k: int) -> Seq<EntryView> {
    es.update(k, es.last()).drop_last()
}

/// The content of a directory without entry `k`.
pub open spec fn content_without(content: Seq<u8>, k: int) -> Seq<u8> {
    splice(content, 32 * k, raw_entry(content, content.len() / 32 - 1)).take(content.len() - 32)
}

/// The directory consists of readable entries.
pub open spec fn all_readable(content: Seq<u8>) -> bool {
    &&& content.len() % 32 == 0
    &&& forall|k: int| 0 <= k < content.len() / 32 ==> readable(#[trigger] raw_entry(content, k))
}

/// Inode 0 is the root directory. Its entries are readable, no name occurs twice, every entry names
/// a regular file, and every regular file has as many links as there are entries that name it.
pub open spec fn tree_ok(files: Map<int, FileView>) -> bool {
    let content = files[0].content;
    let es = entries(content);
    &&& files.dom().contains(0)
    &&& files[0].directory
    &&& all_readable(content)
    &&& forall|j: int, k: int|
        0 <= j < k < es.len() ==> #[trigger] es[j].name != #[trigger] es[k].name
    &&& forall|k: int|
        0 <= k < es.len() ==> #[trigger] es[k].id != 0 && files.dom().contains(es[k].id)
    &&& forall|i: int| #[trigger]
        files.dom().contains(i) && i != 0 ==> !files[i].directory && files[i].nlink == links(es, i)
}

/// What `position` finds.
pub proof fn lemma_position(es: Seq<EntryView>, name: Seq<u8>, k: int)
    requires
        0 <= k <= es.len(),
        forall|j: int| 0 <= j < k ==> #[trigger] es[j].name != name,
        k == es.len() || es[k].name == name,
    ensures
        position(es, name) == k,
    decreases k,
{
    if k > 0 {
        assert(es[0].name != name);
        let t = es.drop_first();
        assert forall|j: int| 0 <= j < k - 1 implies #[trigger] t[j].name != name by {
            assert(t[j] == es[j + 1]);
        }
        lemma_position(t, name, k - 1);
    }
}

/// What `position` finds, the other way round.
pub proof fn lemma_position_found(es: Seq<EntryView>, name: Seq<u8>)
    ensures
        0 <= position(es, name) <= es.len(),
        forall|j: int| 0 <= j < position(es, name) ==> #[trigger] es[j].name != name,
        position(es, name) < es.len() ==> es[position(es, name)].name == name,
    decreases es.len(),
{
    if es.len() > 0 && es[0].name != name {
        let t = es.drop_first();
        lemma_position_found(t, name);
        assert forall|j: int| 0 <= j < position(es, name) implies #[trigger] es[j].name != name by {
            if j > 0 {
                assert(t[j - 1] == es[j]);
            }
        }
    }
}

/// Where no name occurs twice, an entry is found under its name.
pub proof fn lemma_lookup(es: Seq<EntryView>, k: int)
    requires
        0 <= k < es.len(),
        forall|i: int, j: int|
            0 <= i < j < es.len() ==> #[trigger] es[i].name != #[trigger] es[j].name,
    ensures
        position(es, es[k].name) == k,
        lookup(es, es[k].name) == Some(es[k].id),
{
    lemma_position(es, es[k].name, k);
}

proof fn lemma_links_update(es: Seq<EntryView>, k: int, e: EntryView, id: int)
    requires
        0 <= k < es.len(),
    ensures
        links(es.update(k, e), id) == links(es, id) - (if es[k].id == id {
            1int
        } else {
            0
        }) + (if e.id == id {
            1int
        } else {
            0
        }),
    decreases es.len(),
{
    let es2 = es.update(k, e);
    if k == es.len() - 1 {
        assert(es2.drop_last() =~= es.drop_last());
    } else {
        assert(es2.drop_last() =~= es.drop_last().update(k, e));
        lemma_links_update(es.drop_last(), k, e, id);
    }
}

/// Removing an entry removes one link of the inode that it names.
pub proof fn lemma_links_without(es: Seq<EntryView>, k: int, id: int)
    requires
        0 <= k < es.len(),
    ensures
        links(without(es, k), id) == links(es, id) - (if es[k].id == id {
            1int
        } else {
            0
        }),
{
    lemma_links_update(es, k, es.last(), id);
    let es2 = es.update(k, es.last());
    assert(es2.last() == es.last());
}

/// The number of links is counted.
pub proof fn lemma_links_bounds(es: Seq<EntryView>, id: int)
    ensures
        0 <= links(es, id) <= es.len(),
        forall|k: int| 0 <= k < es.len() && #[trigger] es[k].id == id ==> links(es, id) > 0,
        links(es, id) > 0 ==> exists|k: int| 0 <= k < es.len() && #[trigger] es[k].id == id,
    decreases es.len(),
{
    if es.len() > 0 {
        let t = es.drop_last();
        lemma_links_bounds(t, id);
        assert forall|k: int| 0 <= k < es.len() && #[trigger] es[k].id == id implies links(es, id)
            > 0 by {
            if k < t.len() {
                assert(t[k].id == id);
            }
        }
        if links(es, id) > 0 {
            if es.last().id == id {
                assert(es[es.len() - 1].id == id);
            } else {
                let k = choose|k: int| 0 <= k < t.len() && #[trigger] t[k].id == id;
                assert(es[k].id == id);
            }
        }
    }
}

/// The bytes of an entry are read back as its name and inode.
pub proof fn lemma_entry_bytes(name: Seq<u8>, id: u32)
    requires
        good_name(name),
        valid_utf8(name),
    ensures
        entry_bytes(name, id).len() == 32,
        entry_in(entry_bytes(name, id)) == (EntryView { name, id: id as int }),
        readable(entry_bytes(name, id)),
{
    lemma_u32_bytes();
    let raw = entry_bytes(name, id);
    assert(raw.subrange(0, 28) =~= padded(name));
    assert(raw.subrange(28, 32) =~= u32_bytes(id));
    lemma_stored_name(name);
}

/// A directory with a further entry at its end.
pub proof fn lemma_appended(content: Seq<u8>, raw: Seq<u8>)
    requires
        content.len() % 32 == 0,
        raw.len() == 32,
    ensures
        entries(content + raw) == entries(content).push(entry_in(raw)),
        (content + raw).len() % 32 == 0,
        forall|k: int|
            0 <= k < entries(content).len() ==> #[trigger] raw_entry(content + raw, k)
                == raw_entry(content, k),
        raw_entry(content + raw, entries(content).len() as int) == raw,
{
    let n = content.len() / 32;
    let c2 = content + raw;
    assert forall|k: int| 0 <= k < n implies #[trigger] raw_entry(c2, k) == raw_entry(
        content,
        k,
    ) by {
        assert(raw_entry(c2, k) =~= raw_entry(content, k));
    }
    assert(raw_entry(c2, n as int) =~= raw);
    assert(entries(c2) =~= entries(content).push(entry_in(raw)));
}

/// A directory without one of its entries.
pub proof fn lemma_content_without(content: Seq<u8>, k: int)
    requires
        content.len() % 32 == 0,
        0 <= k < content.len() / 32,
    ensures
        content_without(content, k).len() == content.len() - 32,
        entries(content_without(content, k)) == without(entries(content), k),
        forall|j: int|
            0 <= j < content.len() / 32 - 1 ==> #[trigger] raw_entry(content_without(content, k), j)
                == raw_entry(
                content,
                if j == k {
                    content.len() / 32 - 1
                } else {
                    j
                },
            ),
{
    let n = content.len() / 32;
    let c2 = content_without(content, k);
    let last = raw_entry(content, n - 1);
    assert forall|j: int| 0 <= j < n - 1 implies #[trigger] raw_entry(c2, j) == raw_entry(
        content,
        if j == k {
            n - 1
        } else {
            j
        },
    ) by {
        let src = if j == k {
            n - 1
        } else {
            j
        };
        assert(raw_entry(c2, j) =~= raw_entry(content, src));
    }
    assert(entries(c2) =~= without(entries(content), k));
}

/// A new name for a file, which is new too or has had other names before, keeps the tree in order.
pub proof fn lemma_tree_with(
    files: Map<int, FileView>,
    files2: Map<int, FileView>,
    id: u32,
    name: Seq<u8>,
)
    requires
        tree_ok(files),
        good_name(name),
        valid_utf8(name),
        id != 0,
        lookup(entries(files[0].content), name) is None,
        files2.dom() == files.dom().insert(id as int),
        forall|i: int|
            i != 0 && i != id && files.dom().contains(i) ==> #[trigger] files2[i] == files[i],
        !files2[id as int].directory,
        files2[id as int].nlink == (if files.dom().contains(id as int) {
            files[id as int].nlink + 1
        } else {
            1
        }),
        files2[0].directory,
        files2[0].content == files[0].content + entry_bytes(name, id),
    ensures
        tree_ok(files2),
        entries(files2[0].content) == entries(files[0].content).push(
            EntryView { name, id: id as int },
        ),
{
    let content = files[0].content;
    let raw = entry_bytes(name, id);
    let es = entries(content);
    let es2 = entries(files2[0].content);
    lemma_entry_bytes(name, id);
    lemma_appended(content, raw);
    lemma_position_found(es, name);
    assert forall|k: int| 0 <= k < es2.len() implies readable(
        #[trigger] raw_entry(files2[0].content, k),
    ) by {
        if k < es.len() {
            assert(readable(raw_entry(content, k)));
        }
    }
    assert forall|j: int, k: int| 0 <= j < k < es2.len() implies #[trigger] es2[j].name
        != #[trigger] es2[k].name by {
        assert(es2[j] == es[j]);
        if k < es.len() {
            assert(es2[k] == es[k]);
        }
    }
    assert forall|k: int| 0 <= k < es2.len() implies #[trigger] es2[k].id != 0
        && files2.dom().contains(es2[k].id) by {
        if k < es.len() {
            assert(es2[k] == es[k]);
        }
    }
    assert(es2.drop_last() =~= es);
    assert forall|i: int| #[trigger] files2.dom().contains(i) && i != 0 implies !files2[i].directory
        && files2[i].nlink == links(es2, i) by {
        if i != id {
            assert(files.dom().contains(i));
        } else if !files.dom().contains(i) {
            lemma_links_bounds(es, i);
        }
    }
}

/// Removing a name keeps the tree in order, if the file loses a link or, with its last link, is
/// gone.
pub proof fn lemma_tree_without(
    files: Map<int, FileView>,
    files2: Map<int, FileView>,
    name: Seq<u8>,
)
    requires
        tree_ok(files),
        lookup(entries(files[0].content), name) is Some,
        ({
            let es = entries(files[0].content);
            let k = position(es, name);
            let id = es[k].id;
            &&& files2.dom() == (if files[id].nlink == 1 {
                files.dom().remove(id)
            } else {
                files.dom()
            })
            &&& forall|i: int|
                i != 0 && i != id && files.dom().contains(i) ==> #[trigger] files2[i] == files[i]
            &&& files[id].nlink > 1 ==> !files2[id].directory && files2[id].nlink == files[id].nlink
                - 1
            &&& files2[0].directory
            &&& files2[0].content == content_without(files[0].content, k)
        }),
    ensures
        tree_ok(files2),
        lookup(entries(files2[0].content), name) is None,
{
    let content = files[0].content;
    let c2 = files2[0].content;
    let es = entries(content);
    let es2 = entries(c2);
    let k0 = position(es, name);
    let id = es[k0].id;
    let last = es.len() - 1;
    lemma_position_found(es, name);
    lemma_content_without(content, k0);
    lemma_links_bounds(es, id);
    assert forall|j: int| 0 <= j < es2.len() implies #[trigger] es2[j] == es[if j == k0 {
        last
    } else {
        j
    }] by {}
    assert forall|k: int| 0 <= k < es2.len() implies readable(#[trigger] raw_entry(c2, k)) by {
        let src = if k == k0 {
            last
        } else {
            k
        };
        assert(readable(raw_entry(content, src)));
    }
    assert forall|j: int, k: int| 0 <= j < k < es2.len() implies #[trigger] es2[j].name
        != #[trigger] es2[k].name by {
        let a = if j == k0 {
            last
        } else {
            j
        };
        let b = if k == k0 {
            last
        } else {
            k
        };
        if a < b {
            assert(es[a].name != es[b].name);
        } else {
            assert(es[b].name != es[a].name);
        }
    }
    assert forall|i: int| #[trigger] files2.dom().contains(i) && i != 0 implies !files2[i].directory
        && files2[i].nlink == links(es2, i) by {
        assert(files.dom().contains(i));
        lemma_links_without(es, k0, i);
    }
    lemma_links_without(es, k0, id);
    lemma_links_bounds(es2, id);
    assert forall|k: int| 0 <= k < es2.len() implies #[trigger] es2[k].id != 0
        && files2.dom().contains(es2[k].id) by {
        let src = if k == k0 {
            last
        } else {
            k
        };
        assert(es[src].id != 0 && files.dom().contains(es[src].id));
        if es2[k].id == id {
            assert(links(es2, id) > 0);
        }
    }
    assert forall|j: int| 0 <= j < es2.len() implies #[trigger] es2[j].name != name by {
        let src = if j == k0 {
            last
        } else {
            j
        };
        if src < k0 {
            assert(es[src].name != es[k0].name);
        } else {
            assert(es[k0].name != es[src].name);
        }
    }
    lemma_position(es2, name, es2.len() as int);
}

/// A change of a regular file that keeps its links keeps the tree in order.
pub proof fn lemma_tree_content(files: Map<int, FileView>, files2: Map<int, FileView>, id: int)
    requires
        tree_ok(files),
        id != 0,
        files.dom().contains(id),
        files2 == files.insert(id, files2[id]),
        !files2[id].directory,
        files2[id].nlink == files[id].nlink,
    ensures
        tree_ok(files2),
{
}

} // verus!
