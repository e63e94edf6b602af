//! The list of the programs in the root directory.

use vstd::multiset::Multiset;
use vstd::prelude::*;
use vstd::seq_lib::group_to_multiset_ensures;
use vstd::string::StringSliceAdditionalSpecFns;
use vstd::utf8::encode_utf8;

use super::inode::rooted;
use crate::easy_fs::block_dev::BlockDevice;
use crate::easy_fs::dir::entries;
use crate::easy_fs::efs::EasyFileSystem;
use crate::easy_fs::vfs::Inode;

verus! {

/// One text stands before another in a dictionary, or they are the same.
pub open spec fn not_after(a: Seq<u8>, b: Seq<u8>) -> bool
    decreases a.len(),
{
    if a.len() == 0 {
        true
    } else if b.len() == 0 {
        false
    } else {
        a[0] < b[0] || (a[0] == b[0] && not_after(a.drop_first(), b.drop_first()))
    }
}

/// The order goes on.
pub proof fn lemma_not_after(a: Seq<u8>, b: Seq<u8>, c: Seq<u8>)
    requires
        not_after(a, b),
        not_after(b, c),
    ensures
        not_after(a, c),
    decreases a.len(),
{
    if a.len() > 0 && a[0] == b[0] && b[0] == c[0] {
        lemma_not_after(a.drop_first(), b.drop_first(), c.drop_first());
    }
}

/// Of two texts one is not after the other.
pub proof fn lemma_total(a: Seq<u8>, b: Seq<u8>)
    ensures
        not_after(a, b) || not_after(b, a),
    decreases a.len(),
{
    if a.len() > 0 && b.len() > 0 && a[0] == b[0] {
        lemma_total(a.drop_first(), b.drop_first());
    }
}

/// Behind the same beginning the rest decides.
proof fn lemma_same_start(a: Seq<u8>, b: Seq<u8>, n: int)
    requires
        0 <= n <= a.len(),
        n <= b.len(),
        forall|i: int| 0 <= i < n ==> #[trigger] a[i] == b[i],
    ensures
        not_after(a, b) == not_after(a.skip(n), b.skip(n)),
    decreases n,
{
    if n == 0 {
        assert(a.skip(0) =~= a && b.skip(0) =~= b);
    } else {
        let (a1, b1) = (a.drop_first(), b.drop_first());
        assert(a[0] == b[0]);
        assert forall|i: int| 0 <= i < n - 1 implies #[trigger] a1[i] == b1[i] by {
            assert(a[i + 1] == b[i + 1]);
        }
        lemma_same_start(a1, b1, n - 1);
        assert(a1.skip(n - 1) =~= a.skip(n));
        assert(b1.skip(n - 1) =~= b.skip(n));
    }
}

/// Whether a text is not after another.
fn is_not_after(a: &str, b: &str) -> (r: bool)
    ensures
        r == not_after(a.spec_bytes(), b.spec_bytes()),
{
    let x: &[u8] = a.as_bytes();
    let y: &[u8] = b.as_bytes();
    let mut i: usize = 0;
    while i < x.len() && i < y.len()
        invariant
            i <= x@.len(),
            i <= y@.len(),
            x@ == a.spec_bytes(),
            y@ == b.spec_bytes(),
            forall|j: int| 0 <= j < i ==> #[trigger] x@[j] == y@[j],
        decreases x@.len() - i,
    {
        if x[i] != y[i] {
            proof {
                lemma_same_start(x@, y@, i as int);
            }
            return x[i] < y[i];
        }
        i += 1;
    }
    proof {
        lemma_same_start(x@, y@, i as int);
    }
    i == x.len()
}

/// The texts stand in the order of a dictionary.
pub open spec fn in_order(names: Seq<String>) -> bool {
    forall|i: int, j: int|
        0 <= i < j < names.len() ==> not_after(
            encode_utf8(#[trigger] names[i]@),
            encode_utf8(#[trigger] names[j]@),
        )
}

/// Puts a text into its place.
fn put_in_order(names: &mut Vec<String>, name: String)
    requires
        in_order(old(names)@),
    ensures
        in_order(final(names)@),
        final(names)@.to_multiset() == old(names)@.to_multiset().insert(name),
{
    let ghost before = names@;
    let mut i: usize = 0;
    while i < names.len() && is_not_after(names[i].as_str(), name.as_str())
        invariant
            i <= names@.len(),
            names@ == before,
            forall|j: int|
                0 <= j < i ==> not_after(encode_utf8(#[trigger] names@[j]@), encode_utf8(name@)),
        decreases names@.len() - i,
    {
        i += 1;
    }
    proof {
        let n = encode_utf8(name@);
        assert forall|j: int| i <= j < before.len() implies not_after(
            n,
            encode_utf8(#[trigger] before[j]@),
        ) by {
            lemma_total(n, encode_utf8(before[i as int]@));
            if i < j {
                lemma_not_after(n, encode_utf8(before[i as int]@), encode_utf8(before[j]@));
            }
        }
        let after = before.insert(i as int, name);
        assert forall|a: int, b: int| 0 <= a < b < after.len() implies not_after(
            encode_utf8(#[trigger] after[a]@),
            encode_utf8(#[trigger] after[b]@),
        ) by {
            let a0 = if a < i {
                a
            } else {
                a - 1
            };
            let b0 = if b < i {
                b
            } else {
                b - 1
            };
            if a != i && b != i {
                assert(after[a] == before[a0] && after[b] == before[b0]);
            } else if a == i {
                assert(after[b] == before[b0]);
            } else {
                assert(after[a] == before[a0]);
            }
        }
        broadcast use group_to_multiset_ensures;

    }
    names.insert(i, name);
}

/// Puts texts into the order of a dictionary.
pub fn sort(names: Vec<String>) -> (r: Vec<String>)
    ensures
        in_order(r@),
        r@.to_multiset() == names@.to_multiset(),
{
    let ghost all = names@;
    let mut rest: Vec<String> = names;
    let mut sorted: Vec<String> = Vec::new();
    proof {
        broadcast use group_to_multiset_ensures;

        assert(sorted@.to_multiset() =~= Multiset::empty());
        assert(rest@.to_multiset().add(sorted@.to_multiset()) =~= all.to_multiset());
    }
    while rest.len() > 0
        invariant
            in_order(sorted@),
            rest@.to_multiset().add(sorted@.to_multiset()) == all.to_multiset(),
        decreases rest@.len(),
    {
        let ghost before = rest@;
        let ghost sorted0 = sorted@;
        if let Some(name) = rest.pop() {
            put_in_order(&mut sorted, name);
            proof {
                broadcast use group_to_multiset_ensures;

                assert(before =~= rest@.push(name));
                assert(rest@.to_multiset().add(sorted@.to_multiset())
                    =~= before.to_multiset().add(sorted0.to_multiset()));
            }
        }
    }
    proof {
        broadcast use group_to_multiset_ensures;

        assert(rest@ =~= Seq::empty());
        assert(rest@.to_multiset() =~= Multiset::empty());
        assert(sorted@.to_multiset() =~= all.to_multiset());
    }
    sorted
}

/// The names in the root directory, in the order in which they stand there.
pub fn list_apps<D: BlockDevice>(fs: &mut EasyFileSystem<D>) -> (r: Vec<String>)
    requires
        rooted(old(fs)),
    ensures
        rooted(final(fs)),
        final(fs).same_shape(old(fs)),
        final(fs).disk() == old(fs).disk(),
        names_of(old(fs), r@),
{
    let root: Inode = fs.root_inode();
    root.ls(fs)
}

/// These are the names in the root directory, in the order in which they stand there.
pub open spec fn names_of<D: BlockDevice>(fs: &EasyFileSystem<D>, names: Seq<String>) -> bool {
    let es = entries(fs.files()[0].content);
    &&& names.len() == es.len()
    &&& forall|k: int| 0 <= k < es.len() ==> encode_utf8(#[trigger] names[k]@) == es[k].name
}

/// The names in the root directory, in the order of a dictionary.
pub fn list_apps_sorted<D: BlockDevice>(fs: &mut EasyFileSystem<D>) -> (r: Vec<String>)
    requires
        rooted(old(fs)),
    ensures
        rooted(final(fs)),
        final(fs).same_shape(old(fs)),
        final(fs).disk() == old(fs).disk(),
        in_order(r@),
        exists|names: Seq<String>|
            names_of(old(fs), names) && #[trigger] names.to_multiset() == r@.to_multiset(),
{
    let names: Vec<String> = list_apps(fs);
    sort(names)
}

/// What the order of a dictionary is: behind the beginning that two texts share, the smaller byte comes
/// first, and a text that is over comes before one that goes on.
pub proof fn law_order_of_a_dictionary(a: Seq<u8>, b: Seq<u8>, n: int)
    requires
        0 <= n <= a.len(),
        n <= b.len(),
        forall|i: int| 0 <= i < n ==> #[trigger] a[i] == b[i],
    ensures
        n == a.len() ==> not_after(a, b),
        n == b.len() && n < a.len() ==> !not_after(a, b),
        n < a.len() && n < b.len() && a[n] != b[n] ==> not_after(a, b) == (a[n] < b[n]),
{
    lemma_same_start(a, b, n);
}

/// The sorted list of names has every name of the root directory, as often as it stands there and no
/// other, and no name stands behind one that comes after it in a dictionary.
pub proof fn law_list_apps_sorted<D: BlockDevice>(
    fs0: EasyFileSystem<D>,
    fs1: EasyFileSystem<D>,
    r: Vec<String>,
    i: int,
    j: int,
)
    requires
        exists|fs: &mut EasyFileSystem<D>| #[trigger]
            call_ensures(list_apps_sorted::<D>, (fs,), r) && *fs == fs0 && *final(fs) == fs1,
        0 <= i < j < r@.len(),
    ensures
        fs1.files() == fs0.files(),
        r@.len() == entries(fs0.files()[0].content).len(),
        not_after(encode_utf8(r@[i]@), encode_utf8(r@[j]@)),
        exists|k: int|
            0 <= k < r@.len() && (#[trigger] entries(fs0.files()[0].content)[k]).name == encode_utf8(
                r@[i]@,
            ),
{
    let names = choose|names: Seq<String>|
        names_of(&fs0, names) && #[trigger] names.to_multiset() == r@.to_multiset();
    names.to_multiset_ensures();
    r@.to_multiset_ensures();
    assert(r@.contains(r@[i]));
    assert(r@.to_multiset().count(r@[i]) > 0);
    assert(names.contains(r@[i]));
    let k = names.index_of(r@[i]);
    assert(encode_utf8(names[k]@) == entries(fs0.files()[0].content)[k].name);
}

} // verus!
