//! The assembler text that puts the programs of the users into the image of the kernel.

use vstd::prelude::*;
use vstd::string::StringExecFns;

use crate::fs::apps::{in_order, sort};
use crate::mm::user::push_char;

verus! {

/// A number in decimal digits.
pub open spec fn decimal(n: nat) -> Seq<char>
    decreases n,
{
    let digit = (48 + n % 10) as char;
    if n < 10 {
        seq![digit]
    } else {
        decimal(n / 10).push(digit)
    }
}

/// Adds a number in decimal digits at the end of a text.
fn push_decimal(text: &mut String, n: usize)
    ensures
        final(text)@ == old(text)@ + decimal(n as nat),
    decreases n,
{
    let ghost before = text@;
    if n >= 10 {
        push_decimal(text, n / 10);
    }
    let digit: u8 = 48 + (n % 10) as u8;
    push_char(text, digit as char);
    assert(text@ =~= before + decimal(n as nat));
}

/// The part of a file name before the first dot; nothing if there is no dot.
pub open spec fn stem(name: Seq<char>) -> Option<Seq<char>>
    decreases name.len(),
{
    if name.len() == 0 {
        None
    } else if name[0] == '.' {
        Some(Seq::empty())
    } else {
        match stem(name.drop_first()) {
            Some(rest) => Some(seq![name[0]] + rest),
            None => None,
        }
    }
}

/// Where the first dot of a name stands.
proof fn lemma_stem(name: Seq<char>, k: int)
    requires
        0 <= k <= name.len(),
        forall|j: int| 0 <= j < k ==> #[trigger] name[j] != '.',
        k == name.len() || name[k] == '.',
    ensures
        stem(name) == (if k < name.len() {
            Some(name.take(k))
        } else {
            None
        }),
    decreases k,
{
    if k > 0 {
        assert(name[0] != '.');
        let t = name.drop_first();
        assert forall|j: int| 0 <= j < k - 1 implies #[trigger] t[j] != '.' by {
            assert(t[j] == name[j + 1]);
        }
        lemma_stem(t, k - 1);
        if k < name.len() {
            assert(seq![name[0]] + t.take(k - 1) =~= name.take(k));
        }
    } else if name.len() > 0 {
        assert(name.take(0) =~= Seq::empty());
    }
}

/// The part of a file name before the first dot.
pub fn strip_extension(name: &str) -> (r: Option<String>)
    ensures
        match stem(name@) {
            Some(text) => r matches Some(s) && s@ == text,
            None => r is None,
        },
{
    let ghost all = name@;
    let mut text: String = String::new();
    let mut found: bool = false;
    let ghost mut n: int = 0;
    assert(text@ =~= all.take(0));
    for c in iter: name.chars()
        invariant
            iter.seq() == all,
            0 <= n <= all.len(),
            !found ==> n == iter.index(),
            found ==> n < all.len() && all[n] == '.',
            text@ == all.take(n),
            forall|j: int| 0 <= j < n ==> #[trigger] all[j] != '.',
    {
        if !found {
            if c == '.' {
                found = true;
            } else {
                push_char(&mut text, c);
                proof {
                    assert(text@ =~= all.take(n + 1));
                    n = n + 1;
                }
            }
        }
    }
    proof {
        lemma_stem(all, n);
    }
    if found {
        Some(text)
    } else {
        None
    }
}

/// The text for one program: its bytes come from the file, between two marks.
pub open spec fn app_text(i: nat, name: Seq<char>, target: Seq<char>) -> Seq<char> {
    "\n    .section .data\n    .global app_"@ + decimal(i) + "_start\n    .global app_"@ + decimal(i)
        + "_end\napp_"@ + decimal(i) + "_start:\n    .incbin \""@ + target + name + ".bin\"\napp_"@
        + decimal(i) + "_end:\n"@
}

/// The table entries of the first `n` programs.
pub open spec fn table_text(n: nat) -> Seq<char>
    decreases n,
{
    if n == 0 {
        Seq::empty()
    } else {
        table_text((n - 1) as nat) + "    .quad app_"@ + decimal((n - 1) as nat) + "_start\n"@
    }
}

/// The texts of the first `n` programs.
pub open spec fn apps_text(names: Seq<String>, target: Seq<char>, n: int) -> Seq<char>
    decreases n,
{
    if n <= 0 {
        Seq::empty()
    } else {
        apps_text(names, target, n - 1) + app_text((n - 1) as nat, names[n - 1]@, target)
    }
}

/// The whole text: the number of programs, a table of where they start and where the last one ends,
/// and the programs themselves. `target` is the directory of their files.
pub open spec fn link_text(names: Seq<String>, target: Seq<char>) -> Seq<char> {
    let n = names.len();
    "\n    .align 3\n    .section .data\n    .global _num_app\n_num_app:\n    .quad "@ + decimal(n)
        + "\n"@ + table_text(n) + "    .quad app_"@ + decimal((n - 1) as nat) + "_end\n"@
        + apps_text(names, target, n as int)
}

/// Adds the text for one program.
fn push_app(text: &mut String, i: usize, name: &str, target: &str)
    ensures
        final(text)@ == old(text)@ + app_text(i as nat, name@, target@),
{
    let ghost before = text@;
    text.append("\n    .section .data\n    .global app_");
    push_decimal(text, i);
    text.append("_start\n    .global app_");
    push_decimal(text, i);
    text.append("_end\napp_");
    push_decimal(text, i);
    text.append("_start:\n    .incbin \"");
    text.append(target);
    text.append(name);
    text.append(".bin\"\napp_");
    push_decimal(text, i);
    text.append("_end:\n");
    assert(text@ =~= before + app_text(i as nat, name@, target@));
}

/// The text for the programs of these names, of which there is at least one, in the order of a
/// dictionary.
pub fn link_app(names: Vec<String>, target: &str) -> (r: (String, Vec<String>))
    requires
        names@.len() > 0,
    ensures
        in_order(r.1@),
        r.1@.to_multiset() == names@.to_multiset(),
        r.0@ == link_text(r.1@, target@),
{
    let ghost before = names@;
    let apps: Vec<String> = sort(names);
    proof {
        before.to_multiset_ensures();
        apps@.to_multiset_ensures();
    }
    let ghost all = apps@;
    let n: usize = apps.len();
    let mut text: String = String::new();
    text.append("\n    .align 3\n    .section .data\n    .global _num_app\n_num_app:\n    .quad ");
    push_decimal(&mut text, n);
    text.append("\n");
    let ghost head = text@;
    let mut i: usize = 0;
    assert(text@ =~= head + table_text(0));
    while i < n
        invariant
            i <= n,
            text@ == head + table_text(i as nat),
        decreases n - i,
    {
        text.append("    .quad app_");
        push_decimal(&mut text, i);
        text.append("_start\n");
        i += 1;
        assert(text@ =~= head + table_text(i as nat));
    }
    text.append("    .quad app_");
    push_decimal(&mut text, n - 1);
    text.append("_end\n");
    let ghost table = text@;
    i = 0;
    assert(text@ =~= table + apps_text(all, target@, 0));
    while i < n
        invariant
            i <= n,
            n == all.len(),
            all == apps@,
            text@ == table + apps_text(all, target@, i as int),
        decreases n - i,
    {
        push_app(&mut text, i, apps[i].as_str(), target);
        i += 1;
        assert(text@ =~= table + apps_text(all, target@, i as int));
    }
    proof {
        reveal_with_fuel(decimal, 1);
        assert(head =~=
            "\n    .align 3\n    .section .data\n    .global _num_app\n_num_app:\n    .quad "@
            + decimal(n as nat) + "\n"@);
        assert(text@ =~= link_text(all, target@));
    }
    (text, apps)
}

} // verus!
