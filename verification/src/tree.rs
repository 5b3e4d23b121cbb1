//! What a patched device tree holds, told from the bytes of the format: numbers of four bytes,
//! the highest first, tokens, names that a 0 ends, and properties.

use vstd::prelude::*;
use crate::bytes::{be, be_bytes, lemma_be_of_be_bytes, lemma_span_of_widths, overwrite};
use crate::dtb::{
    bootargs_property, chosen_properties, inserted, layout_of, memory_reg, named, nul_after,
    reassembled, string_at, strings_of, struct_of, with_bootargs, with_memory_size, word_at, Depth,
    Layout,
};

verus! {

/// The number in the four bytes at `at`, the highest first.
#[verifier::opaque]
pub open spec fn four(s: Seq<u8>, at: int) -> int {
    s[at] * 0x100_0000 + s[at + 1] * 0x1_0000 + s[at + 2] * 0x100 + s[at + 3]
}

/// Whether there are four bytes at `at`.
pub open spec fn has_four(s: Seq<u8>, at: int) -> bool {
    0 <= at && at + 4 <= s.len()
}

/// Whether the bytes from `at` on are a name of `n` bytes, which a 0 ends.
pub open spec fn ends_after(s: Seq<u8>, at: int, n: int) -> bool {
    &&& 0 <= at && 0 <= n && at + n < s.len()
    &&& s[at + n] == 0
    &&& forall|k: int| at <= k < at + n ==> #[trigger] s[k] != 0
}

/// `n` rounded up to a multiple of 4.
pub open spec fn up_to_four(n: int) -> int {
    (n + 3) / 4 * 4
}

proof fn lemma_four(s: Seq<u8>, at: int)
    ensures
        word_at(s, at) is Some <==> has_four(s, at),
        has_four(s, at) ==> word_at(s, at)->0 == four(s, at),
        0 <= four(s, at) < 0x1_0000_0000,
{
    reveal(four);
    if has_four(s, at) {
        let w = s.subrange(at, at + 4);
        let w3 = w.drop_last();
        let w2 = w3.drop_last();
        let w1 = w2.drop_last();
        assert(w1.drop_last() =~= Seq::<u8>::empty());
        assert(be(w1.drop_last()) == 0);
        assert(be(w1) == s[at]);
        assert(be(w2) == s[at] * 0x100 + s[at + 1]);
        assert(be(w3) == s[at] * 0x1_0000 + s[at + 1] * 0x100 + s[at + 2]);
    }
}

proof fn lemma_name(s: Seq<u8>, at: int, n: int)
    ensures
        nul_after(s, at) == Some(n) <==> ends_after(s, at, n),
    decreases s.len() - at,
{
    if 0 <= at < s.len() {
        lemma_name(s, at + 1, n - 1);
        if s[at] == 0 {
            if ends_after(s, at, n) && n > 0 {
                assert(s[at] != 0);
            }
        } else {
            if ends_after(s, at, n) {
                assert(ends_after(s, at + 1, n - 1));
            }
            if ends_after(s, at + 1, n - 1) {
                assert(ends_after(s, at, n));
            }
        }
    }
}

// Walking the structure.

/// Walking for the properties of `/chosen` goes from token to token. A node starts with token 1
/// and its name; token 2 ends one, token 4 is nothing, and token 3 is a property with its length,
/// where its name is, and its value. All start at a multiple of 4. The walk ends at the node that
/// is called `chosen` in the root, with what comes after its name, and at anything else.
pub proof fn law_the_walk_for_chosen(s: Seq<u8>, i: int, depth: int, n: int)
    requires
        0 <= i,
    ensures
        ({
            let here = chosen_properties(s, i, depth);
            let tok = four(s, i);
            let is_chosen = n == 6 && s.subrange(i + 4, i + 10) == seq![
                0x63u8, 0x68, 0x6f, 0x73, 0x65, 0x6e,
            ];
            &&& !has_four(s, i) ==> here is None
            &&& has_four(s, i) && tok == 1 && ends_after(s, i + 4, n) ==> here == if depth == 1
                && is_chosen {
                Some(up_to_four(i + 4 + n + 1))
            } else {
                chosen_properties(s, up_to_four(i + 4 + n + 1), depth + 1)
            }
            &&& has_four(s, i) && tok == 2 ==> here == chosen_properties(s, i + 4, depth - 1)
            &&& has_four(s, i) && tok == 4 ==> here == chosen_properties(s, i + 4, depth)
            &&& has_four(s, i) && tok == 3 && has_four(s, i + 4) ==> here == chosen_properties(
                s,
                up_to_four(i + 12 + four(s, i + 4)),
                depth,
            )
            &&& has_four(s, i) && (tok == 0 || tok > 4) ==> here is None
        }),
{
    lemma_four(s, i);
    lemma_four(s, i + 4);
    lemma_name(s, i + 4, n);
    let c = seq![0x63u8, 0x68, 0x6f, 0x73, 0x65, 0x6e];
    assert(c =~= crate::dtb::chosen_name());
    if ends_after(s, i + 4, n) {
        assert(s.subrange(i + 4, i + 4 + n).len() == n);
    }
}

/// Whether the name of `n` bytes at `at` is `memory`, or that and an address after `@`.
pub open spec fn is_memory_node(s: Seq<u8>, at: int, n: int) -> bool {
    &&& n == 6 || (n >= 7 && s[at + 6] == 0x40)
    &&& s[at] == 0x6d && s[at + 1] == 0x65 && s[at + 2] == 0x6d && s[at + 3] == 0x6f
    &&& s[at + 4] == 0x72 && s[at + 5] == 0x79
}

proof fn lemma_memory_node(s: Seq<u8>, at: int, n: int)
    requires
        ends_after(s, at, n),
    ensures
        crate::dtb::is_memory(s.subrange(at, at + n)) == is_memory_node(s, at, n),
{
    let name = s.subrange(at, at + n);
    let m = crate::dtb::memory_name();
    let with_unit = m.push(0x40);
    if is_memory_node(s, at, n) {
        if n == 6 {
            assert(name =~= m);
        } else {
            assert(name.take(7) =~= with_unit);
        }
    }
    if name == m {
        assert(name[0] == 0x6d && name[1] == 0x65 && name[2] == 0x6d && name[3] == 0x6f && name[4]
            == 0x72 && name[5] == 0x79);
    }
    if name.len() >= 7 && name.take(7) == with_unit {
        let t = name.take(7);
        assert(t[0] == 0x6d && t[1] == 0x65 && t[2] == 0x6d && t[3] == 0x6f && t[4] == 0x72 && t[5]
            == 0x79 && t[6] == 0x40);
    }
}

/// Walking for the memory's extent goes from token to token likewise, and ends at the property
/// `reg` of sixteen bytes in a node that is called `memory`, with or without an address, itself
/// and not in a node of it.
pub proof fn law_the_walk_for_memory(
    s: Seq<u8>,
    strings: Seq<u8>,
    i: int,
    now: int,
    memory: Option<int>,
    n: int,
)
    requires
        0 <= i,
    ensures
        ({
            let here = memory_reg(s, strings, i, Depth { now, memory });
            let tok = four(s, i);
            let len = four(s, i + 4);
            let name = four(s, i + 8);
            &&& !has_four(s, i) ==> here is None
            &&& has_four(s, i) && tok == 1 && ends_after(s, i + 4, n) ==> here == memory_reg(
                s,
                strings,
                up_to_four(i + 4 + n + 1),
                Depth {
                    now: now + 1,
                    memory: if is_memory_node(s, i + 4, n) {
                        Some(now + 1)
                    } else {
                        memory
                    },
                },
            )
            &&& has_four(s, i) && tok == 2 ==> here == memory_reg(
                s,
                strings,
                i + 4,
                Depth {
                    now: now - 1,
                    memory: if memory == Some(now) {
                        None
                    } else {
                        memory
                    },
                },
            )
            &&& has_four(s, i) && tok == 4 ==> here == memory_reg(
                s,
                strings,
                i + 4,
                Depth { now, memory },
            )
            &&& has_four(s, i) && tok == 3 && has_four(s, i + 4) && has_four(s, i + 8) && !(memory
                == Some(now) && len == 16) ==> here == memory_reg(
                s,
                strings,
                up_to_four(i + 12 + len),
                Depth { now, memory },
            )
            &&& has_four(s, i) && tok == 3 && has_four(s, i + 4) && has_four(s, i + 8) && memory
                == Some(now) && len == 16 && ends_after(strings, name, n) ==> here == if n == 3
                && strings[name] == 0x72 && strings[name + 1] == 0x65 && strings[name + 2] == 0x67 {
                Some(i + 12)
            } else {
                memory_reg(s, strings, up_to_four(i + 12 + len), Depth { now, memory })
            }
            &&& has_four(s, i) && (tok == 0 || tok > 4) ==> here is None
        }),
{
    lemma_four(s, i);
    lemma_four(s, i + 4);
    lemma_four(s, i + 8);
    lemma_name(s, i + 4, n);
    let name = four(s, i + 8);
    lemma_name(strings, name, n);
    if ends_after(s, i + 4, n) {
        lemma_memory_node(s, i + 4, n);
    }
    if ends_after(strings, name, n) {
        let found = strings.subrange(name, name + n);
        let reg = crate::dtb::reg_name();
        assert(found.len() == n && reg.len() == 3);
        if found == reg {
            assert(found[0] == 0x72 && found[1] == 0x65 && found[2] == 0x67);
            assert(strings[name] == found[0] && strings[name + 1] == found[1]);
            assert(strings[name + 2] == found[2]);
        }
        if n == 3 && strings[name] == 0x72 && strings[name + 1] == 0x65 && strings[name + 2]
            == 0x67 {
            assert(found =~= reg);
        }
    }
}

// The header.

/// A tree starts with `d00dfeed`. Its header tells at 8 and 36 where its structure is and how
/// long, and at 12 and 32 where its strings are and how long; both are in the tree.
pub proof fn law_the_header(dtb: Seq<u8>)
    ensures
        layout_of(dtb) is Some <==> dtb.len() >= 40 && four(dtb, 0) == 0xd00d_feed && four(dtb, 8)
            + four(dtb, 36) <= dtb.len() && four(dtb, 12) + four(dtb, 32) <= dtb.len(),
        layout_of(dtb) is Some && dtb.len() <= usize::MAX ==> {
            let l = layout_of(dtb)->0;
            &&& l.off_struct == four(dtb, 8)
            &&& l.size_struct == four(dtb, 36)
            &&& l.off_strings == four(dtb, 12)
            &&& l.size_strings == four(dtb, 32)
        },
{
    lemma_four(dtb, 0);
    lemma_four(dtb, 8);
    lemma_four(dtb, 12);
    lemma_four(dtb, 32);
    lemma_four(dtb, 36);
}

/// The bytes of a number of four, the highest first.
proof fn lemma_be_bytes_four(v: nat)
    requires
        v < 0x1_0000_0000,
    ensures
        be_bytes(v, 4).len() == 4,
        four(be_bytes(v, 4), 0) == v,
{
    lemma_be_of_be_bytes(v, 4);
    lemma_span_of_widths();
    let b = be_bytes(v, 4);
    lemma_four(b, 0);
    assert(b.subrange(0, 4) =~= b);
}

/// A number is where its bytes are.
proof fn lemma_same_four(s: Seq<u8>, at: int, t: Seq<u8>, from: int)
    requires
        s[at] == t[from],
        s[at + 1] == t[from + 1],
        s[at + 2] == t[from + 2],
        s[at + 3] == t[from + 3],
    ensures
        four(s, at) == four(t, from),
{
    reveal(four);
}

proof fn lemma_eight(s: Seq<u8>, at: int)
    requires
        0 <= at,
        at + 8 <= s.len(),
    ensures
        be(s.subrange(at, at + 8)) == four(s, at) * 0x1_0000_0000 + four(s, at + 4),
{
    let w = s.subrange(at, at + 8);
    let w7 = w.drop_last();
    let w6 = w7.drop_last();
    let w5 = w6.drop_last();
    let w4 = w5.drop_last();
    lemma_four(s, at);
    reveal(four);
    assert(w4 =~= s.subrange(at, at + 4));
    assert(be(w5) == be(w4) * 0x100 + s[at + 4]);
    assert(be(w6) == be(w4) * 0x1_0000 + s[at + 4] * 0x100 + s[at + 5]);
    assert(be(w7) == be(w4) * 0x100_0000 + s[at + 4] * 0x1_0000 + s[at + 5] * 0x100 + s[at + 6]);
}

/// Setting the memory size writes it over the second half of the sixteen bytes that the walk
/// finds, the highest byte first, and changes nothing else.
pub proof fn law_the_memory_size_is_written(dtb: Seq<u8>, size: u64, at: int)
    requires
        layout_of(dtb) is Some,
        dtb.len() <= usize::MAX,
        ({
            let s = dtb.subrange(four(dtb, 8), four(dtb, 8) + four(dtb, 36));
            let strings = dtb.subrange(four(dtb, 12), four(dtb, 12) + four(dtb, 32));
            memory_reg(s, strings, 0, Depth { now: 0, memory: None }) == Some(at)
        }),
        0 <= at,
        four(dtb, 8) + at + 16 <= dtb.len(),
    ensures
        with_memory_size(dtb, size) is Some,
        ({
            let out = with_memory_size(dtb, size)->0;
            let p = four(dtb, 8) + at + 8;
            &&& out.len() == dtb.len()
            &&& four(out, p) * 0x1_0000_0000 + four(out, p + 4) == size
            &&& forall|i: int|
                0 <= i < dtb.len() && !(p <= i < p + 8) ==> #[trigger] out[i] == dtb[i]
        }),
{
    law_the_header(dtb);
    lemma_be_of_be_bytes(size as nat, 8);
    lemma_span_of_widths();
    let out = with_memory_size(dtb, size)->0;
    let p = four(dtb, 8) + at + 8;
    lemma_eight(out, p);
    assert(out.subrange(p, p + 8) =~= be_bytes(size as nat, 8));
}

// Boot arguments.

/// Where a string is among others is the start of one of them, which it is the whole of.
pub proof fn law_a_string_is_found(strings: Seq<u8>, needle: Seq<u8>, off: int)
    requires
        string_at(strings, needle, off) is Some,
        0 <= off,
        off == 0 || strings[off - 1] == 0,
    ensures
        ({
            let at = string_at(strings, needle, off)->0;
            &&& off <= at
            &&& ends_after(strings, at, needle.len() as int)
            &&& strings.subrange(at, at + needle.len()) == needle
            &&& at == 0 || strings[at - 1] == 0
        }),
    decreases strings.len() - off,
{
    let n = nul_after(strings, off)->0;
    lemma_name(strings, off, n);
    if strings.subrange(off, off + n) == needle {
        assert(needle.len() == n);
    } else {
        law_a_string_is_found(strings, needle, off + n + 1);
    }
}

/// The name `bootargs` is among the strings after it was asked for: where it was found, or after
/// the others, which stay.
pub proof fn law_the_name_is_among_the_strings(strings: Seq<u8>)
    ensures
        ({
            let (at, all) = named(strings);
            &&& strings.is_prefix_of(all)
            &&& 0 <= at && at + 9 <= all.len()
            &&& all.subrange(at, at + 9) == seq![
                0x62u8, 0x6f, 0x6f, 0x74, 0x61, 0x72, 0x67, 0x73, 0,
            ]
        }),
{
    let (at, all) = named(strings);
    let name = crate::dtb::bootargs_name();
    if string_at(strings, name, 0) is Some {
        law_a_string_is_found(strings, name, 0);
        assert(all.subrange(at, at + 8) == name);
        assert forall|k: int| 0 <= k < 8 implies all[at + k] == name[k] by {
            assert(all.subrange(at, at + 8)[k] == name[k]);
        }
    }
    assert(all.subrange(at, at + 9) =~= seq![
        0x62u8, 0x6f, 0x6f, 0x74, 0x61, 0x72, 0x67, 0x73, 0,
    ]);
}

/// The property is token 3, the length of its value with the 0 that ends it, where its name is,
/// the value, and as many 0 as make it a multiple of four.
pub proof fn law_the_property_holds_the_arguments(nameoff: int, args: Seq<u8>)
    requires
        0 <= nameoff < 0x1_0000_0000,
        args.len() + 1 < 0x1_0000_0000,
    ensures
        ({
            let p = bootargs_property(nameoff, args);
            &&& p.len() == up_to_four(13 + args.len() as int)
            &&& four(p, 0) == 3
            &&& four(p, 4) == args.len() + 1
            &&& four(p, 8) == nameoff
            &&& p.subrange(12, 12 + args.len() as int) == args
            &&& forall|i: int| 12 + args.len() <= i < p.len() ==> #[trigger] p[i] == 0
        }),
{
    lemma_be_bytes_four(3);
    lemma_be_bytes_four(args.len() + 1);
    lemma_be_bytes_four(nameoff as nat);
    let p = bootargs_property(nameoff, args);
    let (a, b, c) = (
        be_bytes(3, 4),
        be_bytes((args.len() + 1) as nat, 4),
        be_bytes(nameoff as nat, 4),
    );
    lemma_same_four(p, 0, a, 0);
    lemma_same_four(p, 4, b, 0);
    lemma_same_four(p, 8, c, 0);
    assert(p.subrange(12, 12 + args.len() as int) =~= args);
}

/// A tree with boot arguments has the property in its structure where the walk for `/chosen`
/// ends, the rest of the structure before and after it, and the strings after that; its header
/// tells of the new sizes and places, and is otherwise as it was.
#[verifier::spinoff_prover]
#[verifier::rlimit(60)]
pub proof fn law_boot_arguments_are_in_the_tree(dtb: Seq<u8>, args: Seq<u8>, at: int)
    requires
        layout_of(dtb) is Some,
        2 * dtb.len() + args.len() + 100 < 0x1_0000_0000,
        dtb.len() <= usize::MAX,
        four(dtb, 8) >= 40,
        chosen_properties(dtb.subrange(four(dtb, 8), four(dtb, 8) + four(dtb, 36)), 0, 0) == Some(
            at,
        ),
        0 <= at <= four(dtb, 36),
    ensures
        with_bootargs(dtb, args) is Some,
        ({
            let out = with_bootargs(dtb, args)->0;
            let start = four(dtb, 8);
            let size = four(dtb, 36);
            let (nameoff, strings) = named(
                dtb.subrange(four(dtb, 12), four(dtb, 12) + four(dtb, 32)),
            );
            let p = bootargs_property(nameoff, args);
            let end = start + size + p.len();
            &&& out.len() == end + strings.len()
            &&& four(out, 4) == out.len()
            &&& four(out, 8) == start
            &&& four(out, 12) == end
            &&& four(out, 32) == strings.len()
            &&& four(out, 36) == size + p.len()
            &&& forall|i: int|
                0 <= i < start && !(4 <= i < 8) && !(12 <= i < 16) && !(32 <= i < 40)
                    ==> #[trigger] out[i] == dtb[i]
            &&& out.subrange(start, start + at) == dtb.subrange(start, start + at)
            &&& out.subrange(start + at, start + at + p.len()) == p
            &&& out.subrange(start + at + p.len(), end) == dtb.subrange(start + at, start + size)
            &&& out.skip(end) == strings
        }),
{
    let start = four(dtb, 8);
    let size = four(dtb, 36);
    let s = dtb.subrange(start, start + size);
    let old_strings = dtb.subrange(four(dtb, 12), four(dtb, 12) + four(dtb, 32));
    let (nameoff, strings) = named(old_strings);
    let p = bootargs_property(nameoff, args);
    law_the_header(dtb);
    lemma_four(dtb, 8);
    lemma_four(dtb, 36);
    lemma_sizes(dtb, args);
    lemma_with_bootargs(dtb, layout_of(dtb)->0, args, at);
    lemma_tree(dtb, start, size, at, p, strings);
}

proof fn lemma_tree(dtb: Seq<u8>, start: int, size: int, at: int, p: Seq<u8>, strings: Seq<u8>)
    requires
        40 <= start,
        start + size <= dtb.len(),
        0 <= at <= size,
        start + size + p.len() + strings.len() < 0x1_0000_0000,
    ensures
        ({
            let block = inserted(dtb.subrange(start, start + size), at, p);
            let out = reassembled(dtb, start, block, strings);
            let end = start + size + p.len();
            &&& out.len() == end + strings.len()
            &&& four(out, 4) == out.len()
            &&& four(out, 8) == four(dtb, 8)
            &&& four(out, 12) == end
            &&& four(out, 32) == strings.len()
            &&& four(out, 36) == size + p.len()
            &&& forall|i: int|
                0 <= i < start && !(4 <= i < 8) && !(12 <= i < 16) && !(32 <= i < 40)
                    ==> #[trigger] out[i] == dtb[i]
            &&& out.subrange(start, start + at) == dtb.subrange(start, start + at)
            &&& out.subrange(start + at, start + at + p.len()) == p
            &&& out.subrange(start + at + p.len(), end) == dtb.subrange(start + at, start + size)
            &&& out.skip(end) == strings
        }),
{
    let s = dtb.subrange(start, start + size);
    let block = inserted(s, at, p);
    let out = reassembled(dtb, start, block, strings);
    lemma_inserted(s, at, p);
    lemma_reassembled(dtb, start, block, strings);
    lemma_parts_of_a_part(out, start, block, at, p.len() as int);
    assert(s.take(at) =~= dtb.subrange(start, start + at));
    assert(s.skip(at) =~= dtb.subrange(start + at, start + size));
}

proof fn lemma_inserted(s: Seq<u8>, at: int, p: Seq<u8>)
    requires
        0 <= at <= s.len(),
    ensures
        ({
            let block = inserted(s, at, p);
            &&& block.len() == s.len() + p.len()
            &&& block.subrange(0, at) == s.take(at)
            &&& block.subrange(at, at + p.len()) == p
            &&& block.subrange(at + p.len(), block.len() as int) == s.skip(at)
        }),
{
    let block = inserted(s, at, p);
    assert(block.subrange(0, at) =~= s.take(at));
    assert(block.subrange(at, at + p.len()) =~= p);
    assert(block.subrange(at + p.len(), block.len() as int) =~= s.skip(at));
}

proof fn lemma_parts_of_a_part(out: Seq<u8>, start: int, block: Seq<u8>, at: int, n: int)
    requires
        0 <= start,
        start + block.len() <= out.len(),
        out.subrange(start, start + block.len()) == block,
        0 <= at,
        0 <= n,
        at + n <= block.len(),
    ensures
        out.subrange(start, start + at) == block.subrange(0, at),
        out.subrange(start + at, start + at + n) == block.subrange(at, at + n),
        out.subrange(start + at + n, start + block.len()) == block.subrange(
            at + n,
            block.len() as int,
        ),
{
    let whole = out.subrange(start, start + block.len());
    assert(out.subrange(start, start + at) =~= whole.subrange(0, at));
    assert(out.subrange(start + at, start + at + n) =~= whole.subrange(at, at + n));
    assert(out.subrange(start + at + n, start + block.len()) =~= whole.subrange(
        at + n,
        block.len() as int,
    ));
}

/// How much room the new parts take.
proof fn lemma_sizes(dtb: Seq<u8>, args: Seq<u8>)
    requires
        layout_of(dtb) is Some,
        2 * dtb.len() + args.len() + 100 < 0x1_0000_0000,
    ensures
        ({
            let (nameoff, strings) = named(
                dtb.subrange(four(dtb, 12), four(dtb, 12) + four(dtb, 32)),
            );
            &&& bootargs_property(nameoff, args).len() <= args.len() + 16
            &&& strings.len() <= four(dtb, 32) + 9
            &&& 0 <= nameoff < 0x1_0000_0000
        }),
{
    law_the_header(dtb);
    lemma_four(dtb, 12);
    lemma_four(dtb, 32);
    let old_strings = dtb.subrange(four(dtb, 12), four(dtb, 12) + four(dtb, 32));
    law_the_name_is_among_the_strings(old_strings);
    law_the_property_holds_the_arguments(named(old_strings).0, args);
}

/// Which tree is put together.
proof fn lemma_with_bootargs(dtb: Seq<u8>, l: Layout, args: Seq<u8>, at: int)
    requires
        layout_of(dtb) == Some(l),
        l.off_struct >= 40,
        chosen_properties(struct_of(dtb, l), 0, 0) == Some(at),
        at <= struct_of(dtb, l).len(),
    ensures
        ({
            let (nameoff, strings) = named(strings_of(dtb, l));
            let block = inserted(struct_of(dtb, l), at, bootargs_property(nameoff, args));
            with_bootargs(dtb, args) == Some(
                reassembled(dtb, l.off_struct as int, block, strings),
            )
        }),
{
}

/// What a tree put together anew holds.
#[verifier::spinoff_prover]
#[verifier::rlimit(60)]
proof fn lemma_reassembled(dtb: Seq<u8>, start: int, block: Seq<u8>, strings: Seq<u8>)
    requires
        40 <= start <= dtb.len(),
        start + block.len() + strings.len() < 0x1_0000_0000,
    ensures
        ({
            let out = reassembled(dtb, start, block, strings);
            let end = start + block.len() as int;
            &&& out.len() == end + strings.len()
            &&& four(out, 4) == out.len()
            &&& four(out, 8) == four(dtb, 8)
            &&& four(out, 12) == end
            &&& four(out, 32) == strings.len()
            &&& four(out, 36) == block.len()
            &&& forall|i: int|
                0 <= i < start && !(4 <= i < 8) && !(12 <= i < 16) && !(32 <= i < 40)
                    ==> #[trigger] out[i] == dtb[i]
            &&& out.subrange(start, end) == block
            &&& out.skip(end) == strings
        }),
{
    let raw = dtb.take(start) + block + strings;
    let end = start + block.len() as int;
    let out = reassembled(dtb, start, block, strings);
    lemma_be_bytes_four(raw.len());
    lemma_be_bytes_four(end as nat);
    lemma_be_bytes_four(strings.len());
    lemma_be_bytes_four(block.len());
    let (a, b, c, d) = (
        be_bytes(raw.len(), 4),
        be_bytes(end as nat, 4),
        be_bytes(strings.len(), 4),
        be_bytes(block.len(), 4),
    );
    lemma_patched(dtb, start, block, strings, a, b, c, d);
    assert(out == overwrite(overwrite(overwrite(overwrite(raw, 4, a), 12, b), 32, c), 36, d));
}

proof fn lemma_patched(
    dtb: Seq<u8>,
    start: int,
    block: Seq<u8>,
    strings: Seq<u8>,
    a: Seq<u8>,
    b: Seq<u8>,
    c: Seq<u8>,
    d: Seq<u8>,
)
    requires
        40 <= start <= dtb.len(),
        a.len() == 4 && b.len() == 4 && c.len() == 4 && d.len() == 4,
    ensures
        ({
            let raw = dtb.take(start) + block + strings;
            let end = start + block.len() as int;
            let out = overwrite(
                overwrite(overwrite(overwrite(raw, 4, a), 12, b), 32, c),
                36,
                d,
            );
            &&& out.len() == end + strings.len()
            &&& four(out, 4) == four(a, 0)
            &&& four(out, 8) == four(dtb, 8)
            &&& four(out, 12) == four(b, 0)
            &&& four(out, 32) == four(c, 0)
            &&& four(out, 36) == four(d, 0)
            &&& forall|i: int|
                0 <= i < start && !(4 <= i < 8) && !(12 <= i < 16) && !(32 <= i < 40)
                    ==> #[trigger] out[i] == dtb[i]
            &&& out.subrange(start, end) == block
            &&& out.skip(end) == strings
        }),
{
    let raw = dtb.take(start) + block + strings;
    let end = start + block.len() as int;
    let out = overwrite(overwrite(overwrite(overwrite(raw, 4, a), 12, b), 32, c), 36, d);
    lemma_overwritten(raw, a, b, c, d);
    lemma_same_four(out, 4, a, 0);
    lemma_same_four(out, 12, b, 0);
    lemma_same_four(out, 32, c, 0);
    lemma_same_four(out, 36, d, 0);
    lemma_same_four(out, 8, dtb, 8);
    assert(out.subrange(start, end) =~= block);
    assert(out.skip(end) =~= strings);
}

proof fn lemma_overwritten(raw: Seq<u8>, a: Seq<u8>, b: Seq<u8>, c: Seq<u8>, d: Seq<u8>)
    requires
        a.len() == 4 && b.len() == 4 && c.len() == 4 && d.len() == 4,
        raw.len() >= 40,
    ensures
        ({
            let out = overwrite(
                overwrite(overwrite(overwrite(raw, 4, a), 12, b), 32, c),
                36,
                d,
            );
            &&& out.len() == raw.len()
            &&& out[4] == a[0] && out[5] == a[1] && out[6] == a[2] && out[7] == a[3]
            &&& out[12] == b[0] && out[13] == b[1] && out[14] == b[2] && out[15] == b[3]
            &&& out[32] == c[0] && out[33] == c[1] && out[34] == c[2] && out[35] == c[3]
            &&& out[36] == d[0] && out[37] == d[1] && out[38] == d[2] && out[39] == d[3]
            &&& forall|i: int|
                0 <= i < raw.len() && !(4 <= i < 8) && !(12 <= i < 16) && !(32 <= i < 40)
                    ==> #[trigger] out[i] == raw[i]
        }),
{
}

} // verus!
