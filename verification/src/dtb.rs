//! Firmware-role device-tree patching: set `/chosen/bootargs`, and the size of `/memory`, in
//! a flattened device tree (version 17, all integers big-endian): header, memory-reservation
//! block, structure block (a token stream), strings block.

use vstd::prelude::*;
use vstd::string::*;
use crate::bytes::{be, be_bytes, get_be, lemma_be_bound, lemma_be_bytes_of_be, lemma_be_of_be_bytes, lemma_span_of_widths, overwrite, push_be, set_bytes};

verus! {

pub const FDT_MAGIC: u32 = 0xd00d_feed;
pub const FDT_BEGIN_NODE: u32 = 1;
pub const FDT_END_NODE: u32 = 2;
pub const FDT_PROP: u32 = 3;
pub const FDT_NOP: u32 = 4;

// Header field offsets.
pub const OFF_TOTALSIZE: usize = 0x04;
pub const OFF_DT_STRUCT: usize = 0x08;
pub const OFF_DT_STRINGS: usize = 0x0c;
pub const OFF_SIZE_STRINGS: usize = 0x20;
pub const OFF_SIZE_STRUCT: usize = 0x24;
/// Where the header ends.
pub const HEADER_END: usize = 0x28;

/// The big-endian word at offset `off`, if it is there.
pub open spec fn word_at(s: Seq<u8>, off: int) -> Option<nat> {
    if 0 <= off && off + 4 <= s.len() {
        Some(be(s.subrange(off, off + 4)))
    } else {
        None
    }
}

/// `n` rounded up to a multiple of 4.
pub open spec fn aligned(n: int) -> int {
    (n + 3) / 4 * 4
}

/// How far the first 0 of `s` is from `at`.
pub open spec fn nul_after(s: Seq<u8>, at: int) -> Option<int>
    decreases s.len() - at,
{
    if at < 0 || at >= s.len() {
        None
    } else if s[at] == 0 {
        Some(0)
    } else {
        match nul_after(s, at + 1) {
            Some(n) => Some(n + 1),
            None => None,
        }
    }
}

proof fn lemma_nul_after(s: Seq<u8>, at: int)
    requires
        0 <= at <= s.len(),
    ensures
        match nul_after(s, at) {
            Some(n) => 0 <= n && at + n < s.len() && s[at + n] == 0,
            None => true,
        },
    decreases s.len() - at,
{
    if at < s.len() && s[at] != 0 {
        lemma_nul_after(s, at + 1);
    }
}

/// A big-endian word.
fn be32(bytes: &[u8], off: usize) -> (r: Option<u32>)
    ensures
        match word_at(bytes@, off as int) {
            Some(v) => r == Some(v as u32) && v == v as u32,
            None => r is None,
        },
{
    if off > bytes.len() || bytes.len() - off < 4 {
        return None;
    }
    proof {
        lemma_span_of_widths();
    }
    Some(get_be(bytes, off, 4) as u32)
}

/// How far the first 0 is from `at`.
fn find_nul(s: &[u8], at: usize) -> (r: Option<usize>)
    requires
        at <= s.len(),
    ensures
        match nul_after(s@, at as int) {
            Some(n) => r == Some(n as usize) && 0 <= n && at + n < s.len(),
            None => r is None,
        },
{
    let mut i: usize = at;
    while i < s.len()
        invariant
            at <= i <= s.len(),
            match nul_after(s@, i as int) {
                Some(n) => nul_after(s@, at as int) == Some(n + (i - at)),
                None => nul_after(s@, at as int) is None,
            },
        decreases s.len() - i,
    {
        if s[i] == 0 {
            return Some(i - at);
        }
        i += 1;
    }
    None
}

/// Whether `needle` stands at offset `at`, `n` bytes of it.
fn is_at(s: &[u8], at: usize, n: usize, needle: &[u8]) -> (r: bool)
    requires
        at + n <= s.len(),
    ensures
        r == (s@.subrange(at as int, at + n) == needle@),
{
    if needle.len() != n {
        return false;
    }
    crate::machine::starts_with(s, at, needle)
}

/// The five numbers of the header that matter: offsets and sizes of the structure and
/// strings blocks, and that both lie within the tree.
pub struct Layout {
    pub off_struct: usize,
    pub size_struct: usize,
    pub off_strings: usize,
    pub size_strings: usize,
}

/// The layout a tree's header describes, if it is one.
pub open spec fn layout_of(dtb: Seq<u8>) -> Option<Layout> {
    match (
        word_at(dtb, 0),
        word_at(dtb, OFF_DT_STRUCT as int),
        word_at(dtb, OFF_DT_STRINGS as int),
        word_at(dtb, OFF_SIZE_STRINGS as int),
        word_at(dtb, OFF_SIZE_STRUCT as int),
    ) {
        (Some(magic), Some(a), Some(b), Some(c), Some(d)) => if magic == FDT_MAGIC && a + d
            <= dtb.len() && b + c <= dtb.len() {
            Some(
                Layout {
                    off_struct: a as usize,
                    size_struct: d as usize,
                    off_strings: b as usize,
                    size_strings: c as usize,
                },
            )
        } else {
            None
        },
        _ => None,
    }
}

/// The structure block.
pub open spec fn struct_of(dtb: Seq<u8>, l: Layout) -> Seq<u8> {
    dtb.subrange(l.off_struct as int, l.off_struct + l.size_struct)
}

/// The strings block.
pub open spec fn strings_of(dtb: Seq<u8>, l: Layout) -> Seq<u8> {
    dtb.subrange(l.off_strings as int, l.off_strings + l.size_strings)
}

/// Read a tree's header.
fn read_layout(dtb: &[u8]) -> (r: Option<Layout>)
    ensures
        r == layout_of(dtb@),
        match r {
            Some(l) => l.off_struct + l.size_struct <= dtb.len() && l.off_strings + l.size_strings
                <= dtb.len() && dtb.len() >= HEADER_END,
            None => true,
        },
{
    let (magic, a, b, c, d) = match (
        be32(dtb, 0),
        be32(dtb, OFF_DT_STRUCT),
        be32(dtb, OFF_DT_STRINGS),
        be32(dtb, OFF_SIZE_STRINGS),
        be32(dtb, OFF_SIZE_STRUCT),
    ) {
        (Some(magic), Some(a), Some(b), Some(c), Some(d)) => (magic, a, b, c, d),
        _ => {
            return None;
        },
    };
    if magic != FDT_MAGIC || a as u64 + d as u64 > dtb.len() as u64 || b as u64 + c as u64
        > dtb.len() as u64 {
        return None;
    }
    Some(
        Layout {
            off_struct: a as usize,
            size_struct: d as usize,
            off_strings: b as usize,
            size_strings: c as usize,
        },
    )
}

/// The name `chosen`.
pub open spec fn chosen_name() -> Seq<u8> {
    seq![0x63u8, 0x68, 0x6f, 0x73, 0x65, 0x6e]
}

/// The name `bootargs`.
pub open spec fn bootargs_name() -> Seq<u8> {
    seq![0x62u8, 0x6f, 0x6f, 0x74, 0x61, 0x72, 0x67, 0x73]
}

/// The name `memory`.
pub open spec fn memory_name() -> Seq<u8> {
    seq![0x6du8, 0x65, 0x6d, 0x6f, 0x72, 0x79]
}

/// The name `reg`.
pub open spec fn reg_name() -> Seq<u8> {
    seq![0x72u8, 0x65, 0x67]
}

/// Where the token after a node's name at `start`, which is `n` bytes long, is.
pub open spec fn past_name(start: int, n: int) -> int {
    aligned(start + n + 1)
}

/// Walking the token stream from `i` on, `depth` nodes deep: where the properties of the
/// node at path `/chosen` start, or `None` if there is none. The root is the one node that is
/// entered at depth 0, and its children are entered at depth 1.
pub open spec fn chosen_properties(s: Seq<u8>, i: int, depth: int) -> Option<int>
    decreases
        if i <= s.len() {
            s.len() - i + 1
        } else {
            0
        },
    via chosen_properties_decreases
{
    match word_at(s, i) {
        None => None,
        Some(tok) => if tok == FDT_BEGIN_NODE {
            match nul_after(s, i + 4) {
                None => None,
                Some(n) => if depth == 1 && s.subrange(i + 4, i + 4 + n) == chosen_name() {
                    Some(past_name(i + 4, n))
                } else {
                    chosen_properties(s, past_name(i + 4, n), depth + 1)
                },
            }
        } else if tok == FDT_END_NODE {
            chosen_properties(s, i + 4, depth - 1)
        } else if tok == FDT_NOP {
            chosen_properties(s, i + 4, depth)
        } else if tok == FDT_PROP {
            match word_at(s, i + 4) {
                None => None,
                Some(len) => chosen_properties(s, aligned(i + 12 + len), depth),
            }
        } else {
            None
        },
    }
}

#[via_fn]
proof fn chosen_properties_decreases(s: Seq<u8>, i: int, depth: int) {
    if word_at(s, i) is Some {
        lemma_nul_after(s, i + 4);
    }
}

/// Where the first property of `/chosen` belongs, within the structure block.
fn chosen_properties_offset(s: &[u8]) -> (r: Option<usize>)
    ensures
        match chosen_properties(s@, 0, 0) {
            Some(at) => if at <= s@.len() {
                r == Some(at as usize) && 0 <= at
            } else {
                r is None
            },
            None => r is None,
        },
{
    let chosen: Vec<u8> = vec![0x63, 0x68, 0x6f, 0x73, 0x65, 0x6e];
    proof {
        assert(chosen@ =~= chosen_name());
    }
    let mut i: usize = 0;
    let mut depth: i128 = 0;
    loop
        invariant
            chosen@ == chosen_name(),
            i <= s.len(),
            -(i as int) <= depth <= i,
            chosen_properties(s@, 0, 0) == chosen_properties(s@, i as int, depth as int),
        decreases s@.len() - i,
    {
        let tok: u32 = match be32(s, i) {
            Some(tok) => tok,
            None => {
                return None;
            },
        };
        // Offsets are kept in 128 bits until they are known to lie within the block.
        let next: u128 = if tok == FDT_BEGIN_NODE {
            let start: usize = i + 4;
            let n: usize = match find_nul(s, start) {
                Some(n) => n,
                None => {
                    return None;
                },
            };
            let after: u128 = (start as u128 + n as u128 + 1 + 3) / 4 * 4;
            // Only a child of the root is `/chosen`.
            if depth == 1 && is_at(s, start, n, chosen.as_slice()) {
                if after <= s.len() as u128 {
                    return Some(after as usize);
                }
                return None;
            }
            depth = depth + 1;
            after
        } else if tok == FDT_END_NODE {
            depth = depth - 1;
            i as u128 + 4
        } else if tok == FDT_NOP {
            i as u128 + 4
        } else if tok == FDT_PROP {
            match be32(s, i + 4) {
                Some(len) => (i as u128 + 12 + len as u128 + 3) / 4 * 4,
                None => {
                    return None;
                },
            }
        } else {
            return None;
        };
        if next > s.len() as u128 {
            proof {
                assert(word_at(s@, next as int) is None);
                assert(chosen_properties(s@, next as int, depth as int) is None);
            }
            return None;
        }
        i = next as usize;
    }
}

/// Where `needle` starts in the strings block from `off` on, if it is one of its strings.
pub open spec fn string_at(strings: Seq<u8>, needle: Seq<u8>, off: int) -> Option<int>
    decreases strings.len() - off,
    via string_at_decreases
{
    if off < 0 || off >= strings.len() {
        None
    } else {
        match nul_after(strings, off) {
            None => None,
            Some(n) => if strings.subrange(off, off + n) == needle {
                Some(off)
            } else {
                string_at(strings, needle, off + n + 1)
            },
        }
    }
}

#[via_fn]
proof fn string_at_decreases(strings: Seq<u8>, needle: Seq<u8>, off: int) {
    if 0 <= off < strings.len() {
        lemma_nul_after(strings, off);
    }
}

/// Offset of a NUL-terminated `needle` within the strings block, if present.
fn find_string(strings: &[u8], needle: &[u8]) -> (r: Option<usize>)
    ensures
        match string_at(strings@, needle@, 0) {
            Some(at) => r == Some(at as usize) && 0 <= at < strings@.len(),
            None => r is None,
        },
{
    let mut off: usize = 0;
    while off < strings.len()
        invariant
            off <= strings.len(),
            string_at(strings@, needle@, 0) == string_at(strings@, needle@, off as int),
        decreases strings@.len() - off,
    {
        let n: usize = match find_nul(strings, off) {
            Some(n) => n,
            None => {
                return None;
            },
        };
        if is_at(strings, off, n, needle) {
            return Some(off);
        }
        off = off + n + 1;
    }
    None
}

/// The strings block with `bootargs` in it, and where it is.
pub open spec fn named(strings: Seq<u8>) -> (int, Seq<u8>) {
    match string_at(strings, bootargs_name(), 0) {
        Some(at) => (at, strings),
        None => (strings.len() as int, strings + bootargs_name() + seq![0u8]),
    }
}

/// A `bootargs` property: its token, its length, where its name is, and its value,
/// NUL-terminated and padded to 4.
pub open spec fn bootargs_property(nameoff: int, args: Seq<u8>) -> Seq<u8> {
    let body = be_bytes(FDT_PROP as nat, 4) + be_bytes(
        (args.len() + 1) % 0x1_0000_0000,
        4,
    ) + be_bytes((nameoff % 0x1_0000_0000) as nat, 4) + args + seq![0u8];
    body + Seq::new((aligned(body.len() as int) - body.len()) as nat, |i: int| 0u8)
}

/// A tree with a new structure block (`new_struct`) and strings block after its first
/// `off_struct` bytes, its header telling of them.
pub open spec fn reassembled(
    dtb: Seq<u8>,
    off_struct: int,
    new_struct: Seq<u8>,
    new_strings: Seq<u8>,
) -> Seq<u8> {
    let out = dtb.take(off_struct) + new_struct + new_strings;
    let a = overwrite(
        out,
        OFF_TOTALSIZE as int,
        be_bytes(out.len() % 0x1_0000_0000, 4),
    );
    let b = overwrite(
        a,
        OFF_DT_STRINGS as int,
        be_bytes((off_struct + new_struct.len()) as nat % 0x1_0000_0000, 4),
    );
    let c = overwrite(
        b,
        OFF_SIZE_STRINGS as int,
        be_bytes(new_strings.len() % 0x1_0000_0000, 4),
    );
    overwrite(c, OFF_SIZE_STRUCT as int, be_bytes(new_struct.len() % 0x1_0000_0000, 4))
}

/// A structure block with the property inserted at `at`.
pub open spec fn inserted(s: Seq<u8>, at: int, prop: Seq<u8>) -> Seq<u8> {
    s.take(at) + prop + s.skip(at)
}

/// A tree with `/chosen/bootargs` set: the property becomes the first of `/chosen`, and its
/// name is added to the strings block where it is not there.
pub open spec fn with_bootargs(dtb: Seq<u8>, args: Seq<u8>) -> Option<Seq<u8>> {
    match layout_of(dtb) {
        None => None,
        Some(l) => {
            let s = struct_of(dtb, l);
            let (nameoff, new_strings) = named(strings_of(dtb, l));
            match chosen_properties(s, 0, 0) {
                Some(at) if at <= s.len() => {
                    let new_struct = inserted(s, at, bootargs_property(nameoff, args));
                    if l.off_struct + new_struct.len() + new_strings.len() < HEADER_END {
                        None
                    } else {
                        Some(
                            reassembled(dtb, l.off_struct as int, new_struct, new_strings),
                        )
                    }
                },
                _ => None,
            }
        },
    }
}

/// Build the property.
fn make_property(nameoff: usize, args: &[u8]) -> (r: Vec<u8>)
    ensures
        r@ == bootargs_property(nameoff as int, args@),
{
    let mut prop: Vec<u8> = Vec::new();
    push_be(&mut prop, FDT_PROP as u64, 4);
    push_be(&mut prop, (args.len() as u64 % 0x1_0000_0000 + 1) % 0x1_0000_0000, 4);
    push_be(&mut prop, nameoff as u64 % 0x1_0000_0000, 4);
    prop.extend_from_slice(args);
    prop.push(0);
    let ghost body = be_bytes(FDT_PROP as nat, 4) + be_bytes(
        (args@.len() + 1) % 0x1_0000_0000,
        4,
    ) + be_bytes((nameoff as int % 0x1_0000_0000) as nat, 4) + args@ + seq![0u8];
    proof {
        assert(prop@ =~= body);
        assert(prop@ =~= body + Seq::new(0, |i: int| 0u8));
    }
    while prop.len() % 4 != 0
        invariant
            body.len() <= prop@.len() <= aligned(body.len() as int),
            prop@ == body + Seq::new((prop@.len() - body.len()) as nat, |i: int| 0u8),
        decreases aligned(body.len() as int) - prop@.len(),
    {
        prop.push(0);
        proof {
            assert(prop@ =~= body + Seq::new((prop@.len() - body.len()) as nat, |i: int| 0u8));
        }
    }
    proof {
        assert(prop@.len() == aligned(body.len() as int));
    }
    prop
}

/// Overwrite a big-endian word.
fn put_be32(bytes: &mut Vec<u8>, off: usize, value: u64)
    requires
        off + 4 <= old(bytes).len(),
    ensures
        final(bytes)@ == overwrite(old(bytes)@, off as int, be_bytes(value as nat, 4)),
        final(bytes)@.len() == old(bytes)@.len(),
{
    let mut part: Vec<u8> = Vec::new();
    push_be(&mut part, value, 4);
    proof {
        lemma_be_of_be_bytes(value as nat, 4);
        assert(part@ =~= be_bytes(value as nat, 4));
    }
    set_bytes(bytes, off, part.as_slice());
}

/// Return a copy of `dtb` with `/chosen/bootargs = <bootargs>`. `None` if `dtb` is not a
/// valid tree or has no `/chosen` node. Assumes that `/chosen` has no `bootargs` yet.
#[must_use]
pub fn set_bootargs(dtb: &[u8], bootargs: &str) -> (r: Option<Vec<u8>>)
    ensures
        match with_bootargs(dtb@, bootargs.spec_bytes()) {
            Some(out) => r is Some && (r->0)@ == out,
            None => r is None,
        },
{
    let l: Layout = match read_layout(dtb) {
        Some(l) => l,
        None => {
            return None;
        },
    };
    let s: &[u8] = vstd::slice::slice_subrange(dtb, l.off_struct, l.off_struct + l.size_struct);
    let strings: &[u8] = vstd::slice::slice_subrange(
        dtb,
        l.off_strings,
        l.off_strings + l.size_strings,
    );
    let name: Vec<u8> = vec![0x62, 0x6f, 0x6f, 0x74, 0x61, 0x72, 0x67, 0x73];
    proof {
        assert(name@ =~= bootargs_name());
    }
    // Find the property's name in the strings block, or append it.
    let mut new_strings: Vec<u8> = vstd::slice::slice_to_vec(strings);
    let nameoff: usize = match find_string(strings, name.as_slice()) {
        Some(at) => at,
        None => {
            new_strings.extend_from_slice(name.as_slice());
            new_strings.push(0);
            strings.len()
        },
    };
    proof {
        assert(new_strings@ =~= named(strings@).1);
    }
    // The property goes right after `/chosen`'s name: properties precede child nodes.
    let at: usize = match chosen_properties_offset(s) {
        Some(at) => at,
        None => {
            return None;
        },
    };
    let mut prop: Vec<u8> = make_property(nameoff, bootargs.as_bytes());
    let mut new_struct: Vec<u8> = vstd::slice::slice_to_vec(
        vstd::slice::slice_subrange(s, 0, at),
    );
    let ghost p = prop@;
    new_struct.append(&mut prop);
    new_struct.extend_from_slice(vstd::slice::slice_subrange(s, at, s.len()));
    proof {
        assert(new_struct@ =~= inserted(s@, at as int, p));
    }
    // Everything up to the structure block is unchanged; the strings block shifts.
    let mut out: Vec<u8> = vstd::slice::slice_to_vec(
        vstd::slice::slice_subrange(dtb, 0, l.off_struct),
    );
    let struct_len: u64 = new_struct.len() as u64;
    let strings_len: u64 = new_strings.len() as u64;
    let ghost ns = new_struct@;
    let ghost nt = new_strings@;
    out.append(&mut new_struct);
    let new_off_strings: u64 = out.len() as u64;
    out.append(&mut new_strings);
    proof {
        assert(out@ =~= dtb@.take(l.off_struct as int) + ns + nt);
    }
    if out.len() < HEADER_END {
        return None;
    }
    let total: u64 = out.len() as u64;
    put_be32(&mut out, OFF_TOTALSIZE, total % 0x1_0000_0000);
    put_be32(&mut out, OFF_DT_STRINGS, new_off_strings % 0x1_0000_0000);
    put_be32(&mut out, OFF_SIZE_STRINGS, strings_len % 0x1_0000_0000);
    put_be32(&mut out, OFF_SIZE_STRUCT, struct_len % 0x1_0000_0000);
    Some(out)
}

/// Whether a node name is `memory` or starts with `memory@`.
pub open spec fn is_memory(name: Seq<u8>) -> bool {
    name == memory_name() || (name.len() >= 7 && name.take(7) == memory_name().push(0x40))
}

/// The state of the walk for `/memory`: how deep it is, and how deep the memory node is that
/// it is in, if any.
pub struct Depth {
    pub now: int,
    pub memory: Option<int>,
}

/// Walking the token stream from `i` on: where the 16-byte `reg` value of the memory node is.
pub open spec fn memory_reg(s: Seq<u8>, strings: Seq<u8>, i: int, d: Depth) -> Option<int>
    decreases
        if i <= s.len() {
            s.len() - i + 1
        } else {
            0
        },
    via memory_reg_decreases
{
    match word_at(s, i) {
        None => None,
        Some(tok) => if tok == FDT_BEGIN_NODE {
            match nul_after(s, i + 4) {
                None => None,
                Some(n) => memory_reg(
                    s,
                    strings,
                    past_name(i + 4, n),
                    Depth {
                        now: d.now + 1,
                        memory: if is_memory(s.subrange(i + 4, i + 4 + n)) {
                            Some(d.now + 1)
                        } else {
                            d.memory
                        },
                    },
                ),
            }
        } else if tok == FDT_END_NODE {
            memory_reg(
                s,
                strings,
                i + 4,
                Depth {
                    now: d.now - 1,
                    memory: if d.memory == Some(d.now) {
                        None
                    } else {
                        d.memory
                    },
                },
            )
        } else if tok == FDT_NOP {
            memory_reg(s, strings, i + 4, d)
        } else if tok == FDT_PROP {
            match (word_at(s, i + 4), word_at(s, i + 8)) {
                (Some(len), Some(nameoff)) => if d.memory == Some(d.now) && len == 16 {
                    if nameoff > strings.len() {
                        None
                    } else {
                        match nul_after(strings, nameoff as int) {
                            None => None,
                            Some(n) => if strings.subrange(nameoff as int, nameoff + n)
                                == reg_name() {
                                Some(i + 12)
                            } else {
                                memory_reg(s, strings, aligned(i + 12 + len), d)
                            },
                        }
                    }
                } else {
                    memory_reg(s, strings, aligned(i + 12 + len), d)
                },
                _ => None,
            }
        } else {
            None
        },
    }
}

#[via_fn]
proof fn memory_reg_decreases(s: Seq<u8>, strings: Seq<u8>, i: int, d: Depth) {
    if word_at(s, i) is Some {
        lemma_nul_after(s, i + 4);
    }
}

/// A tree with the size of `/memory` set, its base address kept.
pub open spec fn with_memory_size(dtb: Seq<u8>, size: u64) -> Option<Seq<u8>> {
    match layout_of(dtb) {
        None => None,
        Some(l) => match memory_reg(
            struct_of(dtb, l),
            strings_of(dtb, l),
            0,
            Depth { now: 0, memory: None },
        ) {
            None => None,
            Some(at) => if l.off_struct + at + 16 > dtb.len() {
                None
            } else {
                Some(overwrite(dtb, l.off_struct + at + 8, be_bytes(size as nat, 8)))
            },
        },
    }
}

/// Whether the name of `n` bytes at `at` is that of a memory node.
fn names_memory(s: &[u8], at: usize, n: usize) -> (r: bool)
    requires
        at + n <= s.len(),
    ensures
        r == is_memory(s@.subrange(at as int, at + n)),
{
    let plain: Vec<u8> = vec![0x6d, 0x65, 0x6d, 0x6f, 0x72, 0x79];
    let with_unit: Vec<u8> = vec![0x6d, 0x65, 0x6d, 0x6f, 0x72, 0x79, 0x40];
    proof {
        assert(plain@ =~= memory_name());
        assert(with_unit@ =~= memory_name().push(0x40));
    }
    if is_at(s, at, n, plain.as_slice()) {
        return true;
    }
    if n < 7 {
        return false;
    }
    proof {
        assert(s@.subrange(at as int, at + n).take(7) =~= s@.subrange(at as int, at + 7));
    }
    is_at(s, at, 7, with_unit.as_slice())
}

/// Byte offset (within the structure block) of the memory node's `reg` value, for a single
/// 16-byte cell: base, then size.
fn memory_reg_value_offset(s: &[u8], strings: &[u8]) -> (r: Option<usize>)
    ensures
        match memory_reg(s@, strings@, 0, Depth { now: 0, memory: None }) {
            Some(at) => r == Some(at as usize) && 0 <= at <= s@.len(),
            None => r is None,
        },
{
    let reg: Vec<u8> = vec![0x72, 0x65, 0x67];
    proof {
        assert(reg@ =~= reg_name());
    }
    let mut i: usize = 0;
    let mut depth: i128 = 0;
    let mut memory_depth: Option<i128> = None;
    let ghost goal = memory_reg(s@, strings@, 0, Depth { now: 0, memory: None });
    loop
        invariant
            reg@ == reg_name(),
            i <= s.len(),
            -(i as int) <= depth <= i,
            goal == memory_reg(s@, strings@, 0, Depth { now: 0, memory: None }),
            goal == memory_reg(
                s@,
                strings@,
                i as int,
                (Depth {
                    now: depth as int,
                    memory: match memory_depth {
                        Some(d) => Some(d as int),
                        None => None,
                    },
                }),
            ),
        decreases s@.len() - i,
    {
        let tok: u32 = match be32(s, i) {
            Some(tok) => tok,
            None => {
                return None;
            },
        };
        let next: u128 = if tok == FDT_BEGIN_NODE {
            let start: usize = i + 4;
            let n: usize = match find_nul(s, start) {
                Some(n) => n,
                None => {
                    return None;
                },
            };
            depth = depth + 1;
            if names_memory(s, start, n) {
                memory_depth = Some(depth);
            }
            (start as u128 + n as u128 + 1 + 3) / 4 * 4
        } else if tok == FDT_END_NODE {
            if memory_depth == Some(depth) {
                // Left the memory node without finding it.
                memory_depth = None;
            }
            depth = depth - 1;
            i as u128 + 4
        } else if tok == FDT_NOP {
            i as u128 + 4
        } else if tok == FDT_PROP {
            let len: u32 = match be32(s, i + 4) {
                Some(len) => len,
                None => {
                    return None;
                },
            };
            let nameoff: u32 = match be32(s, i + 8) {
                Some(nameoff) => nameoff,
                None => {
                    return None;
                },
            };
            if memory_depth == Some(depth) && len == 16 {
                if nameoff as u64 > strings.len() as u64 {
                    return None;
                }
                let n: usize = match find_nul(strings, nameoff as usize) {
                    Some(n) => n,
                    None => {
                        return None;
                    },
                };
                if is_at(strings, nameoff as usize, n, reg.as_slice()) {
                    return Some(i + 12);
                }
            }
            (i as u128 + 12 + len as u128 + 3) / 4 * 4
        } else {
            return None;
        };
        if next > s.len() as u128 {
            proof {
                assert(word_at(s@, next as int) is None);
                assert(memory_reg(
                    s@,
                    strings@,
                    next as int,
                    Depth {
                        now: depth as int,
                        memory: match memory_depth {
                            Some(d) => Some(d as int),
                            None => None,
                        },
                    },
                ) is None);
            }
            return None;
        }
        i = next as usize;
    }
}

/// Return a copy of `dtb` with the `/memory` node's `reg` size overwritten (base address
/// unchanged). In place: same length, so no header fix-ups. `None` if `dtb` is not a valid
/// tree, has no memory node, or its `reg` is not a single 16-byte value.
#[must_use]
pub fn set_memory_size(dtb: &[u8], size_bytes: u64) -> (r: Option<Vec<u8>>)
    ensures
        match with_memory_size(dtb@, size_bytes) {
            Some(out) => r is Some && (r->0)@ == out,
            None => r is None,
        },
{
    let l: Layout = match read_layout(dtb) {
        Some(l) => l,
        None => {
            return None;
        },
    };
    let s: &[u8] = vstd::slice::slice_subrange(dtb, l.off_struct, l.off_struct + l.size_struct);
    let strings: &[u8] = vstd::slice::slice_subrange(
        dtb,
        l.off_strings,
        l.off_strings + l.size_strings,
    );
    let at: usize = match memory_reg_value_offset(s, strings) {
        Some(at) => at,
        None => {
            return None;
        },
    };
    let value: usize = l.off_struct + at;
    if dtb.len() - value < 16 {
        return None;
    }
    let mut out: Vec<u8> = vstd::slice::slice_to_vec(dtb);
    let mut size: Vec<u8> = Vec::new();
    push_be(&mut size, size_bytes, 8);
    proof {
        lemma_be_of_be_bytes(size_bytes as nat, 8);
        assert(size@ =~= be_bytes(size_bytes as nat, 8));
    }
    set_bytes(&mut out, value + 8, size.as_slice());
    Some(out)
}

/// Setting the memory size keeps every other byte of the tree, and the tree's length.
pub proof fn law_the_memory_size_is_all_that_changes(dtb: Seq<u8>, size: u64)
    requires
        with_memory_size(dtb, size) is Some,
    ensures
        with_memory_size(dtb, size)->0.len() == dtb.len(),
        exists|at: int|
            0 <= at && at + 8 <= dtb.len() && with_memory_size(dtb, size)->0 == #[trigger] overwrite(
                dtb,
                at,
                be_bytes(size as nat, 8),
            ),
{
    lemma_be_of_be_bytes(size as nat, 8);
    let l = layout_of(dtb)->0;
    let reg = memory_reg(
        struct_of(dtb, l),
        strings_of(dtb, l),
        0,
        Depth { now: 0, memory: None },
    )->0;
    lemma_memory_reg_within(
        struct_of(dtb, l),
        strings_of(dtb, l),
        0,
        Depth { now: 0, memory: None },
    );
    assert(with_memory_size(dtb, size)->0 == overwrite(
        dtb,
        l.off_struct + reg + 8,
        be_bytes(size as nat, 8),
    ));
}

proof fn lemma_memory_reg_within(s: Seq<u8>, strings: Seq<u8>, i: int, d: Depth)
    requires
        0 <= i,
    ensures
        memory_reg(s, strings, i, d) is Some ==> memory_reg(s, strings, i, d)->0 >= 0,
    decreases
        if i <= s.len() {
            s.len() - i + 1
        } else {
            0
        },
{
    if let Some(tok) = word_at(s, i) {
        lemma_nul_after(s, i + 4);
        if tok == FDT_BEGIN_NODE {
            if let Some(n) = nul_after(s, i + 4) {
                lemma_memory_reg_within(
                    s,
                    strings,
                    past_name(i + 4, n),
                    Depth {
                        now: d.now + 1,
                        memory: if is_memory(s.subrange(i + 4, i + 4 + n)) {
                            Some(d.now + 1)
                        } else {
                            d.memory
                        },
                    },
                );
            }
        } else if tok == FDT_END_NODE {
            lemma_memory_reg_within(
                s,
                strings,
                i + 4,
                Depth {
                    now: d.now - 1,
                    memory: if d.memory == Some(d.now) {
                        None
                    } else {
                        d.memory
                    },
                },
            );
        } else if tok == FDT_NOP {
            lemma_memory_reg_within(s, strings, i + 4, d);
        } else if tok == FDT_PROP {
            if let Some(len) = word_at(s, i + 4) {
                lemma_memory_reg_within(s, strings, aligned(i + 12 + len), d);
            }
        }
    }
}

/// The structure block of a tree with bootargs is the old one with the property put in as the
/// first of the node at path `/chosen`, and what stands before the structure block is as it
/// was, but for the header's sizes and offsets.
pub proof fn law_bootargs_keep_the_rest_of_the_tree(dtb: Seq<u8>, args: Seq<u8>)
    requires
        with_bootargs(dtb, args) is Some,
        layout_of(dtb)->0.off_struct >= HEADER_END,
    ensures
        ({
            let out = with_bootargs(dtb, args)->0;
            let l = layout_of(dtb)->0;
            let s = struct_of(dtb, l);
            let (nameoff, strings) = named(strings_of(dtb, l));
            let new_struct = inserted(
                s,
                chosen_properties(s, 0, 0)->0,
                bootargs_property(nameoff, args),
            );
            &&& out.subrange(l.off_struct as int, l.off_struct + new_struct.len()) == new_struct
            &&& out.skip((l.off_struct + new_struct.len()) as int) == strings
            &&& strings_of(dtb, l).is_prefix_of(strings)
            &&& forall|i: int|
                HEADER_END <= i < l.off_struct ==> #[trigger] out[i] == dtb[i]
        }),
{
    let out = with_bootargs(dtb, args)->0;
    let l = layout_of(dtb)->0;
    let s = struct_of(dtb, l);
    let (nameoff, strings) = named(strings_of(dtb, l));
    let new_struct = inserted(s, chosen_properties(s, 0, 0)->0, bootargs_property(nameoff, args));
    let raw = dtb.take(l.off_struct as int) + new_struct + strings;
    lemma_be_of_be_bytes(raw.len() % 0x1_0000_0000, 4);
    lemma_be_of_be_bytes((l.off_struct + new_struct.len()) as nat % 0x1_0000_0000, 4);
    lemma_be_of_be_bytes(strings.len() % 0x1_0000_0000, 4);
    lemma_be_of_be_bytes(new_struct.len() % 0x1_0000_0000, 4);
    assert(out.len() == raw.len());
    assert forall|i: int| HEADER_END <= i < out.len() implies #[trigger] out[i] == raw[i] by {}
    assert(out.subrange(l.off_struct as int, l.off_struct + new_struct.len()) =~= new_struct);
    assert(out.skip((l.off_struct + new_struct.len()) as int) =~= strings);
}

/// Whether the header comes first, and the structure and strings blocks do not overlap.
pub open spec fn laid_out(dtb: Seq<u8>) -> bool {
    match layout_of(dtb) {
        Some(l) => {
            &&& HEADER_END <= l.off_struct
            &&& HEADER_END <= l.off_strings
            &&& l.off_struct + l.size_struct <= l.off_strings || l.off_strings + l.size_strings
                <= l.off_struct
        },
        None => false,
    }
}

/// Where the memory node's `reg` value is, within the structure block.
pub open spec fn memory_value(dtb: Seq<u8>) -> Option<int> {
    match layout_of(dtb) {
        Some(l) => memory_reg(
            struct_of(dtb, l),
            strings_of(dtb, l),
            0,
            Depth { now: 0, memory: None },
        ),
        None => None,
    }
}

/// The size of `/memory` that a tree states.
pub open spec fn memory_size(dtb: Seq<u8>) -> u64 {
    let at = layout_of(dtb)->0.off_struct + memory_value(dtb)->0;
    be(dtb.subrange(at + 8, at + 16)) as u64
}

proof fn lemma_nul_after_prefix(a: Seq<u8>, b: Seq<u8>, at: int, end: int)
    requires
        a.len() == b.len(),
        0 <= at,
        forall|k: int| 0 <= k < end ==> a[k] == b[k],
        end <= a.len(),
        nul_after(a, at) is Some,
        at + nul_after(a, at)->0 < end,
    ensures
        nul_after(b, at) == nul_after(a, at),
    decreases a.len() - at,
{
    lemma_nul_after(a, at);
    if a[at] != 0 {
        lemma_nul_after(a, at + 1);
        lemma_nul_after_prefix(a, b, at + 1, end);
    }
}

/// The walk for the `reg` value reads nothing from the value on.
proof fn lemma_memory_reg_prefix(
    a: Seq<u8>,
    b: Seq<u8>,
    strings: Seq<u8>,
    i: int,
    d: Depth,
    end: int,
)
    requires
        a.len() == b.len(),
        0 <= i,
        forall|k: int| 0 <= k < end ==> a[k] == b[k],
        end <= a.len(),
        memory_reg(a, strings, i, d) == Some(end),
    ensures
        memory_reg(b, strings, i, d) == Some(end),
        i < end,
    decreases
        if i <= a.len() {
            a.len() - i + 1
        } else {
            0
        },
{
    let tok = word_at(a, i)->0;
    if tok == FDT_BEGIN_NODE {
        lemma_nul_after(a, i + 4);
        let n = nul_after(a, i + 4)->0;
        let name = a.subrange(i + 4, i + 4 + n);
        let next = Depth {
            now: d.now + 1,
            memory: if is_memory(name) {
                Some(d.now + 1)
            } else {
                d.memory
            },
        };
        lemma_memory_reg_prefix(a, b, strings, past_name(i + 4, n), next, end);
        lemma_nul_after_prefix(a, b, i + 4, end);
        assert(b.subrange(i + 4, i + 4 + n) =~= name);
    } else if tok == FDT_END_NODE {
        let next = Depth {
            now: d.now - 1,
            memory: if d.memory == Some(d.now) {
                None
            } else {
                d.memory
            },
        };
        lemma_memory_reg_prefix(a, b, strings, i + 4, next, end);
    } else if tok == FDT_NOP {
        lemma_memory_reg_prefix(a, b, strings, i + 4, d, end);
    } else {
        let len = word_at(a, i + 4)->0;
        let nameoff = word_at(a, i + 8)->0;
        if d.memory == Some(d.now) && len == 16 && strings.subrange(
            nameoff as int,
            nameoff + nul_after(strings, nameoff as int)->0,
        ) == reg_name() {
        } else {
            lemma_memory_reg_prefix(a, b, strings, aligned(i + 12 + len), d, end);
        }
        assert(b.subrange(i + 4, i + 8) =~= a.subrange(i + 4, i + 8));
        assert(b.subrange(i + 8, i + 12) =~= a.subrange(i + 8, i + 12));
    }
    assert(b.subrange(i, i + 4) =~= a.subrange(i, i + 4));
}

/// Setting the memory size back to what it was gives the old tree back.
pub proof fn law_the_old_memory_size_gives_the_old_tree(dtb: Seq<u8>, size: u64)
    requires
        laid_out(dtb),
        memory_value(dtb) is Some,
        memory_value(dtb)->0 + 16 <= layout_of(dtb)->0.size_struct,
    ensures
        with_memory_size(dtb, size) is Some,
        with_memory_size(with_memory_size(dtb, size)->0, memory_size(dtb)) == Some(dtb),
{
    let l = layout_of(dtb)->0;
    let at = memory_value(dtb)->0;
    let start = Depth { now: 0, memory: None };
    lemma_memory_reg_within(struct_of(dtb, l), strings_of(dtb, l), 0, start);
    lemma_be_of_be_bytes(size as nat, 8);
    let pos = l.off_struct + at + 8;
    let p = with_memory_size(dtb, size)->0;
    assert(p == overwrite(dtb, pos, be_bytes(size as nat, 8)));
    assert(p.subrange(0, 4) =~= dtb.subrange(0, 4));
    assert(p.subrange(0x08, 0x0c) =~= dtb.subrange(0x08, 0x0c));
    assert(p.subrange(0x0c, 0x10) =~= dtb.subrange(0x0c, 0x10));
    assert(p.subrange(0x20, 0x24) =~= dtb.subrange(0x20, 0x24));
    assert(p.subrange(0x24, 0x28) =~= dtb.subrange(0x24, 0x28));
    assert(layout_of(p) == Some(l));
    assert(strings_of(p, l) =~= strings_of(dtb, l));
    lemma_memory_reg_prefix(
        struct_of(dtb, l),
        struct_of(p, l),
        strings_of(dtb, l),
        0,
        start,
        at,
    );
    let part = dtb.subrange(pos, pos + 8);
    lemma_be_bytes_of_be(part);
    lemma_be_bound(part);
    lemma_span_of_widths();
    assert(with_memory_size(p, memory_size(dtb))->0 =~= dtb);
}

} // verus!
