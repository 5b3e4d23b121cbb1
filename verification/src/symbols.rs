//! Looking up a function in an ELF64 image's symbol table.

use vstd::prelude::*;
use vstd::string::*;
use crate::bytes::{get_le, le, lemma_span_of_widths};

verus! {

pub const E_SHOFF: usize = 0x28;
pub const E_SHENTSIZE: usize = 0x3a;
pub const E_SHNUM: usize = 0x3c;
pub const SH_TYPE: usize = 0x04;
pub const SH_OFFSET: usize = 0x18;
pub const SH_SIZE: usize = 0x20;
pub const SH_LINK: usize = 0x28;
pub const SHT_SYMTAB: u64 = 2;
pub const SYMBOL_SIZE: usize = 24;
pub const ST_INFO: usize = 0x04;
pub const ST_VALUE: usize = 0x08;
pub const STT_FUNC: u64 = 2;

/// The little-endian number of `n` bytes at offset `at`, if it is there.
pub open spec fn field(image: Seq<u8>, at: int, n: int) -> Option<int> {
    if 0 <= at && at + n <= image.len() {
        Some(le(image.subrange(at, at + n)) as int)
    } else {
        None
    }
}

/// Read a number of `n` bytes.
pub fn read_field(image: &[u8], at: u128, n: usize) -> (r: Option<u64>)
    requires
        n <= 8,
        at <= u128::MAX - 8,
    ensures
        match field(image@, at as int, n as int) {
            Some(v) => r == Some(v as u64) && 0 <= v <= u64::MAX,
            None => r is None,
        },
        n == 2 && r is Some ==> r->0 < 0x1_0000,
        n == 4 && r is Some ==> r->0 < 0x1_0000_0000,
{
    if at + n as u128 > image.len() as u128 {
        return None;
    }
    proof {
        lemma_span_of_widths();
    }
    Some(get_le(image, at as usize, n))
}

/// The section header at `base`, read as a symbol table's: where its symbols are, how many
/// bytes they take, and which section holds their names.
pub open spec fn table_at(image: Seq<u8>, base: int) -> Option<(int, int, int)> {
    match (
        field(image, base + SH_OFFSET, 8),
        field(image, base + SH_SIZE, 8),
        field(image, base + SH_LINK, 4),
    ) {
        (Some(offset), Some(size), Some(link)) => Some((offset, size, link)),
        _ => None,
    }
}

/// The first symbol table among the section headers from the `i`th on.
pub open spec fn symbol_table(image: Seq<u8>, shoff: int, entsize: int, count: int, i: int) -> Option<
    (int, int, int),
>
    decreases count - i,
{
    if i >= count {
        None
    } else {
        match field(image, shoff + i * entsize + SH_TYPE, 4) {
            None => None,
            Some(kind) => if kind == SHT_SYMTAB {
                table_at(image, shoff + i * entsize)
            } else {
                symbol_table(image, shoff, entsize, count, i + 1)
            },
        }
    }
}

/// Whether the NUL-terminated string at `at` is `name`.
pub open spec fn is_named(image: Seq<u8>, at: int, name: Seq<u8>) -> bool {
    0 <= at && at + name.len() < image.len() && image.subrange(at, at + name.len()) == name
        && image[at + name.len()] == 0
}

/// The value of the first function symbol called `name` among the symbols from the `i`th on.
pub open spec fn first_function(
    image: Seq<u8>,
    table: int,
    count: int,
    names: int,
    name: Seq<u8>,
    i: int,
) -> Option<u64>
    decreases count - i,
{
    if i >= count {
        None
    } else {
        let base = table + i * SYMBOL_SIZE;
        match (field(image, base, 4), field(image, base + ST_INFO, 1), field(
            image,
            base + ST_VALUE,
            8,
        )) {
            (Some(at), Some(info), Some(value)) => if info % 16 == STT_FUNC && is_named(
                image,
                names + at,
                name,
            ) {
                Some(value as u64)
            } else {
                first_function(image, table, count, names, name, i + 1)
            },
            _ => None,
        }
    }
}

/// The address of the function called `name`.
pub open spec fn address_of(image: Seq<u8>, name: Seq<u8>) -> Option<u64> {
    match (field(image, E_SHOFF as int, 8), field(image, E_SHENTSIZE as int, 2), field(
        image,
        E_SHNUM as int,
        2,
    )) {
        (Some(shoff), Some(entsize), Some(count)) => match symbol_table(
            image,
            shoff,
            entsize,
            count,
            0,
        ) {
            None => None,
            Some((offset, size, link)) => match field(
                image,
                shoff + link * entsize + SH_OFFSET,
                8,
            ) {
                None => None,
                Some(names) => first_function(
                    image,
                    offset,
                    size / SYMBOL_SIZE as int,
                    names,
                    name,
                    0,
                ),
            },
        },
        _ => None,
    }
}

/// Whether the NUL-terminated string at `at` is `name`.
fn name_is(image: &[u8], at: u128, name: &[u8]) -> (r: bool)
    requires
        at <= 0x2_0000_0000_0000_0000,
    ensures
        r == is_named(image@, at as int, name@),
{
    if at + name.len() as u128 >= image.len() as u128 {
        return false;
    }
    image[at as usize + name.len()] == 0 && crate::machine::starts_with(image, at as usize, name)
}

/// The first symbol table of the image.
fn find_table(image: &[u8], shoff: u64, entsize: u64, count: u64) -> (r: Option<(u64, u64, u64)>)
    requires
        entsize < 0x1_0000,
        count < 0x1_0000,
    ensures
        match symbol_table(image@, shoff as int, entsize as int, count as int, 0) {
            Some((offset, size, link)) => r == Some((offset as u64, size as u64, link as u64)) && 0
                <= offset <= u64::MAX && 0 <= size <= u64::MAX && 0 <= link < 0x1_0000_0000,
            None => r is None,
        },
{
    let mut i: u64 = 0;
    while i < count
        invariant
            entsize < 0x1_0000,
            count < 0x1_0000,
            i <= count,
            symbol_table(image@, shoff as int, entsize as int, count as int, 0) == symbol_table(
                image@,
                shoff as int,
                entsize as int,
                count as int,
                i as int,
            ),
        decreases count - i,
    {
        proof {
            assert(0 <= i * entsize < 0x1_0000_0000) by (nonlinear_arith)
                requires
                    0 <= i < 0x1_0000,
                    0 <= entsize < 0x1_0000,
            ;
        }
        let base: u128 = shoff as u128 + i as u128 * entsize as u128;
        match read_field(image, base + SH_TYPE as u128, 4) {
            None => {
                return None;
            },
            Some(kind) => if kind == SHT_SYMTAB {
                return match (
                    read_field(image, base + SH_OFFSET as u128, 8),
                    read_field(image, base + SH_SIZE as u128, 8),
                    read_field(image, base + SH_LINK as u128, 4),
                ) {
                    (Some(offset), Some(size), Some(link)) => Some((offset, size, link)),
                    _ => None,
                };
            },
        }
        i += 1;
    }
    None
}

/// The first function symbol called `name` of a table of `count` symbols.
fn find_function(image: &[u8], table: u64, count: u64, names: u64, name: &[u8]) -> (r: Option<u64>)
    requires
        count <= u64::MAX / 24,
    ensures
        r == first_function(image@, table as int, count as int, names as int, name@, 0),
{
    let mut i: u64 = 0;
    while i < count
        invariant
            count <= u64::MAX / 24,
            i <= count,
            first_function(image@, table as int, count as int, names as int, name@, 0)
                == first_function(
                image@,
                table as int,
                count as int,
                names as int,
                name@,
                i as int,
            ),
        decreases count - i,
    {
        let base: u128 = table as u128 + i as u128 * SYMBOL_SIZE as u128;
        match (
            read_field(image, base, 4),
            read_field(image, base + ST_INFO as u128, 1),
            read_field(image, base + ST_VALUE as u128, 8),
        ) {
            (Some(at), Some(info), Some(value)) => {
                if info % 16 == STT_FUNC && name_is(image, names as u128 + at as u128, name) {
                    return Some(value);
                }
            },
            _ => {
                return None;
            },
        }
        i += 1;
    }
    None
}

/// The address of the function symbol called `name`, or `None` where the image has no symbol
/// table (it was stripped), no such function, or is cut short.
#[must_use]
pub fn function_addr(image: &[u8], name: &str) -> (r: Option<u64>)
    ensures
        r == address_of(image@, name.spec_bytes()),
{
    let (shoff, entsize, count): (u64, u64, u64) = match (
        read_field(image, E_SHOFF as u128, 8),
        read_field(image, E_SHENTSIZE as u128, 2),
        read_field(image, E_SHNUM as u128, 2),
    ) {
        (Some(shoff), Some(entsize), Some(count)) => (shoff, entsize, count),
        _ => {
            return None;
        },
    };
    let (offset, size, link): (u64, u64, u64) = match find_table(image, shoff, entsize, count) {
        Some(found) => found,
        None => {
            return None;
        },
    };
    proof {
        assert(0 <= link * entsize < 0x1_0000_0000_0000) by (nonlinear_arith)
            requires
                0 <= link < 0x1_0000_0000,
                0 <= entsize < 0x1_0000,
        ;
    }
    let names_header: u128 = shoff as u128 + link as u128 * entsize as u128;
    match read_field(image, names_header + SH_OFFSET as u128, 8) {
        Some(names) => find_function(
            image,
            offset,
            size / SYMBOL_SIZE as u64,
            names,
            name.as_bytes(),
        ),
        None => None,
    }
}

} // verus!
