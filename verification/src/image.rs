//! What becomes of an ELF image: where its bytes are in RAM, where the hart starts, and which of
//! its symbols a name finds. The fields of the format are numbers at fixed offsets.

use vstd::prelude::*;
use crate::bytes::{lemma_le_bound, lemma_span_of_widths};
use crate::cpu::HartState;
use crate::isa::memory::{lemma_number, number};
use crate::loader::{
    dtb_address, header_error, machine_of, memory_of, segment_at, segment_loaded, segments_loaded,
    ElfError, Loaded,
};
use crate::mem::{lemma_place_bounds, MemState};
use crate::symbols::{address_of, field, first_function, is_named, symbol_table};

verus! {

/// Where program header `i` of an image is.
pub open spec fn header(image: Seq<u8>, i: int) -> int {
    number(image, 0x20, 8) + i * number(image, 0x36, 2)
}

/// How many program headers an image has.
pub open spec fn headers(image: Seq<u8>) -> int {
    number(image, 0x38, 2)
}

/// Whether program header `i` is of a part that is to be loaded.
pub open spec fn is_loaded(image: Seq<u8>, i: int) -> bool {
    number(image, header(image, i), 4) == 1
}

/// Where that part is in the image.
pub open spec fn part_offset(image: Seq<u8>, i: int) -> int {
    number(image, header(image, i) + 8, 8)
}

/// Where that part is as the image sees it.
pub open spec fn part_virtual(image: Seq<u8>, i: int) -> int {
    number(image, header(image, i) + 0x10, 8)
}

/// Where that part goes.
pub open spec fn part_physical(image: Seq<u8>, i: int) -> int {
    number(image, header(image, i) + 0x18, 8)
}

/// How many bytes of it are in the image.
pub open spec fn part_size(image: Seq<u8>, i: int) -> int {
    number(image, header(image, i) + 0x20, 8)
}

/// How many bytes of memory it takes.
pub open spec fn part_memory(image: Seq<u8>, i: int) -> int {
    number(image, header(image, i) + 0x28, 8)
}

/// Whether the byte of RAM at `p` is of part `i`.
pub open spec fn in_part(image: Seq<u8>, i: int, p: int) -> bool {
    is_loaded(image, i) && part_physical(image, i) - 0x8000_0000 <= p < part_physical(image, i)
        - 0x8000_0000 + part_size(image, i)
}

proof fn lemma_field(image: Seq<u8>, at: int, n: int)
    requires
        n == 1 || n == 2 || n == 4 || n == 8,
    ensures
        field(image, at, n) is Some ==> field(image, at, n)->0 == number(image, at, n),
        field(image, at, n) is Some ==> 0 <= number(image, at, n) < crate::isa::memory::values(n),
{
    if field(image, at, n) is Some {
        lemma_number(image, at, n);
        lemma_le_bound(image.subrange(at, at + n));
        lemma_span_of_widths();
    }
}

proof fn lemma_not_negative(bytes: Seq<u8>, at: int, n: int)
    ensures
        0 <= number(bytes, at, n),
    decreases n,
{
    if n > 0 {
        lemma_not_negative(bytes, at + 1, n - 1);
    }
}

/// What a program header says.
proof fn lemma_segment(image: Seq<u8>, i: int)
    requires
        segment_at(image, header(image, i)) is Some,
    ensures
        (segment_at(image, header(image, i))->0 is Some) == is_loaded(image, i),
        is_loaded(image, i) ==> ({
            let s = (segment_at(image, header(image, i))->0)->0;
            &&& s.offset == part_offset(image, i)
            &&& s.vaddr == part_virtual(image, i)
            &&& s.paddr == part_physical(image, i)
            &&& s.filesz == part_size(image, i)
            &&& s.memsz == part_memory(image, i)
        }),
{
    let base = header(image, i);
    lemma_field(image, base, 4);
    lemma_field(image, base + 8, 8);
    lemma_field(image, base + 0x10, 8);
    lemma_field(image, base + 0x18, 8);
    lemma_field(image, base + 0x20, 8);
    lemma_field(image, base + 0x28, 8);
}

proof fn lemma_written(m: MemState, addr: u64, data: Seq<u8>)
    requires
        m.scramble is None,
        m.write(addr, data).0 is None,
    ensures
        ({
            let after = m.write(addr, data).1;
            let at = addr - 0x8000_0000;
            &&& after.scramble is None
            &&& after.bytes.len() == m.bytes.len()
            &&& 0 <= at && at + data.len() <= m.bytes.len()
            &&& forall|p: int|
                0 <= p < m.bytes.len() ==> #[trigger] after.bytes[p] == if at <= p < at
                    + data.len() {
                    data[p - at]
                } else {
                    m.bytes[p]
                }
        }),
{
    if addr >= 0x8000_0000 {
        lemma_place_bounds(m, addr - 0x8000_0000);
    }
}

/// A byte that no later part is put on stays.
proof fn lemma_stays(image: Seq<u8>, entry: u64, at: Loaded, i: int, p: int)
    requires
        0 <= i <= headers(image),
        at.ram.scramble is None,
        0 <= p < at.ram.bytes.len(),
        forall|j: int| i <= j < headers(image) ==> !(#[trigger] in_part(image, j, p)),
        parts_from(image, entry, at, i) is Ok,
    ensures
        ({
            let end = parts_from(image, entry, at, i)->Ok_0;
            &&& end.ram.bytes.len() == at.ram.bytes.len()
            &&& end.ram.scramble is None
            &&& end.ram.bytes[p] == at.ram.bytes[p]
        }),
    decreases headers(image) - i,
{
    if i < headers(image) {
        lemma_segment(image, i);
        assert(!in_part(image, i, p));
        match segment_at(image, header(image, i)) {
            Some(Some(s)) => {
                let part = image.subrange(s.offset as int, s.offset + s.filesz);
                lemma_written(at.ram, s.paddr, part);
                lemma_stays(image, entry, segment_loaded(image, s, entry, at)->Ok_0, i + 1, p);
            },
            Some(None) => lemma_stays(image, entry, at, i + 1, p),
            None => {},
        }
    }
}

/// The parts of an image from the `i`th on, loaded.
spec fn parts_from(image: Seq<u8>, entry: u64, at: Loaded, i: int) -> Result<Loaded, ElfError> {
    segments_loaded(
        image,
        number(image, 0x20, 8),
        number(image, 0x36, 2),
        headers(image),
        entry,
        at,
        i,
    )
}

proof fn lemma_loaded(image: Seq<u8>, entry: u64, at: Loaded, i: int, j: int, p: int)
    requires
        0 <= i <= j < headers(image),
        at.ram.scramble is None,
        0 <= p < at.ram.bytes.len(),
        in_part(image, j, p),
        forall|l: int| j < l < headers(image) ==> !(#[trigger] in_part(image, l, p)),
        parts_from(image, entry, at, i) is Ok,
    ensures
        ({
            let end = parts_from(image, entry, at, i)->Ok_0;
            &&& end.ram.bytes.len() == at.ram.bytes.len()
            &&& end.ram.scramble is None
            &&& end.ram.bytes[p] == image[part_offset(image, j) + p - (part_physical(image, j)
                - 0x8000_0000)]
        }),
    decreases headers(image) - i,
{
    lemma_segment(image, i);
    match segment_at(image, header(image, i)) {
        Some(Some(s)) => {
            let part = image.subrange(s.offset as int, s.offset + s.filesz);
            lemma_written(at.ram, s.paddr, part);
            let next = segment_loaded(image, s, entry, at)->Ok_0;
            if i == j {
                lemma_stays(image, entry, next, i + 1, p);
            } else {
                lemma_loaded(image, entry, next, i + 1, j, p);
            }
        },
        Some(None) => lemma_loaded(image, entry, at, i + 1, j, p),
        None => {},
    }
}

proof fn lemma_header_fields(image: Seq<u8>)
    requires
        header_error(image) is None,
    ensures
        field(image, 0x18, 8) == Some(number(image, 0x18, 8)),
        field(image, 0x20, 8) == Some(number(image, 0x20, 8)),
        field(image, 0x36, 2) == Some(number(image, 0x36, 2)),
        field(image, 0x38, 2) == Some(number(image, 0x38, 2)),
        0 <= number(image, 0x18, 8) < 0x1_0000_0000_0000_0000,
        0 <= headers(image),
{
    lemma_field(image, 0x18, 8);
    lemma_field(image, 0x20, 8);
    lemma_field(image, 0x36, 2);
    lemma_field(image, 0x38, 2);
}

/// Where the device tree goes: at a fixed address near the top of a machine of full size, else as
/// high as it fits with its room to spare, and at the start where it does not.
pub open spec fn tree_at(ram_size: int, len: int) -> int {
    let room = ram_size - len - 0x1000;
    if room >= 0x700_0000 {
        0x700_0000
    } else if room > 0 {
        room
    } else {
        0
    }
}

/// A loaded image is in RAM: a byte of RAM that is of a part, and of no later part nor of the
/// device tree, is that byte of the part; a byte of the device tree is that byte of it; and every
/// other byte is 0. The address of the device tree is handed on.
pub proof fn law_an_image_is_in_ram(
    image: Seq<u8>,
    ram_size: nat,
    dtb: Option<Seq<u8>>,
    i: int,
    p: int,
)
    requires
        memory_of(image, ram_size, dtb) is Ok,
        0 <= p < ram_size,
    ensures
        ({
            let (ram, pc, addr) = memory_of(image, ram_size, dtb)->Ok_0;
            let tree = tree_at(ram_size as int, (dtb->0).len() as int);
            let in_tree = dtb is Some && tree <= p < tree + (dtb->0).len();
            &&& ram.bytes.len() == ram_size
            &&& dtb is Some ==> addr == Some((0x8000_0000 + tree) as u64)
            &&& dtb is None ==> addr is None
            &&& in_tree ==> ram.bytes[p] == (dtb->0)[p - tree]
            &&& !in_tree && 0 <= i < headers(image) && in_part(image, i, p) && (forall|j: int|
                i < j < headers(image) ==> !(#[trigger] in_part(image, j, p))) ==> ram.bytes[p]
                == image[part_offset(image, i) + p - (part_physical(image, i) - 0x8000_0000)]
            &&& !in_tree && (forall|j: int|
                0 <= j < headers(image) ==> !(#[trigger] in_part(image, j, p))) ==> ram.bytes[p]
                == 0
        }),
{
    lemma_header_fields(image);
    let entry = number(image, 0x18, 8) as u64;
    let start = Loaded { ram: crate::loader::blank(ram_size), entry: None };
    let loaded = parts_from(image, entry, start, 0);
    assert(loaded is Ok);
    lemma_length(image, entry, start, 0);
    if 0 <= i < headers(image) && in_part(image, i, p) && (forall|j: int|
        i < j < headers(image) ==> !(#[trigger] in_part(image, j, p))) {
        lemma_loaded(image, entry, start, 0, i, p);
    }
    if forall|j: int| 0 <= j < headers(image) ==> !(#[trigger] in_part(image, j, p)) {
        lemma_stays(image, entry, start, 0, p);
    }
    if let Some(blob) = dtb {
        let addr = dtb_address(ram_size as int, blob.len() as int);
        lemma_written((loaded->Ok_0).ram, addr, blob);
    }
}

proof fn lemma_length(image: Seq<u8>, entry: u64, at: Loaded, i: int)
    requires
        0 <= i <= headers(image),
        at.ram.scramble is None,
        parts_from(image, entry, at, i) is Ok,
    ensures
        (parts_from(image, entry, at, i)->Ok_0).ram.bytes.len() == at.ram.bytes.len(),
        (parts_from(image, entry, at, i)->Ok_0).ram.scramble is None,
    decreases headers(image) - i,
{
    if i < headers(image) {
        match segment_at(image, header(image, i)) {
            Some(Some(s)) => {
                lemma_written(
                    at.ram,
                    s.paddr,
                    image.subrange(s.offset as int, s.offset + s.filesz),
                );
                lemma_length(image, entry, segment_loaded(image, s, entry, at)->Ok_0, i + 1);
            },
            Some(None) => lemma_length(image, entry, at, i + 1),
            None => {},
        }
    }
}

/// Whether part `i` holds the address `a`, as the image sees it.
pub open spec fn holds(image: Seq<u8>, i: int, a: int) -> bool {
    is_loaded(image, i) && part_virtual(image, i) <= a < part_virtual(image, i) + part_memory(
        image,
        i,
    )
}

/// Whether the parts of an image end below 2^64.
pub open spec fn parts_fit(image: Seq<u8>) -> bool {
    forall|i: int|
        0 <= i < headers(image) ==> part_virtual(image, i) + (#[trigger] part_memory(image, i))
            < 0x1_0000_0000_0000_0000 && part_physical(image, i) + part_memory(image, i)
            < 0x1_0000_0000_0000_0000
}

proof fn lemma_entry(image: Seq<u8>, entry: u64, at: Loaded, i: int, j: int)
    requires
        0 <= i <= headers(image),
        parts_fit(image),
        parts_from(image, entry, at, i) is Ok,
    ensures
        ({
            let end = (parts_from(image, entry, at, i)->Ok_0).entry;
            &&& i <= j < headers(image) && holds(image, j, entry as int) && (forall|l: int|
                j < l < headers(image) ==> !(#[trigger] holds(image, l, entry as int))) ==> end
                == Some((entry - part_virtual(image, j) + part_physical(image, j)) as u64)
            &&& (forall|l: int|
                i <= l < headers(image) ==> !(#[trigger] holds(image, l, entry as int))) ==> end
                == at.entry
        }),
    decreases headers(image) - i,
{
    if i < headers(image) {
        lemma_segment(image, i);
        match segment_at(image, header(image, i)) {
            Some(Some(s)) => {
                let fits = part_memory(image, i);
                let next = segment_loaded(image, s, entry, at)->Ok_0;
                lemma_entry(image, entry, next, i + 1, j);
                assert(s.covers(entry) == holds(image, i, entry as int));
                if i == j && holds(image, j, entry as int) && (forall|l: int|
                    j < l < headers(image) ==> !(#[trigger] holds(image, l, entry as int))) {
                    assert(next.entry == Some(
                        (entry - part_virtual(image, j) + part_physical(image, j)) as u64,
                    ));
                }
            },
            Some(None) => lemma_entry(image, entry, at, i + 1, j),
            None => {},
        }
    }
}

/// The hart starts where the entry point is loaded: the last part that holds the entry tells
/// where that is, and where none does the entry is taken as it is.
pub proof fn law_the_entry_point(image: Seq<u8>, ram_size: nat, dtb: Option<Seq<u8>>, j: int)
    requires
        memory_of(image, ram_size, dtb) is Ok,
        parts_fit(image),
    ensures
        ({
            let (ram, pc, addr) = memory_of(image, ram_size, dtb)->Ok_0;
            let entry = number(image, 0x18, 8);
            &&& 0 <= j < headers(image) && holds(image, j, entry) && (forall|l: int|
                j < l < headers(image) ==> !(#[trigger] holds(image, l, entry))) ==> pc == entry
                - part_virtual(image, j) + part_physical(image, j)
            &&& (forall|l: int| 0 <= l < headers(image) ==> !(#[trigger] holds(image, l, entry)))
                ==> pc == entry
        }),
{
    lemma_header_fields(image);
    let entry = number(image, 0x18, 8) as u64;
    let start = Loaded { ram: crate::loader::blank(ram_size), entry: None };
    lemma_entry(image, entry, start, 0, j);
    if 0 <= j < headers(image) {
        let fits = part_memory(image, j);
        lemma_not_negative(image, header(image, j) + 0x18, 8);
        lemma_not_negative(image, header(image, j) + 0x10, 8);
    }
}

/// An image is refused for the first of these: it does not start with `\x7fELF`, it is shorter
/// than its header, or it is not of 64 bits, little-endian, and for this processor.
pub proof fn law_foreign_images_are_refused(image: Seq<u8>, ram_size: nat, dtb: Option<Seq<u8>>)
    ensures
        ({
            let elf = image.len() >= 4 && image[0] == 0x7f && image[1] == 0x45 && image[2] == 0x4c
                && image[3] == 0x46;
            let r = memory_of(image, ram_size, dtb);
            &&& !elf ==> r == Err::<(MemState, u64, Option<u64>), ElfError>(ElfError::BadMagic)
            &&& elf && image.len() < 64 ==> r == Err::<(MemState, u64, Option<u64>), ElfError>(
                ElfError::Truncated,
            )
            &&& elf && image.len() >= 64 && (image[4] != 2 || image[5] != 1 || number(
                image,
                0x12,
                2,
            ) != 243) ==> r == Err::<(MemState, u64, Option<u64>), ElfError>(
                ElfError::Unsupported,
            )
            &&& elf && image.len() >= 64 && image[4] == 2 && image[5] == 1 && number(image, 0x12, 2)
                == 243 ==> header_error(image) is None
        }),
{
    if image.len() >= 4 {
        let t = image.take(4);
        if image[0] == 0x7f && image[1] == 0x45 && image[2] == 0x4c && image[3] == 0x46 {
            assert(t =~= crate::loader::magic());
        } else if t == crate::loader::magic() {
            assert(t[0] == 0x7f && t[1] == 0x45 && t[2] == 0x4c && t[3] == 0x46);
        }
    }
    lemma_field(image, 0x12, 2);
}

/// A machine boots on its first hart alone, which is at the entry, in supervisor mode, with the
/// address of the device tree in register 11 and 0 in the others; the rest are stopped.
pub proof fn law_a_machine_boots_on_its_first_hart(
    image: Seq<u8>,
    ram: MemState,
    pc: u64,
    dtb: Option<u64>,
    n: nat,
    j: int,
)
    requires
        0 <= j < n,
    ensures
        ({
            let m = machine_of(image, ram, pc, dtb, n);
            let h = m.harts[j];
            &&& m.harts.len() == n
            &&& m.bus.ram == ram
            &&& m.time == 0
            &&& h.privilege == crate::cpu::Privilege::Supervisor
            &&& h.run == if j == 0 {
                HartState::Running
            } else {
                HartState::Stopped
            }
            &&& j == 0 ==> h.pc == pc
            &&& forall|i: int|
                0 <= i < 32 ==> #[trigger] h.x[i] == if j == 0 && i == 11 && dtb is Some {
                    dtb->0
                } else {
                    0
                }
            &&& h.csr == Seq::new(10, |i: int| 0u64)
        }),
{
}

// Symbols.

/// Where section header `i` of an image is.
pub open spec fn section(image: Seq<u8>, i: int) -> int {
    number(image, 0x28, 8) + i * number(image, 0x3a, 2)
}

/// Whether section `t` is the first symbol table of an image.
pub open spec fn is_symbol_table(image: Seq<u8>, t: int) -> bool {
    &&& 0 <= t < number(image, 0x3c, 2)
    &&& number(image, section(image, t) + 4, 4) == 2
    &&& forall|i: int| 0 <= i < t ==> number(image, #[trigger] section(image, i) + 4, 4) != 2
}

/// Where symbol `i` of the table in section `t` is.
pub open spec fn symbol(image: Seq<u8>, t: int, i: int) -> int {
    number(image, section(image, t) + 0x18, 8) + i * 24
}

/// Whether symbol `i` of the table in section `t` is a function that is called `name`: its name,
/// in the section that the table names, ends there.
pub open spec fn is_function(image: Seq<u8>, t: int, i: int, name: Seq<u8>) -> bool {
    let names = number(image, section(image, number(image, section(image, t) + 0x28, 4)) + 0x18, 8);
    let at = names + number(image, symbol(image, t, i), 4);
    &&& number(image, symbol(image, t, i) + 4, 1) % 16 == 2
    &&& at + name.len() < image.len()
    &&& image.subrange(at, at + name.len()) == name
    &&& image[at + name.len()] == 0
}

proof fn lemma_table(image: Seq<u8>, count: int, i: int)
    requires
        0 <= i <= count,
        symbol_table(image, number(image, 0x28, 8), number(image, 0x3a, 2), count, i) is Some,
    ensures
        exists|t: int|
            i <= t < count && number(image, #[trigger] section(image, t) + 4, 4) == 2 && (forall|j: int|
                i <= j < t ==> number(image, #[trigger] section(image, j) + 4, 4) != 2) && ({
                let (offset, size, link) = symbol_table(
                    image,
                    number(image, 0x28, 8),
                    number(image, 0x3a, 2),
                    count,
                    i,
                )->0;
                &&& offset == number(image, section(image, t) + 0x18, 8)
                &&& size == number(image, section(image, t) + 0x20, 8)
                &&& link == number(image, section(image, t) + 0x28, 4)
            }),
    decreases count - i,
{
    let base = section(image, i);
    lemma_field(image, base + 4, 4);
    lemma_field(image, base + 0x18, 8);
    lemma_field(image, base + 0x20, 8);
    lemma_field(image, base + 0x28, 4);
    if number(image, section(image, i) + 4, 4) != 2 {
        lemma_table(image, count, i + 1);
    }
}

proof fn lemma_function(image: Seq<u8>, t: int, count: int, names: int, name: Seq<u8>, i: int)
    requires
        0 <= i,
        0 <= names,
        names == number(
            image,
            section(image, number(image, section(image, t) + 0x28, 4)) + 0x18,
            8,
        ),
        first_function(
            image,
            number(image, section(image, t) + 0x18, 8),
            count,
            names,
            name,
            i,
        ) is Some,
    ensures
        exists|k: int|
            i <= k < count && #[trigger] is_function(image, t, k, name) && (forall|j: int|
                i <= j < k ==> !(#[trigger] is_function(image, t, j, name))) && first_function(
                image,
                number(image, section(image, t) + 0x18, 8),
                count,
                names,
                name,
                i,
            ) == Some(number(image, symbol(image, t, k) + 8, 8) as u64),
    decreases count - i,
{
    let base = symbol(image, t, i);
    lemma_field(image, base, 4);
    lemma_field(image, base + 4, 1);
    lemma_field(image, base + 8, 8);
    let at = names + number(image, base, 4);
    assert(is_function(image, t, i, name) == (number(image, base + 4, 1) % 16 == 2 && is_named(
        image,
        at,
        name,
    )));
    if !is_function(image, t, i, name) {
        lemma_function(image, t, count, names, name, i + 1);
    }
}

/// The address that a name finds is the value of the first function of that name in the first
/// symbol table.
pub proof fn law_a_name_finds_the_first_function(image: Seq<u8>, name: Seq<u8>)
    requires
        address_of(image, name) is Some,
    ensures
        exists|t: int, k: int|
            is_symbol_table(image, t) && 0 <= k < number(image, section(image, t) + 0x20, 8) / 24
                && #[trigger] is_function(image, t, k, name) && (forall|j: int|
                0 <= j < k ==> !(#[trigger] is_function(image, t, j, name))) && address_of(
                image,
                name,
            ) == Some(number(image, symbol(image, t, k) + 8, 8) as u64),
{
    lemma_field(image, 0x28, 8);
    lemma_field(image, 0x3a, 2);
    lemma_field(image, 0x3c, 2);
    let count = number(image, 0x3c, 2);
    lemma_table(image, count, 0);
    let t = choose|t: int|
        0 <= t < count && number(image, #[trigger] section(image, t) + 4, 4) == 2 && (forall|j: int|
            0 <= j < t ==> number(image, #[trigger] section(image, j) + 4, 4) != 2) && ({
            let (offset, size, link) = symbol_table(
                image,
                number(image, 0x28, 8),
                number(image, 0x3a, 2),
                count,
                0,
            )->0;
            &&& offset == number(image, section(image, t) + 0x18, 8)
            &&& size == number(image, section(image, t) + 0x20, 8)
            &&& link == number(image, section(image, t) + 0x28, 4)
        });
    let link = number(image, section(image, t) + 0x28, 4);
    lemma_field(image, section(image, link) + 0x18, 8);
    let names = number(image, section(image, link) + 0x18, 8);
    let size = number(image, section(image, t) + 0x20, 8);
    lemma_function(image, t, size / 24, names, name, 0);
    assert(is_symbol_table(image, t));
}

/// Whether every program header of an image is in it, and every part that is to be loaded is in
/// it and goes to RAM of `ram_size` bytes.
pub open spec fn well_formed(image: Seq<u8>, ram_size: nat) -> bool {
    forall|i: int|
        0 <= i < headers(image) ==> {
            &&& 0 <= #[trigger] header(image, i)
            &&& header(image, i) + 0x30 <= image.len()
            &&& is_loaded(image, i) ==> {
                &&& part_offset(image, i) + part_size(image, i) <= image.len()
                &&& 0x8000_0000 <= part_physical(image, i)
                &&& part_physical(image, i) - 0x8000_0000 + part_size(image, i) <= ram_size
            }
        }
}

proof fn lemma_segment_is_there(image: Seq<u8>, i: int)
    requires
        0 <= header(image, i),
        header(image, i) + 0x30 <= image.len(),
    ensures
        segment_at(image, header(image, i)) is Some,
{
}

proof fn lemma_parts_load(image: Seq<u8>, entry: u64, at: Loaded, i: int)
    requires
        0 <= i <= headers(image),
        at.ram.scramble is None,
        well_formed(image, at.ram.bytes.len()),
    ensures
        parts_from(image, entry, at, i) is Ok,
    decreases headers(image) - i,
{
    if i < headers(image) {
        let base = header(image, i);
        lemma_segment_is_there(image, i);
        lemma_segment(image, i);
        match segment_at(image, header(image, i)) {
            Some(Some(s)) => {
                let part = image.subrange(s.offset as int, s.offset + s.filesz);
                lemma_place_bounds(at.ram, s.paddr - 0x8000_0000);
                assert(at.ram.write(s.paddr, part).0 is None);
                lemma_written(at.ram, s.paddr, part);
                lemma_parts_load(image, entry, segment_loaded(image, s, entry, at)->Ok_0, i + 1);
            },
            Some(None) => lemma_parts_load(image, entry, at, i + 1),
            None => {},
        }
    }
}

/// An image for this processor whose parts are all in it and fit in RAM is loaded, with a device
/// tree that fits with its room to spare.
pub proof fn law_a_well_formed_image_is_loaded(image: Seq<u8>, ram_size: nat, dtb: Option<Seq<u8>>)
    requires
        image.len() >= 64,
        image[0] == 0x7f && image[1] == 0x45 && image[2] == 0x4c && image[3] == 0x46,
        image[4] == 2 && image[5] == 1 && number(image, 0x12, 2) == 243,
        well_formed(image, ram_size),
        dtb is Some ==> (dtb->0).len() + 0x1000 <= ram_size,
    ensures
        memory_of(image, ram_size, dtb) is Ok,
{
    law_foreign_images_are_refused(image, ram_size, dtb);
    lemma_header_fields(image);
    let entry = number(image, 0x18, 8) as u64;
    let start = Loaded { ram: crate::loader::blank(ram_size), entry: None };
    lemma_parts_load(image, entry, start, 0);
    lemma_length(image, entry, start, 0);
    if let Some(blob) = dtb {
        let ram = (parts_from(image, entry, start, 0)->Ok_0).ram;
        let addr = dtb_address(ram_size as int, blob.len() as int);
        lemma_place_bounds(ram, addr - 0x8000_0000);
    }
}

/// Whether the symbol table in section `t`, the names of it and its symbols are in the image.
pub open spec fn table_is_there(image: Seq<u8>, t: int) -> bool {
    let names = number(image, section(image, t) + 0x28, 4);
    &&& image.len() >= 64
    &&& forall|i: int|
        0 <= i <= t ==> 0 <= #[trigger] section(image, i) && section(image, i) + 0x40
            <= image.len()
    &&& 0 <= section(image, names) && section(image, names) + 0x40 <= image.len()
    &&& symbol(image, t, number(image, section(image, t) + 0x20, 8) / 24) <= image.len()
}

proof fn lemma_table_found(image: Seq<u8>, count: int, i: int, t: int)
    requires
        0 <= i <= t < count,
        number(image, section(image, t) + 4, 4) == 2,
        forall|j: int| 0 <= j < t ==> number(image, #[trigger] section(image, j) + 4, 4) != 2,
        forall|j: int|
            0 <= j <= t ==> 0 <= #[trigger] section(image, j) && section(image, j) + 0x40
                <= image.len(),
    ensures
        symbol_table(image, number(image, 0x28, 8), number(image, 0x3a, 2), count, i) == Some(
            (
                number(image, section(image, t) + 0x18, 8),
                number(image, section(image, t) + 0x20, 8),
                number(image, section(image, t) + 0x28, 4),
            ),
        ),
    decreases t - i,
{
    let base = section(image, i);
    lemma_field(image, base + 4, 4);
    lemma_field(image, base + 0x18, 8);
    lemma_field(image, base + 0x20, 8);
    lemma_field(image, base + 0x28, 4);
    if i < t {
        assert(number(image, section(image, i) + 4, 4) != 2);
        lemma_table_found(image, count, i + 1, t);
    }
}

proof fn lemma_function_found(
    image: Seq<u8>,
    t: int,
    count: int,
    names: int,
    name: Seq<u8>,
    i: int,
    k: int,
)
    requires
        0 <= i <= k < count,
        0 <= names,
        names == number(
            image,
            section(image, number(image, section(image, t) + 0x28, 4)) + 0x18,
            8,
        ),
        symbol(image, t, count) <= image.len(),
        is_function(image, t, k, name),
    ensures
        first_function(
            image,
            number(image, section(image, t) + 0x18, 8),
            count,
            names,
            name,
            i,
        ) is Some,
    decreases k - i,
{
    let base = symbol(image, t, i);
    lemma_not_negative(image, section(image, t) + 0x18, 8);
    lemma_field(image, base, 4);
    lemma_field(image, base + 4, 1);
    lemma_field(image, base + 8, 8);
    let at = names + number(image, base, 4);
    assert(is_function(image, t, i, name) == (number(image, base + 4, 1) % 16 == 2 && is_named(
        image,
        at,
        name,
    )));
    if !is_function(image, t, i, name) {
        lemma_function_found(image, t, count, names, name, i + 1, k);
    }
}

/// A name that a function of the first symbol table has is found.
pub proof fn law_a_function_is_found_by_its_name(image: Seq<u8>, name: Seq<u8>, t: int, k: int)
    requires
        is_symbol_table(image, t),
        table_is_there(image, t),
        0 <= k < number(image, section(image, t) + 0x20, 8) / 24,
        is_function(image, t, k, name),
    ensures
        address_of(image, name) is Some,
{
    lemma_field(image, 0x28, 8);
    lemma_field(image, 0x3a, 2);
    lemma_field(image, 0x3c, 2);
    let count = number(image, 0x3c, 2);
    lemma_table_found(image, count, 0, t);
    let link = number(image, section(image, t) + 0x28, 4);
    lemma_field(image, section(image, link) + 0x18, 8);
    let names = number(image, section(image, link) + 0x18, 8);
    let size = number(image, section(image, t) + 0x20, 8);
    lemma_function_found(image, t, size / 24, names, name, 0, k);
}

} // verus!
