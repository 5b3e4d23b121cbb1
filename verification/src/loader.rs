//! A minimal ELF64 loader: parse the program headers, copy each `PT_LOAD` segment to its
//! physical address, and hand back a machine ready to run from the entry point (a0 = hart 0,
//! a1 = the device tree's address, or 0).

use vstd::prelude::*;
use vstd::string::*;
use vstd::utf8::encode_utf8;
use crate::cpu::Cpu;
use crate::machine::{fresh, Machine, MachineState};
use crate::mem::{law_writes_keep_ram_covered, MemState, Memory, RAM_BASE};
use crate::model::HartModel;
use crate::symbols::{address_of, field, function_addr, read_field};

verus! {

/// Default offset (from the RAM base) of the device tree blob: high, clear of the kernel
/// image and heap. Clamped down to fit a smaller machine.
pub const DTB_OFFSET: u64 = 0x0700_0000;

/// Where the blob lands when RAM is big enough for the full [`DTB_OFFSET`].
pub const DTB_ADDR: u64 = 0x8700_0000;

/// A page of headroom above the blob.
pub const DTB_MARGIN: u64 = 0x1000;

pub const ELF64_HEADER_SIZE: usize = 64;
pub const ELFCLASS64: u8 = 2;
pub const ELFDATA2LSB: u8 = 1;
pub const EM_RISCV: u64 = 243;
pub const PT_LOAD: u64 = 1;

// ELF64 header field offsets.
pub const E_MACHINE: usize = 0x12;
pub const E_ENTRY: usize = 0x18;
pub const E_PHOFF: usize = 0x20;
pub const E_PHENTSIZE: usize = 0x36;
pub const E_PHNUM: usize = 0x38;

// ELF64 program-header field offsets, from the header's start.
pub const P_TYPE: usize = 0x00;
pub const P_OFFSET: usize = 0x08;
pub const P_VADDR: usize = 0x10;
pub const P_PADDR: usize = 0x18;
pub const P_FILESZ: usize = 0x20;
pub const P_MEMSZ: usize = 0x28;

/// Why an image could not be loaded.
#[derive(Debug, Clone, Copy, PartialEq, Eq, Structural)]
pub enum ElfError {
    /// Not an ELF file (bad magic).
    BadMagic,
    /// Not the ELF64, little-endian, RISC-V flavour.
    Unsupported,
    /// The image is shorter than a field or segment it references.
    Truncated,
    /// A segment's physical address falls outside RAM.
    SegmentOutOfRange,
}

/// What an image's first bytes must be.
pub open spec fn magic() -> Seq<u8> {
    seq![0x7fu8, 0x45, 0x4c, 0x46]
}

/// What is wrong with an image's header, if anything is.
pub open spec fn header_error(image: Seq<u8>) -> Option<ElfError> {
    if !(image.len() >= 4 && image.take(4) == magic()) {
        Some(ElfError::BadMagic)
    } else if image.len() < ELF64_HEADER_SIZE {
        Some(ElfError::Truncated)
    } else if image[4] != ELFCLASS64 || image[5] != ELFDATA2LSB {
        Some(ElfError::Unsupported)
    } else if field(image, E_MACHINE as int, 2) != Some(EM_RISCV as int) {
        Some(ElfError::Unsupported)
    } else {
        None
    }
}

/// A `PT_LOAD` program header.
#[derive(Clone, Copy)]
pub struct Segment {
    pub offset: u64,
    pub vaddr: u64,
    pub paddr: u64,
    pub filesz: u64,
    pub memsz: u64,
}

impl Segment {
    /// Whether an address lies in the segment's virtual range.
    pub open spec fn covers(self, addr: u64) -> bool {
        self.vaddr <= addr && addr < (self.vaddr + self.memsz) % 0x1_0000_0000_0000_0000
    }

    /// Where a virtual address of the segment is loaded.
    pub open spec fn physical(self, addr: u64) -> u64 {
        ((addr - self.vaddr + self.paddr) % 0x1_0000_0000_0000_0000) as u64
    }
}

/// The program header at `base`: `Some(None)` for one that is not to be loaded, `None` where
/// the image is cut short.
pub open spec fn segment_at(image: Seq<u8>, base: int) -> Option<Option<Segment>> {
    match field(image, base + P_TYPE, 4) {
        None => None,
        Some(kind) => if kind != PT_LOAD {
            Some(None)
        } else {
            match (
                field(image, base + P_OFFSET, 8),
                field(image, base + P_VADDR, 8),
                field(image, base + P_PADDR, 8),
                field(image, base + P_FILESZ, 8),
                field(image, base + P_MEMSZ, 8),
            ) {
                (Some(offset), Some(vaddr), Some(paddr), Some(filesz), Some(memsz)) => Some(
                    Some(
                        Segment {
                            offset: offset as u64,
                            vaddr: vaddr as u64,
                            paddr: paddr as u64,
                            filesz: filesz as u64,
                            memsz: memsz as u64,
                        },
                    ),
                ),
                _ => None,
            }
        },
    }
}

/// RAM and the physical entry point, as far as they are known.
pub struct Loaded {
    pub ram: MemState,
    pub entry: Option<u64>,
}

/// Copy one segment, and translate the entry point if the segment covers it.
pub open spec fn segment_loaded(image: Seq<u8>, s: Segment, entry: u64, at: Loaded) -> Result<
    Loaded,
    ElfError,
> {
    if s.offset + s.filesz > image.len() {
        Err(ElfError::Truncated)
    } else {
        match at.ram.write(s.paddr, image.subrange(s.offset as int, s.offset + s.filesz)) {
            (Some(_), _) => Err(ElfError::SegmentOutOfRange),
            (None, ram) => Ok(
                Loaded {
                    ram,
                    entry: if s.covers(entry) {
                        Some(s.physical(entry))
                    } else {
                        at.entry
                    },
                },
            ),
        }
    }
}

/// Copy the segments of the program headers from the `i`th on.
pub open spec fn segments_loaded(
    image: Seq<u8>,
    phoff: int,
    entsize: int,
    count: int,
    entry: u64,
    at: Loaded,
    i: int,
) -> Result<Loaded, ElfError>
    decreases count - i,
{
    if i >= count {
        Ok(at)
    } else {
        match segment_at(image, phoff + i * entsize) {
            None => Err(ElfError::Truncated),
            Some(None) => segments_loaded(image, phoff, entsize, count, entry, at, i + 1),
            Some(Some(s)) => match segment_loaded(image, s, entry, at) {
                Err(e) => Err(e),
                Ok(next) => segments_loaded(image, phoff, entsize, count, entry, next, i + 1),
            },
        }
    }
}

/// RAM of `size` zero bytes.
pub open spec fn blank(size: nat) -> MemState {
    MemState { bytes: Seq::new(size, |i: int| 0u8), high_water: 0, extent: 0, scramble: None }
}

/// Where a blob of `len` bytes goes in a RAM of `ram_size`: near the top, but always within.
pub open spec fn dtb_address(ram_size: int, len: int) -> u64 {
    let room = ram_size - (len + DTB_MARGIN);
    if room >= DTB_OFFSET {
        DTB_ADDR
    } else if room > 0 {
        (RAM_BASE + room) as u64
    } else {
        RAM_BASE
    }
}

/// RAM as it is handed over: the device tree placed, if there is one, and the write mark
/// cleared, so that from here on it tells of the guest's own writes alone.
pub open spec fn handed_over(at: Loaded, entry: u64, ram_size: int, dtb: Option<Seq<u8>>) -> Result<
    (MemState, u64, Option<u64>),
    ElfError,
> {
    let pc = match at.entry {
        Some(pa) => pa,
        None => entry,
    };
    match dtb {
        None => Ok((MemState { high_water: 0, ..at.ram }, pc, None)),
        Some(blob) => {
            let addr = dtb_address(ram_size, blob.len() as int);
            match at.ram.write(addr, blob) {
                (Some(_), _) => Err(ElfError::SegmentOutOfRange),
                (None, ram) => Ok((MemState { high_water: 0, ..ram }, pc, Some(addr))),
            }
        },
    }
}

/// RAM with the image and the device tree in it, the address to start from, and the device
/// tree's address.
pub open spec fn memory_of(image: Seq<u8>, ram_size: nat, dtb: Option<Seq<u8>>) -> Result<
    (MemState, u64, Option<u64>),
    ElfError,
> {
    match header_error(image) {
        Some(e) => Err(e),
        None => {
            let entry = field(image, E_ENTRY as int, 8)->0 as u64;
            match segments_loaded(
                image,
                field(image, E_PHOFF as int, 8)->0,
                field(image, E_PHENTSIZE as int, 2)->0,
                field(image, E_PHNUM as int, 2)->0,
                entry,
                Loaded { ram: blank(ram_size), entry: None },
                0,
            ) {
                Err(e) => Err(e),
                Ok(at) => handed_over(at, entry, ram_size as int, dtb),
            }
        },
    }
}

/// The bytes of an optional blob.
pub open spec fn blob_of(dtb: Option<&[u8]>) -> Option<Seq<u8>> {
    match dtb {
        Some(b) => Some(b@),
        None => None,
    }
}

/// A hart positioned at `pc`, with the device tree's address in a1.
pub open spec fn booted(h: HartModel, pc: u64, dtb: Option<u64>) -> HartModel {
    match dtb {
        Some(addr) => h.with_pc(pc).with_reg(11, addr),
        None => h.with_pc(pc),
    }
}

/// Check that an image is one that can be loaded.
fn validate_header(image: &[u8]) -> (r: Result<(), ElfError>)
    ensures
        r == match header_error(image@) {
            Some(e) => Err::<(), ElfError>(e),
            None => Ok::<(), ElfError>(()),
        },
{
    if !(image.len() >= 4 && image[0] == 0x7f && image[1] == 0x45 && image[2] == 0x4c && image[3]
        == 0x46) {
        proof {
            if image@.len() >= 4 && image@.take(4) == magic() {
                assert(image@.take(4)[0] == 0x7f && image@.take(4)[1] == 0x45 && image@.take(4)[2]
                    == 0x4c && image@.take(4)[3] == 0x46);
            }
        }
        return Err(ElfError::BadMagic);
    }
    proof {
        assert(image@.take(4) =~= magic());
    }
    if image.len() < ELF64_HEADER_SIZE {
        return Err(ElfError::Truncated);
    }
    if image[4] != ELFCLASS64 || image[5] != ELFDATA2LSB {
        return Err(ElfError::Unsupported);
    }
    match read_field(image, E_MACHINE as u128, 2) {
        Some(machine) if machine == EM_RISCV => Ok(()),
        _ => Err(ElfError::Unsupported),
    }
}

/// Read the program header at `base`.
fn read_segment(image: &[u8], base: u128) -> (r: Option<Option<Segment>>)
    requires
        base <= 0x2_0000_0000_0000_0000,
    ensures
        r == segment_at(image@, base as int),
{
    match read_field(image, base + P_TYPE as u128, 4) {
        None => None,
        Some(kind) => if kind != PT_LOAD {
            Some(None)
        } else {
            match (
                read_field(image, base + P_OFFSET as u128, 8),
                read_field(image, base + P_VADDR as u128, 8),
                read_field(image, base + P_PADDR as u128, 8),
                read_field(image, base + P_FILESZ as u128, 8),
                read_field(image, base + P_MEMSZ as u128, 8),
            ) {
                (Some(offset), Some(vaddr), Some(paddr), Some(filesz), Some(memsz)) => Some(
                    Some(Segment { offset, vaddr, paddr, filesz, memsz }),
                ),
                _ => None,
            }
        },
    }
}

/// Copy one segment into RAM; what comes back is the entry's physical address, if the segment
/// covers it.
fn load_segment(image: &[u8], s: Segment, entry: u64, known: Option<u64>, mem: &mut Memory) -> (r:
    Result<Option<u64>, ElfError>)
    ensures
        match segment_loaded(image@, s, entry, (Loaded { ram: old(mem)@, entry: known })) {
            Ok(next) => r == Ok::<Option<u64>, ElfError>(next.entry) && final(mem)@ == next.ram
                && (old(mem)@.covered() ==> next.ram.covered()),
            Err(e) => r == Err::<Option<u64>, ElfError>(e),
        },
{
    let end: u128 = s.offset as u128 + s.filesz as u128;
    if end > image.len() as u128 {
        return Err(ElfError::Truncated);
    }
    let bytes: &[u8] = vstd::slice::slice_subrange(image, s.offset as usize, end as usize);
    proof {
        if mem@.covered() {
            law_writes_keep_ram_covered(mem@, s.paddr, bytes@);
        }
    }
    match mem.write_bytes(s.paddr, bytes) {
        Err(_) => {
            return Err(ElfError::SegmentOutOfRange);
        },
        Ok(()) => {},
    }
    if s.vaddr <= entry && entry < s.vaddr.wrapping_add(s.memsz) {
        Ok(Some((entry - s.vaddr).wrapping_add(s.paddr)))
    } else {
        Ok(known)
    }
}

/// Place the device tree blob; what comes back is where it went.
fn place_dtb(mem: &mut Memory, ram_size: usize, blob: &[u8]) -> (r: Result<u64, ElfError>)
    ensures
        match old(mem)@.write(dtb_address(ram_size as int, blob@.len() as int), blob@) {
            (Some(_), _) => r == Err::<u64, ElfError>(ElfError::SegmentOutOfRange),
            (None, ram) => r == Ok::<u64, ElfError>(
                dtb_address(ram_size as int, blob@.len() as int),
            ) && final(mem)@ == ram && (old(mem)@.covered() ==> ram.covered()),
        },
{
    let needed: u128 = blob.len() as u128 + DTB_MARGIN as u128;
    let addr: u64 = if ram_size as u128 >= needed + DTB_OFFSET as u128 {
        DTB_ADDR
    } else if ram_size as u128 > needed {
        RAM_BASE + (ram_size as u128 - needed) as u64
    } else {
        RAM_BASE
    };
    proof {
        if mem@.covered() {
            law_writes_keep_ram_covered(mem@, addr, blob@);
        }
    }
    match mem.write_bytes(addr, blob) {
        Err(_) => Err(ElfError::SegmentOutOfRange),
        Ok(()) => Ok(addr),
    }
}

/// Parse the image and lay out RAM: copy each segment, place the device tree (if any), and
/// return `(memory, entry_pc, dtb_addr)`. The entry is translated through its segment's
/// virtual-to-physical mapping (higher-half kernels boot at the physical entry), falling back
/// to the raw entry if no segment covers it.
pub fn load_memory(image: &[u8], ram_size: usize, dtb: Option<&[u8]>) -> (r: Result<
    (Memory, u64, Option<u64>),
    ElfError,
>)
    ensures
        match memory_of(image@, ram_size as nat, blob_of(dtb)) {
            Err(e) => r matches Err(f) && f == e,
            Ok((ram, pc, addr)) => r matches Ok(l) && l.0@ == ram && l.1 == pc && l.2 == addr
                && ram.covered(),
        },
{
    match validate_header(image) {
        Err(e) => {
            return Err(e);
        },
        Ok(()) => {},
    }
    let (entry, phoff, entsize, count): (u64, u64, u64, u64) = match (
        read_field(image, E_ENTRY as u128, 8),
        read_field(image, E_PHOFF as u128, 8),
        read_field(image, E_PHENTSIZE as u128, 2),
        read_field(image, E_PHNUM as u128, 2),
    ) {
        (Some(entry), Some(phoff), Some(entsize), Some(count)) => (entry, phoff, entsize, count),
        _ => {
            return Err(ElfError::Truncated);
        },
    };
    let mut mem: Memory = Memory::new(ram_size);
    let mut entry_pa: Option<u64> = None;
    let ghost goal = segments_loaded(
        image@,
        phoff as int,
        entsize as int,
        count as int,
        entry,
        Loaded { ram: blank(ram_size as nat), entry: None },
        0,
    );
    proof {
        assert(mem@.bytes =~= blank(ram_size as nat).bytes);
    }
    let mut i: u64 = 0;
    while i < count
        invariant
            i <= count,
            mem@.covered(),
            entsize < 0x1_0000,
            count < 0x1_0000,
            goal == segments_loaded(
                image@,
                phoff as int,
                entsize as int,
                count as int,
                entry,
                (Loaded { ram: mem@, entry: entry_pa }),
                i as int,
            ),
            header_error(image@) is None,
            goal is Err ==> memory_of(image@, ram_size as nat, blob_of(dtb)) == Err::<
                (MemState, u64, Option<u64>),
                ElfError,
            >(goal->Err_0),
        decreases count - i,
    {
        proof {
            assert(0 <= i * entsize < 0x1_0000_0000) by (nonlinear_arith)
                requires
                    0 <= i < 0x1_0000,
                    0 <= entsize < 0x1_0000,
            ;
        }
        let base: u128 = phoff as u128 + i as u128 * entsize as u128;
        match read_segment(image, base) {
            None => {
                return Err(ElfError::Truncated);
            },
            Some(None) => {},
            Some(Some(s)) => match load_segment(image, s, entry, entry_pa, &mut mem) {
                Err(e) => {
                    return Err(e);
                },
                Ok(known) => {
                    entry_pa = known;
                },
            },
        }
        i += 1;
    }
    let dtb_addr: Option<u64> = match dtb {
        Some(blob) => match place_dtb(&mut mem, ram_size, blob) {
            Err(e) => {
                return Err(e);
            },
            Ok(addr) => Some(addr),
        },
        None => None,
    };
    mem.reset_high_water();
    let pc: u64 = match entry_pa {
        Some(pa) => pa,
        None => entry,
    };
    Ok((mem, pc, dtb_addr))
}

/// Load an ELF64 RISC-V image into a fresh machine of `ram_size` bytes and return a
/// single-hart `Cpu` positioned at the entry point. If a device tree is given, it is placed
/// in RAM and its address handed to the kernel in `a1`, as firmware would.
pub fn load(image: &[u8], ram_size: usize, dtb: Option<&[u8]>) -> (r: Result<Cpu, ElfError>)
    ensures
        match memory_of(image@, ram_size as nat, blob_of(dtb)) {
            Err(e) => r matches Err(f) && f == e,
            Ok((ram, pc, addr)) => r matches Ok(cpu) && cpu.wf() && cpu.hart@ == booted(
                HartModel::reset(),
                pc,
                addr,
            ) && cpu.bus@ == crate::bus::fresh(ram),
        },
{
    match load_memory(image, ram_size, dtb) {
        Err(e) => Err(e),
        Ok((mem, entry_pc, dtb_addr)) => {
            let mut cpu: Cpu = Cpu::new(mem);
            cpu.set_pc(entry_pc);
            match dtb_addr {
                Some(addr) => {
                    cpu.set_reg(11, addr);
                },
                None => {},
            }
            Ok(cpu)
        },
    }
}

/// The machine that [`load_machine`] gives for RAM laid out as told.
pub open spec fn machine_of(
    image: Seq<u8>,
    ram: MemState,
    pc: u64,
    dtb: Option<u64>,
    hart_count: nat,
) -> MachineState {
    let m = fresh(ram, hart_count);
    MachineState {
        harts: m.harts.update(0, booted(m.harts[0], pc, dtb)),
        memset_pc: address_of(image, encode_utf8("memset"@)),
        memcpy_pc: address_of(image, encode_utf8("memcpy"@)),
        ..m
    }
}

/// Like [`load`], but into a [`Machine`] with `hart_count` harts. Hart 0 boots at the entry
/// with `a1` = device tree; the others start parked until the kernel starts them. The entry
/// points of `memset` and `memcpy` are looked up in the symbol table, so that the native-op
/// helper can intercept them.
pub fn load_machine(image: &[u8], ram_size: usize, dtb: Option<&[u8]>, hart_count: usize) -> (r:
    Result<Machine, ElfError>)
    requires
        hart_count > 0,
    ensures
        match memory_of(image@, ram_size as nat, blob_of(dtb)) {
            Err(e) => r matches Err(f) && f == e,
            Ok((ram, pc, addr)) => r matches Ok(m) && m.wf() && m@ == machine_of(
                image@,
                ram,
                pc,
                addr,
                hart_count as nat,
            ),
        },
{
    match load_memory(image, ram_size, dtb) {
        Err(e) => Err(e),
        Ok((mem, entry_pc, dtb_addr)) => {
            let mut machine: Machine = Machine::new(mem, hart_count);
            let ghost start = machine@;
            machine.set_pc(0, entry_pc);
            match dtb_addr {
                Some(addr) => {
                    machine.set_reg(0, 11, addr);
                },
                None => {},
            }
            proof {
                assert(machine@.harts =~= start.harts.update(
                    0,
                    booted(start.harts[0], entry_pc, dtb_addr),
                ));
            }
            machine.set_native_op_pcs(
                function_addr(image, "memset"),
                function_addr(image, "memcpy"),
            );
            Ok(machine)
        },
    }
}

/// The device tree is placed within RAM, with its headroom, wherever both fit.
pub proof fn law_the_device_tree_lies_within_ram(ram_size: nat, len: nat)
    requires
        len + DTB_MARGIN <= ram_size,
    ensures
        RAM_BASE <= dtb_address(ram_size as int, len as int),
        dtb_address(ram_size as int, len as int) + len + DTB_MARGIN <= RAM_BASE + ram_size,
{
}

/// A segment that was loaded is in RAM at its physical address, byte for byte, and the rest
/// of RAM is as it was.
pub proof fn law_a_segment_is_copied(image: Seq<u8>, s: Segment, entry: u64, at: Loaded)
    requires
        at.ram.scramble is None,
        segment_loaded(image, s, entry, at) is Ok,
    ensures
        ({
            let ram = segment_loaded(image, s, entry, at)->Ok_0.ram;
            let base = s.paddr - RAM_BASE;
            &&& 0 <= base && base + s.filesz <= ram.bytes.len()
            &&& ram.bytes.len() == at.ram.bytes.len()
            &&& ram.bytes.subrange(base, base + s.filesz) == image.subrange(
                s.offset as int,
                s.offset + s.filesz,
            )
            &&& forall|i: int|
                0 <= i < ram.bytes.len() && !(base <= i < base + s.filesz) ==> (
                #[trigger] ram.bytes[i]) == at.ram.bytes[i]
        }),
{
    let part = image.subrange(s.offset as int, s.offset + s.filesz);
    let base = s.paddr - RAM_BASE;
    if base >= 0 {
        crate::mem::lemma_place_bounds(at.ram, base);
    }
    let ram = segment_loaded(image, s, entry, at)->Ok_0.ram;
    assert(ram.bytes == crate::bytes::overwrite(at.ram.bytes, base, part));
    assert(ram.bytes.subrange(base, base + s.filesz) =~= part);
}

/// Loading leaves no trace in the write mark, so that it tells of the guest's own writes.
pub proof fn law_the_write_mark_starts_clear(image: Seq<u8>, ram_size: nat, dtb: Option<Seq<u8>>)
    ensures
        match memory_of(image, ram_size, dtb) {
            Ok((ram, _, _)) => ram.high_water == 0,
            Err(_) => true,
        },
{
}

} // verus!
