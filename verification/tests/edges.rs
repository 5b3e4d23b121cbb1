//! Edges: each error with an input that gives it, and formulas at exact values.

use snemu::alu::{AluOp, Cond};
use snemu::audio::reconstruct_sample_rate;
use snemu::bench::{BenchReport, Sample, StartupMark};
use snemu::budget::{run, Status};
use snemu::bus::Bus;
use snemu::cpu::{memop_charge, Cpu, StepError};
use snemu::csr::addr;
use snemu::decode::{expand, is_compressed, Instr};
use snemu::dtb::set_bootargs;
use snemu::fp::{compare, min_max_d, min_max_s, nan_box, sign_inject, to_signed, to_unsigned, Rounding};
use snemu::framebuffer::to_minifb_buffer;
use snemu::loader::{load, load_machine, load_memory, ElfError, DTB_ADDR};
use snemu::machine::Machine;
use snemu::mem::{scramble_multiplier, BusError, Memory, PAGE, RAM_BASE};
use snemu::mmu::{pte, translate, Access, Fault};
use snemu::names::Names;
use snemu::protocol::StringId;
use snemu::ramfs::{FsError, InodeId, NodeKind, RamFs};
use snemu::run::{per_fire, picture, redraw_due, run_steps, steps_to_take, WINDOW_UPDATE_INTERVAL};
use snemu::shell::Handle;
use snemu::symbols::function_addr;
use snemu::text::describe_step_error;
use snemu::uart::Uart;

/// An ELF with the given program headers `(kind, offset, vaddr, paddr, filesz, memsz)`, and
/// `tail` after them.
fn elf(entry: u64, headers: &[(u32, u64, u64, u64, u64, u64)], tail: &[u8]) -> Vec<u8> {
    let mut img = vec![0u8; 64];
    img[0..4].copy_from_slice(&[0x7f, b'E', b'L', b'F']);
    img[4] = 2;
    img[5] = 1;
    img[0x12..0x14].copy_from_slice(&243u16.to_le_bytes());
    img[0x18..0x20].copy_from_slice(&entry.to_le_bytes());
    img[0x20..0x28].copy_from_slice(&64u64.to_le_bytes());
    img[0x36..0x38].copy_from_slice(&56u16.to_le_bytes());
    img[0x38..0x3a].copy_from_slice(&(headers.len() as u16).to_le_bytes());
    for &(kind, offset, vaddr, paddr, filesz, memsz) in headers {
        let mut ph = vec![0u8; 56];
        ph[0..4].copy_from_slice(&kind.to_le_bytes());
        ph[0x08..0x10].copy_from_slice(&offset.to_le_bytes());
        ph[0x10..0x18].copy_from_slice(&vaddr.to_le_bytes());
        ph[0x18..0x20].copy_from_slice(&paddr.to_le_bytes());
        ph[0x20..0x28].copy_from_slice(&filesz.to_le_bytes());
        ph[0x28..0x30].copy_from_slice(&memsz.to_le_bytes());
        img.extend_from_slice(&ph);
    }
    img.extend_from_slice(tail);
    img
}

#[test]
fn an_image_cut_short_is_truncated() {
    let img = elf(RAM_BASE, &[(1, 120, RAM_BASE, RAM_BASE, 8, 8)], &[1, 2, 3, 4]);
    assert!(matches!(load(&img, 0x1000, None), Err(ElfError::Truncated)), "segment past the end");
    let img = elf(RAM_BASE, &[(1, 120, RAM_BASE, RAM_BASE, 0, 0)], &[]);
    assert!(matches!(load(&img[..100], 0x1000, None), Err(ElfError::Truncated)), "header cut");
    assert!(matches!(load(&img[..40], 0x1000, None), Err(ElfError::Truncated)), "no header");
    let mut far = img.clone();
    far[0x20..0x28].copy_from_slice(&u64::MAX.to_le_bytes());
    assert!(matches!(load(&far, 0x1000, None), Err(ElfError::Truncated)), "headers far away");
}

#[test]
fn a_segment_outside_ram_is_refused() {
    let img = elf(RAM_BASE, &[(1, 120, RAM_BASE, RAM_BASE - 4, 4, 4)], &[1, 2, 3, 4]);
    assert!(matches!(load(&img, 0x1000, None), Err(ElfError::SegmentOutOfRange)));
    let img = elf(RAM_BASE, &[(1, 120, RAM_BASE, RAM_BASE + 0xffe, 4, 4)], &[1, 2, 3, 4]);
    assert!(matches!(load(&img, 0x1000, None), Err(ElfError::SegmentOutOfRange)));
    assert!(matches!(
        load(&elf(RAM_BASE, &[], &[]), 0x10, Some(&[0; 0x20])),
        Err(ElfError::SegmentOutOfRange)
    ));
}

#[test]
fn a_32_bit_or_big_endian_image_is_unsupported() {
    for at in [4, 5] {
        let mut img = elf(RAM_BASE, &[], &[]);
        img[at] = 3;
        assert!(matches!(load(&img, 0x1000, None), Err(ElfError::Unsupported)));
    }
}

#[test]
fn segments_that_are_not_loaded_are_passed_over() {
    let img = elf(
        RAM_BASE + 0x20,
        &[(2, u64::MAX, 0, 0, u64::MAX, 0), (1, 176, RAM_BASE, RAM_BASE, 4, 4)],
        &[9, 8, 7, 6],
    );
    let (mem, pc, dtb) = load_memory(&img, 0x1000, None).unwrap();
    assert_eq!(mem.read_u32(RAM_BASE).unwrap(), 0x0607_0809);
    assert_eq!(pc, RAM_BASE + 0x20, "no segment covers the entry: it stands as it is");
    assert_eq!(dtb, None);
}

#[test]
fn the_device_tree_is_placed_within_ram_and_named_in_a1() {
    let img = elf(RAM_BASE, &[], &[]);
    let blob = [0xd0u8; 0x100];
    let cpu = load(&img, 0x4000, Some(&blob)).unwrap();
    assert_eq!(cpu.reg(11), RAM_BASE + 0x4000 - 0x1000 - 0x100);
    assert_eq!(cpu.reg(10), 0);
    let (mem, _, at) = load_memory(&img, 128 * 1024 * 1024, Some(&blob)).unwrap();
    assert_eq!(at, Some(DTB_ADDR));
    assert_eq!(mem.read_u8(DTB_ADDR + 0xff).unwrap(), 0xd0);
    let (_, _, at) = load_memory(&img, 0x1000, Some(&blob)).unwrap();
    assert_eq!(at, Some(RAM_BASE), "no room for the margin");
}

#[test]
fn the_write_mark_counts_the_guests_writes_only() {
    let img = elf(RAM_BASE, &[(1, 120, RAM_BASE, RAM_BASE, 4, 4)], &[0x23, 0x30, 0x00, 0x10]);
    let mut m = load_machine(&img, 0x4000, Some(&[1, 2, 3]), 1).unwrap();
    assert_eq!(m.ram_high_water(), 0);
    m.write_ram(RAM_BASE + 0x40, &[1, 2]).unwrap();
    assert_eq!(m.ram_high_water(), 0x42);
}

/// An ELF whose symbol table holds `(name, info, value)`.
fn with_symbols(symbols: &[(&str, u8, u64)]) -> Vec<u8> {
    let mut img = elf(RAM_BASE, &[], &[]);
    let mut names = vec![0u8];
    let mut table = Vec::new();
    for &(name, info, value) in symbols {
        table.extend_from_slice(&(names.len() as u32).to_le_bytes());
        table.push(info);
        table.extend_from_slice(&[0, 1, 0]);
        table.extend_from_slice(&value.to_le_bytes());
        table.extend_from_slice(&[0; 8]);
        names.extend_from_slice(name.as_bytes());
        names.push(0);
    }
    let table_at = img.len() as u64;
    let table_len = table.len() as u64;
    img.extend_from_slice(&table);
    let names_at = img.len() as u64;
    img.extend_from_slice(&names);
    let shoff = img.len() as u64;
    for (kind, at, len, link) in
        [(0u32, 0u64, 0u64, 0u32), (2, table_at, table_len, 2), (3, names_at, names.len() as u64, 0)]
    {
        let mut sh = vec![0u8; 64];
        sh[4..8].copy_from_slice(&kind.to_le_bytes());
        sh[0x18..0x20].copy_from_slice(&at.to_le_bytes());
        sh[0x20..0x28].copy_from_slice(&len.to_le_bytes());
        sh[0x28..0x2c].copy_from_slice(&link.to_le_bytes());
        img.extend_from_slice(&sh);
    }
    img[0x28..0x30].copy_from_slice(&shoff.to_le_bytes());
    img[0x3a..0x3c].copy_from_slice(&64u16.to_le_bytes());
    img[0x3c..0x3e].copy_from_slice(&3u16.to_le_bytes());
    img
}

#[test]
fn functions_are_found_by_name() {
    let img = with_symbols(&[("memset", 0x11, 5), ("memset", 0x12, 0x8020_0040), ("mem", 2, 7)]);
    assert_eq!(function_addr(&img, "memset"), Some(0x8020_0040), "the object is passed over");
    assert_eq!(function_addr(&img, "mem"), Some(7));
    assert_eq!(function_addr(&img, "memcpy"), None);
    assert_eq!(function_addr(&elf(0, &[], &[]), "memset"), None, "a stripped image");
    assert_eq!(function_addr(&[], "memset"), None);
}

#[test]
fn a_fetch_outside_ram_is_a_bus_error() {
    let mut cpu = Cpu::new(Memory::new(0x1000));
    cpu.set_pc(0x10);
    assert_eq!(cpu.step(), Err(StepError::Bus(BusError::OutOfRange { addr: 0x10 })));
}

#[test]
fn step_errors_are_described() {
    assert_eq!(
        describe_step_error(StepError::Bus(BusError::OutOfRange { addr: 16 })),
        format!("{:?}", StepError::Bus(BusError::OutOfRange { addr: 16 }))
    );
    for e in [
        StepError::Unimplemented { pc: 0x8000_0000, instr: 7 },
        StepError::UnknownCsr { pc: 3, addr: 0xbc0 },
        StepError::PageFault { va: u64::MAX },
    ] {
        assert_eq!(describe_step_error(e), format!("{e:?}"));
    }
}

#[test]
fn the_charge_of_a_memory_op_counts_words_and_bytes() {
    assert_eq!(memop_charge(0), 24);
    assert_eq!(memop_charge(7), 52);
    assert_eq!(memop_charge(8), 27);
    assert_eq!(memop_charge(4096), 1560);
}

#[test]
fn the_all_zero_half_word_is_no_instruction() {
    assert!(is_compressed(0));
    assert_eq!(expand(0), None);
    assert_eq!(expand(0x8000), None, "nor is a reserved one");
    assert_eq!(Instr(expand(0x0aa8).unwrap()).rd(), 10);
}

#[test]
fn alu_operations_at_their_edges() {
    assert_eq!(AluOp::Sra.apply(1 << 63, 63), u64::MAX);
    assert_eq!(AluOp::Slt.apply(u64::MAX, 0), 1);
    assert_eq!(AluOp::Sltu.apply(u64::MAX, 0), 0);
    assert_eq!(AluOp::Add.apply(u64::MAX, 1), 0);
    assert!(Cond::Lt.eval(u64::MAX, 0));
    assert!(!Cond::Ltu.eval(u64::MAX, 0));
}

#[test]
fn translation_needs_each_permission() {
    let mut mem = Memory::new(0x4000);
    let root = RAM_BASE + 0x1000;
    let satp = (8u64 << 60) | (root >> 12);
    let leaf = ((RAM_BASE >> 12) << 10) | pte::V | pte::R;
    mem.write_u64(root + 4 * 8, leaf).unwrap();
    let va = 0x1_0000_0123;
    assert_eq!(translate(0, va, Access::Store, &mem, false, false), Ok(va), "no translation");
    assert_eq!(translate(satp, va, Access::Load, &mem, false, false), Ok(RAM_BASE + 0x123));
    assert_eq!(translate(satp, va, Access::Store, &mem, false, false), Err(Fault { va }));
    assert_eq!(translate(satp, va, Access::Fetch, &mem, false, false), Err(Fault { va }));
    assert_eq!(translate(satp, va, Access::Load, &mem, true, false), Err(Fault { va }));
    mem.write_u64(root + 4 * 8, leaf | pte::U).unwrap();
    assert_eq!(translate(satp, va, Access::Load, &mem, true, false), Ok(RAM_BASE + 0x123));
    assert_eq!(translate(satp, va, Access::Load, &mem, false, false), Err(Fault { va }));
    assert_eq!(translate(satp, va, Access::Load, &mem, false, true), Ok(RAM_BASE + 0x123));
}

#[test]
fn the_uart_receives_and_transmits() {
    let mut uart = Uart::new();
    assert_eq!(uart.read(5), 0x60, "ready to send, nothing received");
    uart.push_input(b"ok");
    assert_eq!(uart.read(5), 0x61);
    assert_eq!(uart.read(0), b'o');
    assert_eq!(uart.read(0), b'k');
    assert_eq!(uart.read(0), 0);
    uart.write(0, b'!');
    assert_eq!(uart.output(), b"!");
}

#[test]
fn a_write_that_does_not_fit_ram_is_reported() {
    let mut m = Machine::new(Memory::new(0x1000), 1);
    let e = m.write_ram(RAM_BASE + 0xfff, &[1, 2]).unwrap_err();
    assert_eq!(e, "write_ram: OutOfRange { addr: 2147487743 }");
}

#[test]
fn running_until_a_marker_counts_the_steps_or_says_why_not() {
    let mut mem = Memory::new(0x1000);
    for (i, word) in [0x1000_0137u32, 0x0410_0093, 0x0011_0023, 0x0000_006f].iter().enumerate() {
        mem.write_u32(RAM_BASE + 4 * i as u64, *word).unwrap();
    }
    let mut m = Machine::new(mem, 1);
    assert_eq!(m.run_until_uart(b"A", 100), Ok(3));
    assert!(m.run_until_uart(b"never", 10).is_err());
}

#[test]
fn scrambling_needs_a_unit_of_the_frame_count() {
    assert_eq!(scramble_multiplier(2), None, "nothing to scramble");
    for frames in [3u64, 16, 64, 1000] {
        let k = scramble_multiplier(frames).unwrap();
        let mut seen: Vec<u64> =
            (0..frames).map(|f| (f as u128 * k as u128 % (1u128 << 64)) as u64 % frames).collect();
        seen.sort_unstable();
        seen.dedup();
        assert_eq!(seen.len() as u64, frames);
    }
    assert_eq!(PAGE, 4096);
}

#[test]
fn rates_round_to_the_nearest() {
    assert_eq!(reconstruct_sample_rate(&[0, 3], 20), Some(7));
    assert_eq!(reconstruct_sample_rate(&[5, 5 + 1_000_000], 44_100_000_000), Some(44_100));
}

#[test]
fn window_pixels_are_packed_without_the_pad() {
    assert_eq!(to_minifb_buffer(&[0x40, 0x20, 0x10, 0xff], 1, 1, 4), vec![0x0010_2040]);
}

#[test]
fn disagreeing_runs_are_named() {
    let s = |instret: u64, startup: Option<u64>| Sample {
        instret,
        wall: 10,
        startup: startup.map(|instret| StartupMark { instret, wall: 3 }),
    };
    assert_eq!(BenchReport::from_samples(&[]).unwrap_err(), "no samples to report");
    assert_eq!(
        BenchReport::from_samples(&[s(10, None), s(10, None), s(42, None)]).unwrap_err(),
        "determinism violation: instret varied across runs (10 vs 42) — the same workload+seed \
         must retire the same instruction count"
    );
    assert_eq!(
        BenchReport::from_samples(&[s(10, None), s(10, Some(1))]).unwrap_err(),
        "determinism violation: the workload (instret 10) reached first-telemetry in 1 of 2 \
         runs — deterministic runs must all reach it or none"
    );
    assert_eq!(
        BenchReport::from_samples(&[s(10, Some(1)), s(10, Some(2))]).unwrap_err(),
        "determinism violation: startup instret varied across runs (1 vs 2) — first-telemetry \
         must land at a fixed instret"
    );
}

#[test]
fn conversions_round_then_clamp() {
    let r = |v: f64, m: Rounding| to_signed(v.to_bits(), m, 64);
    for (v, even, zero) in [
        (0.5, 0, 0),
        (1.5, 2, 1),
        (2.5, 2, 2),
        (-2.5, -2, -2),
        (-3.5, -4, -3),
        (4503599627370495.5, 4503599627370496, 4503599627370495),
        (9.0e15, 9_000_000_000_000_000, 9_000_000_000_000_000),
        (-9223372036854775808.0, i64::MIN, i64::MIN),
        (9223372036854774784.0, 9223372036854774784, 9223372036854774784),
        (f64::MIN_POSITIVE, 0, 0),
    ] {
        assert_eq!(r(v, Rounding::NearestEven), even, "{v}");
        assert_eq!(r(v, Rounding::TowardZero), zero, "{v}");
    }
    assert_eq!(to_unsigned(f64::INFINITY.to_bits(), Rounding::NearestEven, 64), u64::MAX);
    assert_eq!(to_unsigned(255.5f64.to_bits(), Rounding::NearestEven, 8), 255);
    assert_eq!(to_unsigned((-0.4f64).to_bits(), Rounding::NearestEven, 8), 0);
}

#[test]
fn the_zeros_are_ordered_and_nans_are_passed_over() {
    let (p, n) = (0.0f64.to_bits(), (-0.0f64).to_bits());
    for (a, b) in [(p, n), (n, p)] {
        assert_eq!(min_max_d(a, b, false), n);
        assert_eq!(min_max_d(a, b, true), p);
        assert_eq!(compare(a, b, 2), Some(true));
        assert_eq!(compare(a, b, 1), Some(false));
    }
    let nan = f64::NAN.to_bits();
    assert_eq!(min_max_d(nan, 1.5f64.to_bits(), true), 1.5f64.to_bits());
    assert_eq!(min_max_d((-2.0f64).to_bits(), 1.5f64.to_bits(), false), (-2.0f64).to_bits());
    assert_eq!(compare(nan, nan, 2), Some(false));
    assert_eq!(compare(nan, nan, 3), None);
    assert_eq!(
        min_max_s(1.0f32.to_bits(), 2.0f32.to_bits(), true),
        nan_box(2.0f32.to_bits())
    );
    let sign = 1u64 << 63;
    assert_eq!(sign_inject(1.0f64.to_bits(), sign, 0, sign), Some((-1.0f64).to_bits()));
    assert_eq!(sign_inject(1.0f64.to_bits(), sign, 1, sign), Some(1.0f64.to_bits()));
    assert_eq!(sign_inject((-1.0f64).to_bits(), sign, 2, sign), Some(1.0f64.to_bits()));
    assert_eq!(sign_inject(0, 0, 3, sign), None);
}

#[test]
fn a_tree_whose_blocks_lie_outside_it_is_refused() {
    let mut dtb = vec![0u8; 40];
    dtb[0..4].copy_from_slice(&0xd00d_feedu32.to_be_bytes());
    assert_eq!(set_bootargs(&dtb, "x"), None, "no node");
    dtb[8..12].copy_from_slice(&1000u32.to_be_bytes());
    assert_eq!(set_bootargs(&dtb, "x"), None, "structure past the end");
}

#[test]
fn names_are_replaced_as_they_are_registered() {
    let mut names = Names::new();
    assert_eq!(names.resolve(StringId(1)), None);
    names.register(StringId(1), "a");
    names.register(StringId(1), "b");
    assert_eq!(names.resolve(StringId(1)).as_deref(), Some("b"));
}

#[test]
fn filesystem_errors_say_what_was_wrong() {
    let mut fs = RamFs::new();
    let root = fs.root();
    let file = fs.create(root, "f", NodeKind::File).unwrap();
    let gone = InodeId::new(7);
    let mut buf = [1u8; 2];
    assert_eq!(fs.read(root, 0, &mut buf), Err(FsError::IsADir));
    assert_eq!(fs.read(gone, 0, &mut buf), Err(FsError::NotFound));
    assert_eq!(fs.read(file, 9, &mut buf), Ok(0));
    assert_eq!(buf, [1, 1]);
    assert_eq!(fs.write(root, 0, b"x"), Err(FsError::IsADir));
    assert_eq!(fs.write(gone, 0, b"x"), Err(FsError::NotFound));
    assert_eq!(fs.truncate(gone, 0), Err(FsError::NotFound));
    assert_eq!(fs.lookup(file, "x"), Err(FsError::NotADir));
    assert_eq!(fs.lookup(gone, "x"), Err(FsError::NotFound));
    assert_eq!(fs.stat(gone), Err(FsError::NotFound));
    assert_eq!(fs.remove(file, "x"), Err(FsError::NotADir));
    assert_eq!(fs.readdir(file).unwrap_err(), FsError::NotADir);
    assert_eq!(fs.create(gone, "x", NodeKind::Dir), Err(FsError::NotFound));
}

#[test]
fn directories_list_their_names_in_order() {
    let fs = RamFs::seeded(&[("b", b"1"), ("//a//x", b"2"), ("ab", b"3"), ("b", b"4")]);
    let names: Vec<String> =
        fs.readdir(fs.root()).unwrap().into_iter().map(|e| e.name).collect();
    assert_eq!(names, ["a", "ab", "b"]);
    let mut buf = [0u8; 1];
    fs.read(fs.lookup(fs.root(), "b").unwrap(), 0, &mut buf).unwrap();
    assert_eq!(&buf, b"4", "the later file stands");
}

#[test]
fn a_write_past_the_end_fills_with_zeros() {
    let mut fs = RamFs::new();
    let f = fs.create(fs.root(), "f", NodeKind::File).unwrap();
    assert_eq!(fs.write(f, 3, b"x"), Ok(1));
    let mut buf = [9u8; 4];
    assert_eq!(fs.read(f, 0, &mut buf), Ok(4));
    assert_eq!(&buf, b"\0\0\0x");
}

#[test]
fn a_run_stops_at_its_first_error() {
    let mut mem = Memory::new(0x1000);
    mem.write_u32(RAM_BASE, 0x0010_0093).unwrap();
    let mut m = Machine::new(mem, 1);
    let (done, error) = run_steps(&mut m, 10);
    assert_eq!(done, 1);
    assert_eq!(error, Some(StepError::Unimplemented { pc: RAM_BASE + 4, instr: 0 }));
    let mut m = Machine::new(Memory::new(0x1000), 1);
    assert!(matches!(run(&mut m, 5), Status::Trapped { instret: 0, .. }));
}

#[test]
fn a_batch_run_is_cut_where_the_window_is_due() {
    assert_eq!(steps_to_take(0, 500_000, false), 500_000);
    assert_eq!(steps_to_take(0, 500_000, true), WINDOW_UPDATE_INTERVAL);
    assert_eq!(steps_to_take(150_000, 500_000, true), 50_000);
    assert_eq!(steps_to_take(400_000, 500_000, true), 100_000);
    assert_eq!(steps_to_take(500_000, 500_000, true), 0);
    assert!(redraw_due(400_000));
    assert!(!redraw_due(400_001));
    assert_eq!(per_fire(100, 7), 14);
    assert_eq!(per_fire(100, 0), 0);
    let (pixels, w, h) = picture(Some((vec![1, 2], 2, 1)));
    assert_eq!((pixels, w, h), (vec![1, 2], 2, 1));
    let (pixels, w, h) = picture(Some((vec![1, 2], 2, 2)));
    assert_eq!((pixels.len(), w, h), (1024 * 768, 1024, 768));
    assert_eq!(picture(None).0[5], 0);
}

#[test]
fn a_handle_runs_and_drains_its_guest() {
    let program: Vec<u8> = [0x1000_0137u32, 0x0410_0093, 0x0011_0023, 0x0000_006f]
        .iter()
        .flat_map(|w| w.to_le_bytes())
        .collect();
    let img = elf(RAM_BASE, &[(1, 120, RAM_BASE, RAM_BASE, 16, 16)], &program);
    assert!(matches!(Handle::new(&[1], 0x4000, &[]), Err(ElfError::BadMagic)));
    let mut h = Handle::new(&img, 0x4000, &[]).unwrap();
    assert_eq!(h.step_budget(5), Status::Running { instret: 5 });
    assert_eq!(h.instret(), 5);
    assert_eq!(h.drain_uart(), b"A");
    assert_eq!(h.drain_uart(), b"");
    assert!(h.drain_frames().is_empty());
}

#[test]
fn a_csr_that_is_not_modelled_is_named_with_its_pc() {
    let mut mem = Memory::new(0x1000);
    mem.write_u32(RAM_BASE, (0x7c0 << 20) | (1 << 12) | 0x73).unwrap();
    let mut cpu = Cpu::new(mem);
    assert_eq!(cpu.step(), Err(StepError::UnknownCsr { pc: RAM_BASE, addr: 0x7c0 }));
    assert_eq!(addr::SATP, 0x180);
}

#[test]
fn a_read_of_any_width_takes_the_byte() {
    for width in [1, 2, 4, 8] {
        let mut bus = Bus::new(Memory::new(0x1000));
        bus.push_console_input(b"ab");
        let first = match width {
            1 => u64::from(bus.read_u8(0x1000_0000).unwrap()),
            2 => u64::from(bus.read_u16(0x1000_0000).unwrap()),
            4 => u64::from(bus.read_u32(0x1000_0000).unwrap()),
            _ => bus.read_u64(0x1000_0000).unwrap(),
        };
        assert_eq!(first, u64::from(b'a'));
        assert_eq!(bus.read_u8(0x1000_0000).unwrap(), b'b');
    }
    let mut bus = Bus::new(Memory::new(0x1000));
    bus.push_console_input(b"a");
    assert_eq!(bus.peek_u16(0x1000_0000).unwrap(), u16::from(b'a'));
    assert_eq!(bus.peek_u32(0x1000_0000).unwrap(), u32::from(b'a'), "a look takes nothing");
}

#[test]
fn a_wide_load_takes_a_byte_off_the_uart() {
    let mut mem = Memory::new(0x1000);
    mem.write_u32(RAM_BASE, 0x0001_2083).unwrap(); // lw x1, 0(x2)
    mem.write_u32(RAM_BASE + 4, 0x0001_4183).unwrap(); // lbu x3, 0(x2)
    let mut cpu = Cpu::new(mem);
    cpu.bus.push_console_input(b"xy");
    cpu.set_reg(2, 0x1000_0000);
    cpu.step().unwrap();
    cpu.step().unwrap();
    assert_eq!(cpu.reg(1), u64::from(b'x'));
    assert_eq!(cpu.reg(3), u64::from(b'y'));
}

#[test]
fn a_fetch_takes_bytes_off_the_uart() {
    let mut cpu = Cpu::new(Memory::new(0x1000));
    // A full instruction is read twice, two bytes and then four.
    cpu.bus.push_console_input(&[0x13, 0x13, b'z']); // nop
    cpu.set_pc(0x1000_0000);
    cpu.step().unwrap();
    assert_eq!((cpu.pc(), cpu.instret()), (0x1000_0004, 1));
    assert_eq!(cpu.bus.read_u8(0x1000_0000).unwrap(), b'z');
    // A compressed one is read once.
    cpu.bus.push_console_input(&[0x01, b'y']); // c.nop
    cpu.set_pc(0x1000_0000);
    cpu.step().unwrap();
    assert_eq!((cpu.pc(), cpu.instret()), (0x1000_0002, 2));
    assert_eq!(cpu.bus.read_u8(0x1000_0000).unwrap(), b'y');
}

#[test]
fn a_block_is_looked_up_without_effects() {
    let mut cpu = Cpu::new(Memory::new(0x1000));
    cpu.set_block_jit(true);
    cpu.bus.push_console_input(&[0x13, 0x13, 0x13, b'z']);
    cpu.set_pc(0x1000_0000);
    cpu.step().unwrap(); // interpreted: two bytes are gone
    cpu.set_pc(0x1000_0000);
    cpu.step().unwrap(); // hot: compiled and run
    assert_eq!(cpu.bus.read_u8(0x1000_0000).unwrap(), 0x13);
    assert_eq!(cpu.bus.read_u8(0x1000_0000).unwrap(), b'z');
}

#[test]
fn the_hash_covers_the_loaded_image() {
    let a = elf(RAM_BASE, &[(1, 120, RAM_BASE, RAM_BASE, 4, 4)], &[1, 2, 3, 4]);
    let b = elf(RAM_BASE, &[(1, 120, RAM_BASE, RAM_BASE, 4, 4)], &[1, 2, 3, 5]);
    let a = load_machine(&a, 0x4000, None, 1).unwrap();
    let b = load_machine(&b, 0x4000, None, 1).unwrap();
    assert_eq!((a.ram_high_water(), b.ram_high_water()), (0, 0));
    assert_ne!(a.state_hash(), b.state_hash());
}
