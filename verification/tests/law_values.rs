//! What holds in general, at chosen values.

use snemu::block::{compile_op, Block, Compiled};
use snemu::budget::{run, Status};
use snemu::bus::Bus;
use snemu::cpu::{Cpu, Hart};
use snemu::csr::{addr, sstatus};
use snemu::cursor::Cursor;
use snemu::decode::{b_type, i_type, j_type, s_type, u_type, Instr};
use snemu::decode_cache::{DecodeCache, Decoded};
use snemu::fp::{box_single, min_max_d, unbox_single};
use snemu::gmac::{Gmac, GMAC1_BASE, TX_BASE_ADDR, TX_RING_LEN};
use snemu::jit::host::{decode, encode, Host, Insn};
use snemu::jit::{CodeArena, NativeBlock};
use snemu::machine::Machine;
use snemu::mem::{Memory, RAM_BASE};
use snemu::names::Names;
use snemu::probe::{check_portable, run_with, Speedups};
use snemu::protocol::{wire_encode, Frame, MetricKind, SpanId, StringId};
use snemu::ramfs::{NodeKind, RamFs};
use snemu::series::SeriesStore;
use snemu::store::FrameStore;
use snemu::stream::{decode_stream, DecodeError, OnDecodeError, OwnedFrame, StreamDecoder};
use snemu::telemetry::Decoder;

fn cpu_with(program: &[u32]) -> Cpu {
    let mut mem = Memory::new(0x1000);
    for (i, &word) in program.iter().enumerate() {
        mem.write_u32(RAM_BASE + 4 * i as u64, word).unwrap();
    }
    Cpu::new(mem)
}

#[test]
fn encoded_fields_decode() {
    let i = Instr(i_type(0x13, 0, 5, 6, 0xfff));
    assert_eq!((i.rd(), i.rs1(), i.i_imm()), (5, 6, u64::MAX));
    let s = Instr(s_type(3, 5, 6, 0x7f8));
    assert_eq!((s.rs1(), s.rs2(), s.s_imm()), (5, 6, 0x7f8));
    let b = Instr(b_type(1, 5, 6, 0x1ffe));
    assert_eq!(b.b_imm(), (-2i64) as u64);
    let j = Instr(j_type(1, 0x1f_fffe));
    assert_eq!(j.j_imm(), (-2i64) as u64);
    let u = Instr(u_type(0x37, 7, 0x8_0000));
    assert_eq!((u.rd(), u.u_imm()), (7, 0xffff_ffff_8000_0000));
}

#[test]
fn a_lowered_op_does_what_its_instruction_does() {
    let raw = 0xff05_0593; // addi x11, x10, -16
    let mut cpu = cpu_with(&[raw]);
    cpu.set_reg(10, 100);
    cpu.step().unwrap();
    let Compiled::Continue(op) = compile_op(raw, 4, RAM_BASE) else { panic!("lowered") };
    let mut hart = Hart::new();
    hart.set_reg(10, 100);
    let mut bus = Bus::new(Memory::new(0x1000));
    assert_eq!(Block::new(vec![op], RAM_BASE + 4).exec(&mut hart, &mut bus), Ok(1));
    assert_eq!(hart.x, cpu.hart.x);
    assert_eq!(hart.pc(), cpu.pc());
}

#[test]
fn native_code_computes_its_block() {
    let ops = match compile_op(0xff05_0593, 4, 0x1000) {
        Compiled::Continue(op) => vec![op],
        _ => panic!("lowered"),
    };
    let mut arena = CodeArena::new();
    let block = NativeBlock::compile_into(&ops, 0x1004, &mut arena).unwrap();
    let mut regs = [0u64; 32];
    regs[10] = 100;
    let exit = block.run(&arena, &mut regs).unwrap();
    assert_eq!((exit.retired, exit.pc, regs[11]), (1, 0x1004, 84));
}

#[test]
fn host_instructions_are_read_back() {
    let i = Insn::Movz { xd: 3, imm: 0xbeef };
    assert_eq!(encode(i), 0xd280_0003 | (0xbeef << 5));
    assert_eq!(decode(encode(i)), Some(i));
    assert_eq!(decode(0xffff_ffff), None);
    let mut host = Host::new([0; 32]);
    host.step(i);
    assert_eq!(host.get(3), 0xbeef);
}

#[test]
fn a_return_undoes_a_trap() {
    let mut hart = Hart::new();
    hart.set_pc(RAM_BASE + 0x40);
    hart.csr.write(addr::SSTATUS, sstatus::SIE).unwrap();
    hart.csr.write(addr::STVEC, RAM_BASE + 0x100).unwrap();
    hart.take_trap(3, 0);
    assert_eq!(hart.csr_read(addr::SSTATUS) & sstatus::SIE, 0);
    hart.sret();
    assert_eq!(hart.pc(), RAM_BASE + 0x40);
    assert_ne!(hart.csr_read(addr::SSTATUS) & sstatus::SIE, 0);
}

#[test]
fn a_software_interrupt_comes_before_the_timer() {
    let mut cpu = cpu_with(&[0x0000_0013]);
    cpu.hart.csr.write(addr::STVEC, RAM_BASE + 0x100).unwrap();
    cpu.hart.csr.write(addr::SIP, 2).unwrap();
    cpu.hart.csr.write(addr::SIE, 0x22).unwrap();
    cpu.hart.csr.write(addr::SSTATUS, sstatus::SIE).unwrap();
    cpu.step().unwrap();
    assert_eq!(cpu.hart.csr_read(addr::SCAUSE), (1 << 63) | 1);
}

#[test]
fn a_flushed_cache_knows_nothing() {
    let mut cache = DecodeCache::default();
    for pc in (0..64).map(|i| 0x1000 + 2 * i) {
        cache.insert(pc, Decoded { raw: pc as u32, ilen: 2 });
        assert_eq!(cache.get(0, pc), Some(Decoded { raw: pc as u32, ilen: 2 }));
    }
    cache.flush();
    for pc in (0..64).map(|i| 0x1000 + 2 * i) {
        assert_eq!(cache.get(0, pc), None);
    }
}

#[test]
fn the_hash_does_not_see_how_fast_the_machine_is() {
    let plain = Machine::new(Memory::new(0x1000), 2);
    let mut fast = Machine::new(Memory::new(0x1000), 2);
    fast.set_decode_cache(true);
    fast.set_block_jit(true);
    fast.set_tlb(true);
    fast.set_register_cache(true);
    fast.set_idle_skip(false);
    fast.set_native_ops(true);
    fast.enable_profiling();
    assert_eq!(plain.state_hash(), fast.state_hash());
}

#[test]
fn a_quiet_span_is_a_jump() {
    let run = |quiet: bool| {
        let mut mem = Memory::new(0x2000);
        mem.write_u32(RAM_BASE + 4, 0x0000_006f).unwrap();
        let mut m = Machine::new(mem, 2);
        m.set_native_op_pcs(Some(RAM_BASE), None);
        m.set_native_ops(true);
        m.set_reg(0, 1, RAM_BASE + 4);
        m.set_reg(0, 10, RAM_BASE + 0x800);
        m.set_reg(0, 12, 16);
        if quiet {
            m.harts[1].arm_idle_timer(1_000_000);
        }
        m.step().unwrap();
        (m.instret(), m.pc(0), m.is_running(1))
    };
    assert_eq!(run(true), (30, RAM_BASE + 4, false));
    assert_eq!(run(true), run(false));
}

#[test]
fn drains_add_up() {
    let mut c = Cursor::new();
    let mut seen = c.drain(b"ab").to_vec();
    seen.extend_from_slice(c.drain(b"abcd"));
    assert_eq!(seen, b"abcd");
}

fn sample_stream() -> Vec<u8> {
    let mut out = Vec::new();
    for frame in [
        Frame::StringRegister { id: StringId(1), value: "m" },
        Frame::Metric { name_id: StringId(1), value: -7, t: 3, hart_id: 0 },
        Frame::SpanEnd { id: SpanId(9), t: 4 },
    ] {
        let mut buf = [0u8; 64];
        out.extend_from_slice(wire_encode(&frame, &mut buf).unwrap());
    }
    out
}

#[test]
fn a_stream_may_be_cut_anywhere() {
    let stream = sample_stream();
    let mut whole = Decoder::new();
    let views = whole.push(&stream);
    for cut in 0..=stream.len() {
        let mut d = Decoder::new();
        let mut seen = d.push(&stream[..cut]);
        seen.extend(d.push(&stream[cut..]));
        assert_eq!(seen, views);
        assert_eq!(d.frames(), whole.frames());
        assert_eq!(d.series(), whole.series());
    }
    let (frames, result) = decode_stream(&stream, OnDecodeError::Fail);
    assert_eq!(frames.len(), 3);
    assert_eq!(result.unwrap().resyncs, 0);
}

#[test]
fn the_facts_survive_the_stream() {
    let thread = OwnedFrame::ThreadRegister { id: 1, name: "init".to_string(), priority: 0 };
    let mut lossy = FrameStore::new(4);
    let mut lossless = FrameStore::new(10_000);
    for store in [&mut lossy, &mut lossless] {
        store.push(thread.clone());
        for i in 0..500 {
            store.push(OwnedFrame::SpanEnd { id: SpanId(i), t: i });
        }
        store.push(thread.clone());
    }
    assert_eq!(lossy.durable_len(), lossless.durable_len());
    assert_eq!(lossy.windowed_len(), 4);
    let kept = lossy.frames();
    assert_eq!(kept.first(), Some(&thread));
    assert_eq!(kept.last(), Some(&thread));
    assert_eq!(kept[1], OwnedFrame::SpanEnd { id: SpanId(496), t: 496 });
}

#[test]
fn one_metric_leaves_another_alone() {
    let mut names = Names::new();
    names.register(StringId(1), "a");
    names.register(StringId(2), "b");
    let mut s = SeriesStore::new();
    s.observe(&OwnedFrame::Metric { name_id: StringId(1), value: 1, t: 1, hart_id: 0 }, &names);
    let before = s.series();
    s.observe(&OwnedFrame::Metric { name_id: StringId(2), value: 2, t: 2, hart_id: 0 }, &names);
    assert_eq!(s.series()[0], before[0]);
}

#[test]
fn an_attribute_and_a_file_are_read_back() {
    let mut fs = RamFs::new();
    let a = fs.create(fs.root(), "a", NodeKind::File).unwrap();
    let b = fs.create(fs.root(), "b", NodeKind::File).unwrap();
    fs.write(a, 2, b"xyz").unwrap();
    fs.setxattr(a, "k", b"v").unwrap();
    let mut buf = [0u8; 3];
    assert_eq!(fs.read(a, 2, &mut buf), Ok(3));
    assert_eq!(&buf, b"xyz");
    assert_eq!(fs.getxattr(a, "k").unwrap(), b"v");
    assert_eq!(fs.stat(b).unwrap().size, 0);
    assert!(fs.getxattr(b, "k").is_err());
    fs.remove(fs.root(), "a").unwrap();
    assert!(fs.lookup(fs.root(), "a").is_err());
    assert_eq!(fs.lookup(fs.root(), "b"), Ok(b));
}

#[test]
fn singles_are_read_back_and_minima_are_symmetric() {
    assert_eq!(unbox_single(box_single(2.5f32.to_bits())), 2.5f32.to_bits());
    let (a, b) = ((-3.5f64).to_bits(), 7.0f64.to_bits());
    assert_eq!(min_max_d(a, b, false), a);
    assert_eq!(min_max_d(a, b, false), min_max_d(b, a, false));
    assert_eq!(min_max_d(a, b, true), b);
}

#[test]
fn a_halted_guest_stays_as_it_is() {
    let mut m = Machine::new(Memory::new(0x1000), 2);
    m.write_ram(RAM_BASE, &0x1050_0073u32.to_le_bytes()).unwrap();
    assert_eq!(run(&mut m, 100), Status::Halted { instret: 1 });
    let (hash, instret) = (m.state_hash(), m.instret());
    m.step().unwrap();
    assert_eq!((m.state_hash(), m.instret()), (hash, instret));
}

#[test]
fn a_profile_adds_up_to_the_clock() {
    let mut m = Machine::new(Memory::new(0x1000), 1);
    m.write_ram(RAM_BASE, &[0x93, 0x80, 0x10, 0x00, 0x6f, 0xf0, 0xdf, 0xff]).unwrap();
    m.set_block_jit(true);
    m.enable_profiling();
    for _ in 0..50 {
        m.step().unwrap();
    }
    let total: u64 = m.take_profile().unwrap().values().sum();
    assert_eq!(total, m.instret());
    assert!(m.take_profile().is_none());
}

#[test]
fn the_register_cache_changes_nothing() {
    let run = |on: bool| {
        let mut cpu = cpu_with(&[0x0010_8093, 0x0020_81b3, 0xff9f_f06f]);
        cpu.set_block_jit(true);
        cpu.set_register_cache(on);
        cpu.set_reg(2, 7);
        for _ in 0..20 {
            cpu.step().unwrap();
        }
        (cpu.hart.x, cpu.pc(), cpu.instret())
    };
    assert_eq!(run(true), run(false));
}

#[test]
fn the_decode_cache_changes_nothing_over_a_run() {
    let run = |on: bool| {
        let mut cpu = cpu_with(&[0x0010_8093, 0x0020_81b3, 0xff9f_f06f]);
        cpu.set_decode_cache(on);
        cpu.set_reg(2, 7);
        for _ in 0..100 {
            cpu.step().unwrap();
        }
        (cpu.hart.x, cpu.pc(), cpu.instret())
    };
    assert_eq!(run(true), run(false));
}

#[test]
fn scrambled_bytes_share_no_cell() {
    let mut mem = Memory::new(5 * 0x1000);
    mem.set_scramble(true);
    for a in (0..5 * 0x1000u64).step_by(511) {
        mem.write_u8(RAM_BASE + a, (a % 251) as u8).unwrap();
    }
    for a in (0..5 * 0x1000u64).step_by(511) {
        assert_eq!(mem.read_u8(RAM_BASE + a).unwrap(), (a % 251) as u8);
    }
    assert!(mem.read_u8(RAM_BASE + 5 * 0x1000).is_err());
}

#[test]
fn a_kick_sends_what_was_handed_over() {
    let ring = RAM_BASE + 0x1000;
    let mut mem = Memory::new(0x10000);
    let mut g = Gmac::new();
    g.write(GMAC1_BASE + TX_BASE_ADDR, ring as u32);
    g.write(GMAC1_BASE + TX_RING_LEN, 4);
    for slot in 0..3u64 {
        let buffer = if slot == 1 { 0x10 } else { RAM_BASE + 0x2000 + slot };
        mem.write_u32(ring + 16 * slot, buffer as u32).unwrap();
        mem.write_u32(ring + 16 * slot + 8, 1).unwrap();
        mem.write_u32(ring + 16 * slot + 12, 0x8000_0001).unwrap();
        mem.write_u8(RAM_BASE + 0x2000 + slot, slot as u8).unwrap();
    }
    g.service_tx(&mut mem);
    assert_eq!(g.frames(), &[vec![0], vec![2]]);
    let words: Vec<u32> =
        (0..4).map(|slot| mem.read_u32(ring + 16 * slot + 12).unwrap()).collect();
    assert_eq!(words, [1, 0x8001, 1, 0]);
}

#[test]
fn a_kick_does_the_same_in_stress_mode() {
    let mut mem = Memory::new(8 * 0x1000);
    mem.set_scramble(true);
    let ring = RAM_BASE + 0x2000 - 32; // four descriptors, across a frame boundary
    let buffer = RAM_BASE + 0x3fff; // two bytes, across another
    let mut g = Gmac::new();
    g.write(GMAC1_BASE + TX_BASE_ADDR, ring as u32);
    g.write(GMAC1_BASE + TX_RING_LEN, 4);
    mem.write_u8(buffer, 7).unwrap();
    mem.write_u8(buffer + 1, 8).unwrap();
    for slot in 0..3u64 {
        let at = if slot == 1 { 0x10 } else { buffer };
        mem.write_u32(ring + 16 * slot, at as u32).unwrap();
        mem.write_u32(ring + 16 * slot + 8, 2).unwrap();
        mem.write_u32(ring + 16 * slot + 12, 0x8000_0001).unwrap();
    }
    g.service_tx(&mut mem);
    assert_eq!(g.frames(), &[vec![7, 8], vec![7, 8]]);
    let words: Vec<u32> =
        (0..4).map(|slot| mem.read_u32(ring + 16 * slot + 12).unwrap()).collect();
    assert_eq!(words, [1, 0x8001, 1, 0]);
    assert_eq!((mem.read_u8(buffer).unwrap(), mem.read_u8(buffer + 1).unwrap()), (7, 8));
}

#[test]
fn an_undecodable_chunk_leaves_nothing_behind() {
    let mut good = vec![0u8; 64];
    let n = wire_encode(&Frame::SpanEnd { id: SpanId(7), t: 99 }, &mut good).unwrap().len();
    good.truncate(n);
    let mut decoder = StreamDecoder::new(OnDecodeError::Fail);
    let mut bytes = good.clone();
    bytes.extend_from_slice(&[0x01, 0x00, 0x05, 0x05]);
    let (frames, result) = decoder.feed(&bytes);
    assert_eq!(frames.len(), 1);
    assert_eq!(result, Err(DecodeError { consumed: 2 }));
    let (frames, result) = decoder.feed(&good);
    assert_eq!(frames, vec![OwnedFrame::SpanEnd { id: SpanId(7), t: 99 }]);
    assert_eq!(result, Ok(()));
}

#[test]
fn series_tell_of_the_whole_stream() {
    let mut names = Names::new();
    names.register(StringId(1), "a");
    names.register(StringId(2), "b");
    let metric = |id: u32, value: i64| OwnedFrame::Metric {
        name_id: StringId(id),
        value,
        t: 0,
        hart_id: 0,
    };
    let kind = |id: u32, kind: MetricKind| OwnedFrame::MetricRegister {
        name_id: StringId(id),
        kind,
        task_id: 0,
    };
    let mut s = SeriesStore::new();
    for f in [
        metric(2, 5),
        kind(1, MetricKind::Gauge),
        metric(1, 6),
        metric(3, 9),
        metric(2, 7),
        kind(1, MetricKind::Counter),
    ] {
        s.observe(&f, &names);
    }
    let all = s.series();
    assert_eq!(all.len(), 2);
    assert_eq!((all[0].name.as_str(), all[0].kind), ("b", None));
    assert_eq!(all[0].points, [(0, 5), (0, 7)]);
    assert_eq!((all[1].name.as_str(), all[1].kind), ("a", Some(MetricKind::Counter)));
    assert_eq!(all[1].points, [(0, 6)]);
}

#[test]
fn every_choice_of_accelerators_sees_the_same_program() {
    let oracle = run_with(Speedups::off());
    for fetch_cache in [false, true] {
        for block_jit in [false, true] {
            for tlb in [false, true] {
                let p = run_with(Speedups { fetch_cache, block_jit, tlb });
                assert_eq!(p, oracle);
                assert_eq!(p.fault, None);
                assert_eq!(p.instret, 64);
                assert_eq!(
                    p.regs,
                    [0, 1, 1 << 40, 0x8000_0100, 1 << 40, 1, 0x1000_0000, 0x41]
                );
                assert_eq!(p.uart, b"A");
                assert_eq!(check_portable(&p), Ok(()));
            }
        }
    }
}
