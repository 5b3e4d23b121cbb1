//! What the state hash is taken of tells every guest-visible part of a machine.

use vstd::prelude::*;
use crate::bytes::{lemma_le_of_le_bytes, lemma_span_of_widths};
use crate::cpu::{HartState, Privilege};
use crate::machine::{
    hart_bytes, harts_bytes, length_bytes, reservation_bytes, sized_bytes, state_bytes,
    usize_width, word_bytes, words_bytes, written, MachineState,
};
use crate::model::HartModel;

verus! {

/// Two texts that are the same split alike where their first parts are as long.
proof fn lemma_split(a: Seq<u8>, b: Seq<u8>, c: Seq<u8>, d: Seq<u8>)
    requires
        a.len() == c.len(),
        a + b == c + d,
    ensures
        a == c,
        b == d,
{
    let s = a + b;
    let t = c + d;
    assert(a =~= s.take(a.len() as int));
    assert(c =~= t.take(c.len() as int));
    assert(b =~= s.skip(a.len() as int));
    assert(d =~= t.skip(c.len() as int));
}

proof fn lemma_word(v: u64, w: u64)
    ensures
        word_bytes(v).len() == 8,
        word_bytes(v) == word_bytes(w) ==> v == w,
{
    lemma_span_of_widths();
    lemma_le_of_le_bytes(v as nat, 8);
    lemma_le_of_le_bytes(w as nat, 8);
}

proof fn lemma_length(v: nat, w: nat)
    ensures
        length_bytes(v).len() == usize_width(),
        v <= usize::MAX && w <= usize::MAX && length_bytes(v) == length_bytes(w) ==> v == w,
{
    lemma_span_of_widths();
    lemma_le_of_le_bytes(v, usize_width());
    lemma_le_of_le_bytes(w, usize_width());
}

proof fn lemma_words(a: Seq<u64>, b: Seq<u64>, n: int)
    requires
        0 <= n <= a.len(),
        n <= b.len(),
    ensures
        words_bytes(a, n).len() == 8 * n,
        words_bytes(a, n) == words_bytes(b, n) ==> forall|i: int|
            0 <= i < n ==> #[trigger] a[i] == b[i],
    decreases n,
{
    if n > 0 {
        lemma_words(a, b, n - 1);
        lemma_words(b, a, n - 1);
        lemma_word(a[n - 1], b[n - 1]);
        lemma_word(b[n - 1], a[n - 1]);
        if words_bytes(a, n) == words_bytes(b, n) {
            lemma_split(
                words_bytes(a, n - 1),
                word_bytes(a[n - 1]),
                words_bytes(b, n - 1),
                word_bytes(b[n - 1]),
            );
        }
    }
}

proof fn lemma_joined(a: Seq<u8>, b: Seq<u8>, c: Seq<u8>)
    ensures
        (a + b) + c == a + (b + c),
{
    assert((a + b) + c =~= a + (b + c));
}

/// Whether two harts look alike to the guest.
pub open spec fn alike(h: HartModel, g: HartModel) -> bool {
    &&& forall|i: int| 0 <= i < 32 ==> #[trigger] h.x[i] == g.x[i]
    &&& h.pc == g.pc
    &&& h.privilege == g.privilege
    &&& forall|i: int| 0 <= i < 10 ==> #[trigger] h.csr[i] == g.csr[i]
    &&& h.reservation == g.reservation
    &&& h.run == g.run
}

spec fn privilege_number(p: Privilege) -> nat {
    match p {
        Privilege::User => 0,
        Privilege::Supervisor => 1,
    }
}

spec fn run_number(r: HartState) -> nat {
    match r {
        HartState::Running => 0,
        HartState::Stopped => 1,
        HartState::Idle => 2,
    }
}

/// The bytes of a hart, from the first on.
proof fn lemma_hart_front(h: HartModel, rest: Seq<u8>)
    ensures
        hart_bytes(h) + rest == length_bytes(32) + (words_bytes(h.x, 32) + (word_bytes(h.pc) + (
        length_bytes(privilege_number(h.privilege)) + (length_bytes(10) + (words_bytes(h.csr, 10)
            + (reservation_bytes(h.reservation) + (length_bytes(run_number(h.run)) + rest))))))),
{
    let a = length_bytes(32);
    let b = words_bytes(h.x, 32);
    let c = word_bytes(h.pc);
    let d = length_bytes(privilege_number(h.privilege));
    let e = length_bytes(10);
    let f = words_bytes(h.csr, 10);
    let g = reservation_bytes(h.reservation);
    let i = length_bytes(run_number(h.run));
    assert(hart_bytes(h) == a + b + c + d + e + f + g + i);
    assert(a + b + c + d + e + f + g + i + rest =~= a + (b + (c + (d + (e + (f + (g + (i
        + rest))))))));
}

proof fn lemma_reservation(a: Option<u64>, r: Seq<u8>, b: Option<u64>, t: Seq<u8>)
    requires
        reservation_bytes(a) + r == reservation_bytes(b) + t,
    ensures
        a == b,
        r == t,
{
    let front = |o: Option<u64>| if o is Some { 1nat } else { 0nat };
    let tail = |o: Option<u64>, s: Seq<u8>| match o {
        Some(v) => word_bytes(v) + s,
        None => s,
    };
    if let Some(v) = a {
        lemma_joined(length_bytes(1), word_bytes(v), r);
    }
    if let Some(v) = b {
        lemma_joined(length_bytes(1), word_bytes(v), t);
    }
    lemma_length(front(a), front(b));
    lemma_length(front(b), front(a));
    lemma_split(length_bytes(front(a)), tail(a, r), length_bytes(front(b)), tail(b, t));
    if a is Some && b is Some {
        lemma_word(a->0, b->0);
        lemma_word(b->0, a->0);
        lemma_split(word_bytes(a->0), r, word_bytes(b->0), t);
    }
}

proof fn lemma_hart(h: HartModel, r: Seq<u8>, g: HartModel, t: Seq<u8>)
    requires
        h.x.len() == 32 && g.x.len() == 32,
        h.csr.len() == 10 && g.csr.len() == 10,
        hart_bytes(h) + r == hart_bytes(g) + t,
    ensures
        alike(h, g),
        r == t,
{
    lemma_hart_front(h, r);
    lemma_hart_front(g, t);
    let h7 = length_bytes(run_number(h.run)) + r;
    let g7 = length_bytes(run_number(g.run)) + t;
    let h6 = reservation_bytes(h.reservation) + h7;
    let g6 = reservation_bytes(g.reservation) + g7;
    let h5 = words_bytes(h.csr, 10) + h6;
    let g5 = words_bytes(g.csr, 10) + g6;
    let h4 = length_bytes(10) + h5;
    let g4 = length_bytes(10) + g5;
    let h3 = length_bytes(privilege_number(h.privilege)) + h4;
    let g3 = length_bytes(privilege_number(g.privilege)) + g4;
    let h2 = word_bytes(h.pc) + h3;
    let g2 = word_bytes(g.pc) + g3;
    let h1 = words_bytes(h.x, 32) + h2;
    let g1 = words_bytes(g.x, 32) + g2;
    lemma_length(32, 32);
    lemma_split(length_bytes(32), h1, length_bytes(32), g1);
    lemma_words(h.x, g.x, 32);
    lemma_words(g.x, h.x, 32);
    lemma_split(words_bytes(h.x, 32), h2, words_bytes(g.x, 32), g2);
    lemma_word(h.pc, g.pc);
    lemma_word(g.pc, h.pc);
    lemma_split(word_bytes(h.pc), h3, word_bytes(g.pc), g3);
    let (p, q) = (privilege_number(h.privilege), privilege_number(g.privilege));
    lemma_length(p, q);
    lemma_length(q, p);
    lemma_split(length_bytes(p), h4, length_bytes(q), g4);
    lemma_length(10, 10);
    lemma_split(length_bytes(10), h5, length_bytes(10), g5);
    lemma_words(h.csr, g.csr, 10);
    lemma_words(g.csr, h.csr, 10);
    lemma_split(words_bytes(h.csr, 10), h6, words_bytes(g.csr, 10), g6);
    lemma_reservation(h.reservation, h7, g.reservation, g7);
    let (u, v) = (run_number(h.run), run_number(g.run));
    lemma_length(u, v);
    lemma_length(v, u);
    lemma_split(length_bytes(u), r, length_bytes(v), t);
}

proof fn lemma_harts(a: Seq<HartModel>, r: Seq<u8>, b: Seq<HartModel>, t: Seq<u8>, n: int)
    requires
        0 <= n <= a.len(),
        n <= b.len(),
        forall|i: int| 0 <= i < n ==> (#[trigger] a[i]).x.len() == 32 && a[i].csr.len() == 10,
        forall|i: int| 0 <= i < n ==> (#[trigger] b[i]).x.len() == 32 && b[i].csr.len() == 10,
        harts_bytes(a, n) + r == harts_bytes(b, n) + t,
    ensures
        forall|i: int| 0 <= i < n ==> alike(#[trigger] a[i], b[i]),
        r == t,
    decreases n,
{
    if n > 0 {
        let (ha, hb) = (hart_bytes(a[n - 1]), hart_bytes(b[n - 1]));
        lemma_joined(harts_bytes(a, n - 1), ha, r);
        lemma_joined(harts_bytes(b, n - 1), hb, t);
        lemma_harts(a, ha + r, b, hb + t, n - 1);
        lemma_hart(a[n - 1], r, b[n - 1], t);
    } else {
        assert(harts_bytes(a, n) + r =~= r);
        assert(harts_bytes(b, n) + t =~= t);
    }
}

proof fn lemma_sized(a: Seq<u8>, r: Seq<u8>, b: Seq<u8>, t: Seq<u8>)
    requires
        a.len() <= usize::MAX,
        b.len() <= usize::MAX,
        sized_bytes(a) + r == sized_bytes(b) + t,
    ensures
        a == b,
        r == t,
{
    lemma_joined(length_bytes(a.len()), a, r);
    lemma_joined(length_bytes(b.len()), b, t);
    lemma_length(a.len(), b.len());
    lemma_length(b.len(), a.len());
    lemma_split(length_bytes(a.len()), a + r, length_bytes(b.len()), b + t);
    lemma_split(a, r, b, t);
}

/// The bytes that are hashed tell the clock, every hart's registers, pc, privilege, status
/// registers, reservation and whether it runs, RAM as far as it was written, and what was sent:
/// two machines of as many harts for which they are the same are alike in all of it.
pub proof fn law_the_hashed_bytes_tell_states_apart(m: MachineState, n: MachineState)
    requires
        m.harts.len() == n.harts.len(),
        forall|i: int|
            0 <= i < m.harts.len() ==> (#[trigger] m.harts[i]).x.len() == 32
                && m.harts[i].csr.len() == 10,
        forall|i: int|
            0 <= i < n.harts.len() ==> (#[trigger] n.harts[i]).x.len() == 32
                && n.harts[i].csr.len() == 10,
        m.bus.ram.bytes.len() <= usize::MAX && n.bus.ram.bytes.len() <= usize::MAX,
        m.bus.uart.output.len() <= usize::MAX && n.bus.uart.output.len() <= usize::MAX,
        m.bus.virtio.output.len() <= usize::MAX && n.bus.virtio.output.len() <= usize::MAX,
        state_bytes(m) == state_bytes(n),
    ensures
        m.time == n.time,
        forall|i: int| 0 <= i < m.harts.len() ==> alike(#[trigger] m.harts[i], n.harts[i]),
        m.bus.ram.extent == n.bus.ram.extent,
        written(m.bus.ram) == written(n.bus.ram),
        m.bus.uart.output == n.bus.uart.output,
        m.bus.virtio.output == n.bus.virtio.output,
{
    let k = m.harts.len() as int;
    let none = Seq::<u8>::empty();
    let m5 = sized_bytes(m.bus.virtio.output) + none;
    let n5 = sized_bytes(n.bus.virtio.output) + none;
    let m4 = sized_bytes(m.bus.uart.output) + m5;
    let n4 = sized_bytes(n.bus.uart.output) + n5;
    let m3 = sized_bytes(written(m.bus.ram)) + m4;
    let n3 = sized_bytes(written(n.bus.ram)) + n4;
    let m2 = word_bytes(m.bus.ram.extent) + m3;
    let n2 = word_bytes(n.bus.ram.extent) + n3;
    let m1 = harts_bytes(m.harts, k) + m2;
    let n1 = harts_bytes(n.harts, k) + n2;
    assert(state_bytes(m) =~= word_bytes(m.time) + m1);
    assert(state_bytes(n) =~= word_bytes(n.time) + n1);
    lemma_word(m.time, n.time);
    lemma_word(n.time, m.time);
    lemma_split(word_bytes(m.time), m1, word_bytes(n.time), n1);
    lemma_harts(m.harts, m2, n.harts, n2, k);
    lemma_word(m.bus.ram.extent, n.bus.ram.extent);
    lemma_word(n.bus.ram.extent, m.bus.ram.extent);
    lemma_split(word_bytes(m.bus.ram.extent), m3, word_bytes(n.bus.ram.extent), n3);
    lemma_sized(written(m.bus.ram), m4, written(n.bus.ram), n4);
    lemma_sized(m.bus.uart.output, m5, n.bus.uart.output, n5);
    lemma_sized(m.bus.virtio.output, none, n.bus.virtio.output, none);
}

} // verus!
