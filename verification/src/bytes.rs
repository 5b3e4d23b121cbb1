//! Byte strings read as numbers: the little-endian and big-endian integers that
//! memory, device registers and file formats are made of.

use vstd::prelude::*;

verus! {

/// The number that `s` spells, least significant byte first.
pub open spec fn le(s: Seq<u8>) -> nat
    decreases s.len(),
{
    if s.len() == 0 {
        0
    } else {
        (s[0] as nat) + 256 * le(s.drop_first())
    }
}

/// The number that `s` spells, most significant byte first.
pub open spec fn be(s: Seq<u8>) -> nat
    decreases s.len(),
{
    if s.len() == 0 {
        0
    } else {
        256 * be(s.drop_last()) + (s.last() as nat)
    }
}

/// The low `n` bytes of `v`, least significant first.
pub open spec fn le_bytes(v: nat, n: nat) -> Seq<u8>
    decreases n,
{
    if n == 0 {
        Seq::empty()
    } else {
        seq![(v % 256) as u8] + le_bytes(v / 256, (n - 1) as nat)
    }
}

/// The low `n` bytes of `v`, most significant first.
pub open spec fn be_bytes(v: nat, n: nat) -> Seq<u8>
    decreases n,
{
    if n == 0 {
        Seq::empty()
    } else {
        be_bytes(v / 256, (n - 1) as nat).push((v % 256) as u8)
    }
}

/// 256 to the power `n`: how many values `n` bytes can spell.
pub open spec fn span_of(n: nat) -> nat
    decreases n,
{
    if n == 0 {
        1
    } else {
        256 * span_of((n - 1) as nat)
    }
}

/// `s` with `part` written over it from `at` on.
pub open spec fn overwrite(s: Seq<u8>, at: int, part: Seq<u8>) -> Seq<u8> {
    Seq::new(s.len(), |i: int| if at <= i < at + part.len() { part[i - at] } else { s[i] })
}

/// The widths of the machine's integers, as counts of values.
pub proof fn lemma_span_of_widths()
    ensures
        span_of(1) == 0x100,
        span_of(2) == 0x1_0000,
        span_of(4) == 0x1_0000_0000,
        span_of(8) == 0x1_0000_0000_0000_0000,
{
    reveal_with_fuel(span_of, 9);
}

/// A byte string of length `n` spells a number below `span_of(n)`.
pub proof fn lemma_le_bound(s: Seq<u8>)
    ensures
        le(s) < span_of(s.len()),
    decreases s.len(),
{
    if s.len() > 0 {
        lemma_le_bound(s.drop_first());
    }
}

/// A byte string of length `n` spells a number below `span_of(n)`.
pub proof fn lemma_be_bound(s: Seq<u8>)
    ensures
        be(s) < span_of(s.len()),
    decreases s.len(),
{
    if s.len() > 0 {
        lemma_be_bound(s.drop_last());
    }
}

pub proof fn lemma_span_of_positive(n: nat)
    ensures
        span_of(n) > 0,
    decreases n,
{
    if n > 0 {
        lemma_span_of_positive((n - 1) as nat);
    }
}

pub proof fn lemma_span_of_monotonic(m: nat, n: nat)
    requires
        m <= n,
    ensures
        span_of(m) <= span_of(n),
    decreases n,
{
    if m < n {
        lemma_span_of_monotonic(m, (n - 1) as nat);
        lemma_span_of_positive((n - 1) as nat);
    }
}

/// Writing a number out and reading it back keeps its low `n` bytes.
pub proof fn lemma_le_of_le_bytes(v: nat, n: nat)
    ensures
        le_bytes(v, n).len() == n,
        v < span_of(n) ==> le(le_bytes(v, n)) == v,
    decreases n,
{
    if n > 0 {
        lemma_le_of_le_bytes(v / 256, (n - 1) as nat);
        let s = le_bytes(v, n);
        assert(s.drop_first() =~= le_bytes(v / 256, (n - 1) as nat));
        assert(s[0] == (v % 256) as u8);
    }
}

/// Writing a number out and reading it back keeps its low `n` bytes.
pub proof fn lemma_be_of_be_bytes(v: nat, n: nat)
    ensures
        be_bytes(v, n).len() == n,
        v < span_of(n) ==> be(be_bytes(v, n)) == v,
    decreases n,
{
    if n > 0 {
        lemma_be_of_be_bytes(v / 256, (n - 1) as nat);
        let s = be_bytes(v, n);
        assert(s.drop_last() =~= be_bytes(v / 256, (n - 1) as nat));
        assert(s.last() == (v % 256) as u8);
    }
}

/// The bytes of the number that `s` spells are `s`.
pub proof fn lemma_be_bytes_of_be(s: Seq<u8>)
    ensures
        be_bytes(be(s), s.len()) == s,
    decreases s.len(),
{
    if s.len() > 0 {
        lemma_be_bytes_of_be(s.drop_last());
        let v = be(s);
        assert(v % 256 == s.last() as nat);
        assert(v / 256 == be(s.drop_last()));
        assert(be_bytes(v, s.len()) =~= s);
    } else {
        assert(be_bytes(be(s), 0) =~= s);
    }
}

/// The little-endian number in the `n` bytes of `buf` from `at` on.
pub fn get_le(buf: &[u8], at: usize, n: usize) -> (r: u64)
    requires
        n <= 8,
        at + n <= buf.len(),
    ensures
        r == le(buf@.subrange(at as int, at + n)),
        r < span_of(n as nat),
{
    let mut acc: u64 = 0;
    let mut i: usize = n;
    proof {
        lemma_span_of_widths();
        assert(buf@.subrange(at + n, at + n) =~= Seq::<u8>::empty());
    }
    while i > 0
        invariant
            i <= n <= 8,
            at + n <= buf.len(),
            acc == le(buf@.subrange(at + i, at + n)),
        decreases i,
    {
        let ghost rest = buf@.subrange(at + i, at + n);
        i -= 1;
        let ghost whole = buf@.subrange(at + i, at + n);
        proof {
            assert(whole.drop_first() =~= rest);
            lemma_le_bound(whole);
            lemma_span_of_monotonic(whole.len(), 8);
            lemma_span_of_widths();
        }
        acc = acc * 256 + buf[at + i] as u64;
    }
    proof {
        lemma_le_bound(buf@.subrange(at as int, at + n));
    }
    acc
}

/// The big-endian number in the `n` bytes of `buf` from `at` on.
pub fn get_be(buf: &[u8], at: usize, n: usize) -> (r: u64)
    requires
        n <= 8,
        at + n <= buf.len(),
    ensures
        r == be(buf@.subrange(at as int, at + n)),
        r < span_of(n as nat),
{
    let mut acc: u64 = 0;
    let mut i: usize = 0;
    proof {
        lemma_span_of_widths();
        assert(buf@.subrange(at as int, at as int) =~= Seq::<u8>::empty());
    }
    while i < n
        invariant
            i <= n <= 8,
            at + n <= buf.len(),
            acc == be(buf@.subrange(at as int, at + i)),
        decreases n - i,
    {
        let ghost part = buf@.subrange(at as int, at + i);
        let ghost whole = buf@.subrange(at as int, at + i + 1);
        proof {
            assert(whole.drop_last() =~= part);
            lemma_be_bound(whole);
            lemma_span_of_monotonic(whole.len(), 8);
            lemma_span_of_widths();
        }
        acc = acc * 256 + buf[at + i] as u64;
        i += 1;
    }
    proof {
        lemma_be_bound(buf@.subrange(at as int, at + n));
    }
    acc
}

/// Append the low `n` bytes of `v`, least significant first.
pub fn push_le(out: &mut Vec<u8>, v: u64, n: usize)
    ensures
        final(out)@ == old(out)@ + le_bytes(v as nat, n as nat),
{
    let mut rest: u64 = v;
    let mut i: usize = 0;
    while i < n
        invariant
            i <= n,
            out@ + le_bytes(rest as nat, (n - i) as nat) == old(out)@ + le_bytes(
                v as nat,
                n as nat,
            ),
        decreases n - i,
    {
        let ghost before = out@;
        let b: u8 = (rest % 256) as u8;
        out.push(b);
        proof {
            assert(before + le_bytes(rest as nat, (n - i) as nat) =~= out@ + le_bytes(
                (rest / 256) as nat,
                (n - i - 1) as nat,
            ));
        }
        rest = rest / 256;
        i += 1;
    }
    proof {
        assert(out@ + le_bytes(rest as nat, 0) =~= out@);
    }
}

/// Append the low `n` bytes of `v`, most significant first.
pub fn push_be(out: &mut Vec<u8>, v: u64, n: usize)
    ensures
        final(out)@ == old(out)@ + be_bytes(v as nat, n as nat),
    decreases n,
{
    if n > 0 {
        push_be(out, v / 256, n - 1);
        let b: u8 = (v % 256) as u8;
        out.push(b);
        proof {
            assert(out@ =~= old(out)@ + be_bytes(v as nat, n as nat));
        }
    } else {
        proof {
            assert(out@ =~= old(out)@ + be_bytes(v as nat, 0));
        }
    }
}

/// Overwrite the `n` bytes of `buf` from `at` on with the low bytes of `v`, least
/// significant first.
pub fn set_le(buf: &mut Vec<u8>, at: usize, v: u64, n: usize)
    requires
        at + n <= old(buf).len(),
    ensures
        final(buf)@ == overwrite(old(buf)@, at as int, le_bytes(v as nat, n as nat)),
{
    let mut rest: u64 = v;
    let mut i: usize = 0;
    let ghost start = buf@;
    proof {
        lemma_le_of_le_bytes(v as nat, n as nat);
        assert(buf@ =~= overwrite(start, at as int, le_bytes(v as nat, n as nat).take(0)));
        assert(le_bytes(v as nat, n as nat).skip(0) =~= le_bytes(rest as nat, n as nat));
    }
    while i < n
        invariant
            i <= n,
            at + n <= buf.len(),
            buf.len() == start.len(),
            le_bytes(v as nat, n as nat).len() == n,
            le_bytes(v as nat, n as nat).skip(i as int) == le_bytes(rest as nat, (n - i) as nat),
            buf@ == overwrite(start, at as int, le_bytes(v as nat, n as nat).take(i as int)),
        decreases n - i,
    {
        let ghost all = le_bytes(v as nat, n as nat);
        let b: u8 = (rest % 256) as u8;
        proof {
            assert(all.skip(i as int)[0] == all[i as int]);
            assert(all.skip(i as int).drop_first() =~= all.skip(i + 1));
            assert(le_bytes(rest as nat, (n - i) as nat).drop_first() =~= le_bytes(
                (rest / 256) as nat,
                (n - i - 1) as nat,
            ));
        }
        buf[at + i] = b;
        rest = rest / 256;
        i += 1;
        proof {
            assert(buf@ =~= overwrite(start, at as int, all.take(i as int)));
        }
    }
    proof {
        assert(le_bytes(v as nat, n as nat).take(n as int) =~= le_bytes(v as nat, n as nat));
    }
}

/// Overwrite `buf` from `at` on with `part`.
pub fn set_bytes(buf: &mut Vec<u8>, at: usize, part: &[u8])
    requires
        at + part@.len() <= old(buf).len(),
    ensures
        final(buf)@ == overwrite(old(buf)@, at as int, part@),
{
    let ghost start = buf@;
    let mut i: usize = 0;
    proof {
        assert(buf@ =~= overwrite(start, at as int, part@.take(0)));
    }
    while i < part.len()
        invariant
            i <= part@.len(),
            at + part@.len() <= buf.len(),
            buf.len() == start.len(),
            buf@ == overwrite(start, at as int, part@.take(i as int)),
        decreases part@.len() - i,
    {
        buf[at + i] = part[i];
        i += 1;
        proof {
            assert(buf@ =~= overwrite(start, at as int, part@.take(i as int)));
        }
    }
    proof {
        assert(part@.take(part@.len() as int) =~= part@);
    }
}

/// The low `n` bytes of `v` in the opposite order: what a big-endian register holds
/// when its bytes were read as a little-endian number, and the other way round.
pub open spec fn swapped(v: nat, n: nat) -> nat {
    be(le_bytes(v, n))
}

/// Reverse the order of the low `n` bytes of `v`.
pub fn swap_bytes(v: u64, n: usize) -> (r: u64)
    requires
        n <= 8,
    ensures
        r == swapped(v as nat, n as nat),
        r < span_of(n as nat),
{
    let mut acc: u64 = 0;
    let mut rest: u64 = v;
    let mut i: usize = 0;
    let ghost all = le_bytes(v as nat, n as nat);
    proof {
        lemma_le_of_le_bytes(v as nat, n as nat);
        assert(all.skip(0) =~= all);
        assert(all.take(0) =~= Seq::<u8>::empty());
    }
    while i < n
        invariant
            i <= n <= 8,
            all == le_bytes(v as nat, n as nat),
            all.len() == n,
            all.skip(i as int) == le_bytes(rest as nat, (n - i) as nat),
            acc == be(all.take(i as int)),
        decreases n - i,
    {
        proof {
            assert(all.skip(i as int)[0] == all[i as int]);
            assert(all.skip(i as int).drop_first() =~= all.skip(i + 1));
            assert(le_bytes(rest as nat, (n - i) as nat).drop_first() =~= le_bytes(
                (rest / 256) as nat,
                (n - i - 1) as nat,
            ));
            assert(all.take(i + 1).drop_last() =~= all.take(i as int));
            lemma_be_bound(all.take(i + 1));
            lemma_span_of_monotonic((i + 1) as nat, 8);
            lemma_span_of_widths();
        }
        acc = acc * 256 + rest % 256;
        rest = rest / 256;
        i += 1;
    }
    proof {
        assert(all.take(n as int) =~= all);
        lemma_be_bound(all);
    }
    acc
}

} // verus!
