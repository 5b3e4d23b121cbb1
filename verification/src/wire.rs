//! The wire format's building blocks: variable-length integers, text, and the COBS framing
//! that keeps the byte 0 out of a frame so that it can stand between frames.

use vstd::prelude::*;
use vstd::string::*;
use vstd::utf8::{decode_utf8, encode_utf8, valid_utf8};

verus! {

// Integers and text, as postcard writes them.

/// A number in groups of 7 bits, least significant first, each byte but the last with its
/// top bit set.
pub open spec fn varint(n: nat) -> Seq<u8>
    decreases n,
{
    if n < 128 {
        seq![n as u8]
    } else {
        seq![(128 + n % 128) as u8] + varint(n / 128)
    }
}

/// The number at the front of `s` in at most `most` bytes, the last of them at most `last`
/// where all `most` are used, and how many bytes it takes.
pub open spec fn parse_varint(s: Seq<u8>, most: nat, last: nat) -> Option<(nat, nat)>
    decreases most,
{
    if most == 0 || s.len() == 0 {
        None
    } else if s[0] < 128 {
        if most == 1 && s[0] > last {
            None
        } else {
            Some((s[0] as nat, 1))
        }
    } else {
        match parse_varint(s.drop_first(), (most - 1) as nat, last) {
            Some((v, n)) => Some(((s[0] - 128 + 128 * v) as nat, n + 1)),
            None => None,
        }
    }
}

/// The numbers that fit in `most` bytes with the last at most `last`.
pub open spec fn varint_limit(most: nat, last: nat) -> nat
    decreases most,
{
    if most == 0 {
        0
    } else if most == 1 {
        last + 1
    } else {
        128 * varint_limit((most - 1) as nat, last)
    }
}

/// The value, and what follows it.
pub open spec fn after_varint(s: Seq<u8>, most: nat, last: nat) -> Option<(nat, Seq<u8>)> {
    match parse_varint(s, most, last) {
        Some((v, n)) => Some((v, s.skip(n as int))),
        None => None,
    }
}

/// A 32-bit number and what follows it.
pub open spec fn parse_u32(s: Seq<u8>) -> Option<(nat, Seq<u8>)> {
    after_varint(s, 5, 15)
}

/// A 64-bit number and what follows it.
pub open spec fn parse_u64(s: Seq<u8>) -> Option<(nat, Seq<u8>)> {
    after_varint(s, 10, 1)
}

/// A length and what follows it: as wide as the machine's addresses.
pub open spec fn parse_len(s: Seq<u8>) -> Option<(nat, Seq<u8>)> {
    if usize::MAX == 0xffff_ffff {
        parse_u32(s)
    } else {
        parse_u64(s)
    }
}

/// A signed number as an unsigned one, small magnitudes staying small.
pub open spec fn zigzag(i: int) -> nat {
    if i >= 0 {
        (2 * i) as nat
    } else {
        (-2 * i - 1) as nat
    }
}

/// The signed number that [`zigzag`] made `n` from.
pub open spec fn unzigzag(n: nat) -> int {
    if n % 2 == 0 {
        n as int / 2
    } else {
        -(n as int / 2) - 1
    }
}

/// Text: its length in bytes, then its bytes.
pub open spec fn text_bytes(t: Seq<char>) -> Seq<u8> {
    varint(encode_utf8(t).len()) + encode_utf8(t)
}

/// Text and what follows it, or `None` where it is cut off or not UTF-8.
pub open spec fn parse_text(s: Seq<u8>) -> Option<(Seq<char>, Seq<u8>)> {
    match parse_len(s) {
        None => None,
        Some((n, rest)) => if n > rest.len() || !valid_utf8(rest.take(n as int)) {
            None
        } else {
            Some((decode_utf8(rest.take(n as int)), rest.skip(n as int)))
        },
    }
}

/// Take a 32-bit number off the front. Wraps `postcard::take_from_bytes::<u32>`, which
/// reads a number of at most 5 bytes whose fifth is at most 15 and returns it with the rest
/// of its input.
#[verifier::external_body]
pub(crate) fn take_u32<'a>(s: &'a [u8]) -> (r: Option<(u32, &'a [u8])>)
    ensures
        match parse_u32(s@) {
            Some((v, rest)) => r is Some && (r->0).0 == v && (r->0).1@ == rest,
            None => r is None,
        },
{
    postcard::take_from_bytes::<u32>(s).ok()
}

/// Take a 64-bit number off the front. Wraps `postcard::take_from_bytes::<u64>`, which
/// reads a number of at most 10 bytes whose tenth is at most 1 and returns it with the rest
/// of its input.
#[verifier::external_body]
pub(crate) fn take_u64<'a>(s: &'a [u8]) -> (r: Option<(u64, &'a [u8])>)
    ensures
        match parse_u64(s@) {
            Some((v, rest)) => r is Some && (r->0).0 == v && (r->0).1@ == rest,
            None => r is None,
        },
{
    postcard::take_from_bytes::<u64>(s).ok()
}

/// Take a signed 64-bit number off the front. Wraps `postcard::take_from_bytes::<i64>`,
/// which reads an unsigned one and undoes the zigzag.
#[verifier::external_body]
pub(crate) fn take_i64<'a>(s: &'a [u8]) -> (r: Option<(i64, &'a [u8])>)
    ensures
        match parse_u64(s@) {
            Some((v, rest)) => r is Some && (r->0).0 == unzigzag(v) && (r->0).1@ == rest,
            None => r is None,
        },
{
    postcard::take_from_bytes::<i64>(s).ok()
}

/// Take text off the front. Wraps `postcard::take_from_bytes::<&str>`, which reads a length
/// and as many bytes, and refuses them where they are cut off or not UTF-8.
#[verifier::external_body]
pub(crate) fn take_text<'a>(s: &'a [u8]) -> (r: Option<(&'a str, &'a [u8])>)
    ensures
        match parse_text(s@) {
            Some((t, rest)) => r is Some && (r->0).0@ == t && (r->0).1@ == rest,
            None => r is None,
        },
{
    postcard::take_from_bytes::<&str>(s).ok()
}

/// Write a 32-bit number. Wraps `postcard::to_allocvec` on a `u32`, which does not fail.
#[verifier::external_body]
pub(crate) fn put_u32(v: u32) -> (r: Vec<u8>)
    ensures
        r@ == varint(v as nat),
{
    postcard::to_allocvec(&v).unwrap_or_default()
}

/// Write a 64-bit number. Wraps `postcard::to_allocvec` on a `u64`, which does not fail.
#[verifier::external_body]
pub(crate) fn put_u64(v: u64) -> (r: Vec<u8>)
    ensures
        r@ == varint(v as nat),
{
    postcard::to_allocvec(&v).unwrap_or_default()
}

/// Write a signed 64-bit number. Wraps `postcard::to_allocvec` on an `i64`, which writes
/// its zigzag and does not fail.
#[verifier::external_body]
pub(crate) fn put_i64(v: i64) -> (r: Vec<u8>)
    ensures
        r@ == varint(zigzag(v as int)),
{
    postcard::to_allocvec(&v).unwrap_or_default()
}

/// Write text. Wraps `postcard::to_allocvec` on a `str`, which writes its length and its
/// bytes and does not fail.
#[verifier::external_body]
pub(crate) fn put_text(t: &str) -> (r: Vec<u8>)
    ensures
        r@ == text_bytes(t@),
{
    postcard::to_allocvec(t).unwrap_or_default()
}

/// A written number is read back, whatever follows it.
pub proof fn law_a_number_is_read_back(n: nat, most: nat, last: nat, t: Seq<u8>)
    requires
        n < varint_limit(most, last),
        last < 128,
    ensures
        after_varint(varint(n) + t, most, last) == Some((n, t)),
        varint(n).len() > 0,
    decreases most,
{
    lemma_parse_varint(n, most, last, t);
    assert((varint(n) + t).skip(varint(n).len() as int) =~= t);
}

proof fn lemma_parse_varint(n: nat, most: nat, last: nat, t: Seq<u8>)
    requires
        n < varint_limit(most, last),
        last < 128,
    ensures
        parse_varint(varint(n) + t, most, last) == Some((n, varint(n).len())),
        varint(n).len() > 0,
    decreases most,
{
    let s = varint(n) + t;
    if n < 128 {
        assert(s[0] == n as u8);
        if most > 1 {
            assert(!(most == 1));
        }
    } else {
        assert(most > 1);
        assert(n / 128 < varint_limit((most - 1) as nat, last));
        lemma_parse_varint(n / 128, (most - 1) as nat, last, t);
        assert(s.drop_first() =~= varint(n / 128) + t);
        assert(s[0] == (128 + n % 128) as u8);
    }
}

/// The limits of the two widths.
pub proof fn lemma_varint_limits()
    ensures
        varint_limit(5, 15) == 0x1_0000_0000,
        varint_limit(10, 1) == 0x1_0000_0000_0000_0000,
{
    reveal_with_fuel(varint_limit, 11);
}

/// Undoing a zigzag gives the number back.
pub proof fn law_zigzag_is_undone(i: int)
    ensures
        unzigzag(zigzag(i)) == i,
{
}

/// Written text is read back, whatever follows it.
pub proof fn law_text_is_read_back(t: Seq<char>, more: Seq<u8>)
    requires
        encode_utf8(t).len() <= usize::MAX,
    ensures
        parse_text(text_bytes(t) + more) == Some((t, more)),
{
    let b = encode_utf8(t);
    lemma_varint_limits();
    assert(text_bytes(t) + more =~= varint(b.len()) + (b + more));
    if usize::MAX == 0xffff_ffff {
        law_a_number_is_read_back(b.len(), 5, 15, b + more);
    } else {
        law_a_number_is_read_back(b.len(), 10, 1, b + more);
    }
    assert((b + more).take(b.len() as int) =~= b);
    assert((b + more).skip(b.len() as int) =~= more);
    vstd::utf8::encode_utf8_valid_utf8(t);
    vstd::utf8::encode_utf8_decode_utf8(t);
}

// COBS framing.

/// How many bytes other than 0 stand at the front of `s`, 254 at most.
pub open spec fn run_len(s: Seq<u8>, k: int) -> int
    decreases 254 - k,
{
    if k < 0 || k >= 254 || k >= s.len() || s[k] == 0 {
        k
    } else {
        run_len(s, k + 1)
    }
}

proof fn lemma_run_len(s: Seq<u8>, k: int)
    requires
        0 <= k <= 254,
        k <= s.len(),
    ensures
        k <= run_len(s, k) <= 254,
        run_len(s, k) <= s.len(),
        forall|i: int| k <= i < run_len(s, k) ==> s[i] != 0,
        run_len(s, k) < 254 && run_len(s, k) < s.len() ==> s[run_len(s, k)] == 0,
    decreases 254 - k,
{
    if !(k >= 254 || k >= s.len() || s[k] == 0) {
        lemma_run_len(s, k + 1);
    }
}

/// The bytes of `s` in blocks without a 0: each block is led by its length plus one, and a
/// block of fewer than 254 bytes stands for a 0 after it, but for the last.
pub open spec fn stuffed(s: Seq<u8>) -> Seq<u8>
    decreases s.len(),
    via stuffed_decreases
{
    let k = run_len(s, 0);
    if k >= 254 {
        seq![0xffu8] + s.take(254) + stuffed(s.skip(254))
    } else if k >= s.len() {
        seq![(k + 1) as u8] + s
    } else {
        seq![(k + 1) as u8] + s.take(k) + stuffed(s.skip(k + 1))
    }
}

#[via_fn]
proof fn stuffed_decreases(s: Seq<u8>) {
    lemma_run_len(s, 0);
}

/// The bytes that `s`, which holds no 0, was stuffed from, or `None` where a block is cut
/// off.
pub open spec fn unstuffed(s: Seq<u8>) -> Option<Seq<u8>>
    decreases s.len(),
{
    if s.len() == 0 {
        Some(Seq::empty())
    } else {
        let n = s[0] as int;
        if n == 0 || n > s.len() {
            None
        } else {
            let block = s.subrange(1, n);
            let rest = s.skip(n);
            if rest.len() == 0 {
                Some(block)
            } else {
                match unstuffed(rest) {
                    Some(more) => Some(
                        block + (if n == 0xff {
                            Seq::<u8>::empty()
                        } else {
                            seq![0u8]
                        }) + more,
                    ),
                    None => None,
                }
            }
        }
    }
}

/// Stuffed bytes hold no 0, and are read back.
pub proof fn law_stuffing_is_undone(s: Seq<u8>)
    ensures
        unstuffed(stuffed(s)) == Some(s),
        forall|i: int| 0 <= i < stuffed(s).len() ==> #[trigger] stuffed(s)[i] != 0,
        stuffed(s).len() > 0,
    decreases s.len(),
{
    lemma_run_len(s, 0);
    let k = run_len(s, 0);
    let t = stuffed(s);
    if k >= 254 {
        let rest = stuffed(s.skip(254));
        law_stuffing_is_undone(s.skip(254));
        assert(t =~= seq![0xffu8] + s.take(254) + rest);
        assert(t.subrange(1, 255) =~= s.take(254));
        assert(t.skip(255) =~= rest);
        assert(s =~= s.take(254) + Seq::<u8>::empty() + s.skip(254));
        assert forall|i: int| 0 <= i < t.len() implies #[trigger] t[i] != 0 by {
            if 1 <= i < 255 {
                assert(t[i] == s[i - 1]);
            } else if i >= 255 {
                assert(t[i] == rest[i - 255]);
            }
        }
    } else if k >= s.len() {
        assert(t =~= seq![(k + 1) as u8] + s);
        assert(t.subrange(1, k + 1) =~= s);
        assert(t.skip(k + 1) =~= Seq::<u8>::empty());
        assert forall|i: int| 0 <= i < t.len() implies #[trigger] t[i] != 0 by {
            if i >= 1 {
                assert(t[i] == s[i - 1]);
            }
        }
    } else {
        let rest = stuffed(s.skip(k + 1));
        law_stuffing_is_undone(s.skip(k + 1));
        assert(t =~= seq![(k + 1) as u8] + s.take(k) + rest);
        assert(t.subrange(1, k + 1) =~= s.take(k));
        assert(t.skip(k + 1) =~= rest);
        assert(s =~= s.take(k) + seq![0u8] + s.skip(k + 1));
        assert forall|i: int| 0 <= i < t.len() implies #[trigger] t[i] != 0 by {
            if 1 <= i < k + 1 {
                assert(t[i] == s[i - 1]);
            } else if i >= k + 1 {
                assert(t[i] == rest[i - k - 1]);
            }
        }
    }
}

/// Stuff `s`.
pub fn stuff(s: &[u8]) -> (r: Vec<u8>)
    ensures
        r@ == stuffed(s@),
{
    let mut out: Vec<u8> = Vec::new();
    let mut at: usize = 0;
    proof {
        assert(s@.skip(0) =~= s@);
        assert(out@ + stuffed(s@) =~= stuffed(s@));
    }
    loop
        invariant_except_break
            at <= s@.len(),
            out@ + stuffed(s@.skip(at as int)) == stuffed(s@),
        ensures
            out@ == stuffed(s@),
        decreases s@.len() - at,
    {
        let ghost rest = s@.skip(at as int);
        let k: usize = leading_run(s, at);
        let ghost before = out@;
        proof {
            lemma_run_len(rest, 0);
        }
        let block: &[u8] = vstd::slice::slice_subrange(s, at, at + k);
        out.push(k as u8 + 1);
        out.extend_from_slice(block);
        proof {
            assert(block@ =~= rest.take(k as int));
            assert(out@ =~= before + (seq![(k + 1) as u8] + rest.take(k as int)));
        }
        if k == 254 {
            proof {
                assert(rest.skip(254) =~= s@.skip(at + 254));
                assert(out@ + stuffed(rest.skip(254)) =~= before + stuffed(rest));
            }
            at = at + 254;
        } else if at + k == s.len() {
            proof {
                assert(rest.take(k as int) =~= rest);
                assert(out@ =~= before + stuffed(rest));
            }
            break;
        } else {
            proof {
                assert(rest.skip(k + 1) =~= s@.skip(at + k + 1));
                assert(out@ + stuffed(rest.skip(k + 1)) =~= before + stuffed(rest));
            }
            at = at + k + 1;
        }
    }
    out
}

/// How many bytes other than 0 stand at offset `at`, 254 at most.
fn leading_run(s: &[u8], at: usize) -> (k: usize)
    requires
        at <= s.len(),
    ensures
        k == run_len(s@.skip(at as int), 0),
        at + k <= s.len(),
        k <= 254,
{
    let mut k: usize = 0;
    while k < 254 && at + k < s.len() && s[at + k] != 0
        invariant
            k <= 254,
            at + k <= s.len(),
            run_len(s@.skip(at as int), 0) == run_len(s@.skip(at as int), k as int),
        decreases 254 - k,
    {
        k += 1;
    }
    k
}

/// Undo [`stuff`].
pub fn unstuff(s: &[u8]) -> (r: Option<Vec<u8>>)
    ensures
        match unstuffed(s@) {
            Some(t) => r is Some && (r->0)@ == t,
            None => r is None,
        },
{
    let mut out: Vec<u8> = Vec::new();
    let mut at: usize = 0;
    proof {
        assert(s@.skip(0) =~= s@);
        if unstuffed(s@) is Some {
            assert(out@ + unstuffed(s@)->0 =~= unstuffed(s@)->0);
        }
    }
    while at < s.len()
        invariant
            at <= s@.len(),
            unstuffed(s@) is Some <==> unstuffed(s@.skip(at as int)) is Some,
            unstuffed(s@) is Some ==> unstuffed(s@)->0 == out@ + unstuffed(
                s@.skip(at as int),
            )->0,
        decreases s@.len() - at,
    {
        let ghost rest = s@.skip(at as int);
        let n: usize = s[at] as usize;
        if n == 0 || n > s.len() - at {
            return None;
        }
        let ghost before = out@;
        let block: &[u8] = vstd::slice::slice_subrange(s, at + 1, at + n);
        out.extend_from_slice(block);
        proof {
            assert(block@ =~= rest.subrange(1, n as int));
            assert(out@ =~= before + block@);
            assert(rest.skip(n as int) =~= s@.skip(at + n));
        }
        at = at + n;
        if n != 255 && at < s.len() {
            out.push(0);
        }
        proof {
            let more = s@.skip(at as int);
            if unstuffed(s@) is Some {
                if at < s@.len() {
                    assert(out@ + unstuffed(more)->0 =~= before + unstuffed(rest)->0);
                } else {
                    assert(more =~= Seq::<u8>::empty());
                    assert(unstuffed(more) == Some(Seq::<u8>::empty()));
                    assert(out@ + Seq::<u8>::empty() =~= before + unstuffed(rest)->0);
                }
            }
        }
    }
    proof {
        assert(s@.skip(at as int) =~= Seq::<u8>::empty());
        assert(unstuffed(Seq::<u8>::empty()) == Some(Seq::<u8>::empty()));
        assert(out@ + Seq::<u8>::empty() =~= out@);
    }
    Some(out)
}

/// The offset of the first 0 in `s` from `at` on.
pub open spec fn zero_at(s: Seq<u8>, at: int) -> Option<int>
    decreases s.len() - at,
{
    if at < 0 || at >= s.len() {
        None
    } else if s[at] == 0 {
        Some(at)
    } else {
        zero_at(s, at + 1)
    }
}

/// The first 0 is one, and none stands before it.
pub proof fn lemma_zero_at(s: Seq<u8>, at: int)
    requires
        0 <= at <= s.len(),
    ensures
        match zero_at(s, at) {
            Some(z) => at <= z < s.len() && s[z] == 0 && forall|i: int| at <= i < z ==> s[i] != 0,
            None => forall|i: int| at <= i < s.len() ==> s[i] != 0,
        },
    decreases s.len() - at,
{
    if at < s.len() && s[at] != 0 {
        lemma_zero_at(s, at + 1);
    }
}

/// Find the first 0 from `at` on.
pub fn find_zero(s: &[u8], at: usize) -> (r: Option<usize>)
    requires
        at <= s.len(),
    ensures
        match zero_at(s@, at as int) {
            Some(z) => r == Some(z as usize) && at <= z < s.len(),
            None => r is None,
        },
{
    let mut i: usize = at;
    while i < s.len()
        invariant
            at <= i <= s.len(),
            zero_at(s@, at as int) == zero_at(s@, i as int),
        decreases s.len() - i,
    {
        if s[i] == 0 {
            return Some(i);
        }
        i += 1;
    }
    None
}

} // verus!
