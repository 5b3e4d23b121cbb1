//! Guest physical memory: a flat byte array at the QEMU `virt` RAM base,
//! with width-typed little-endian accessors and out-of-range detection.

use vstd::prelude::*;
use crate::bytes::{
    be, get_be, get_le, le, le_bytes, lemma_le_of_le_bytes, lemma_span_of_positive,
    lemma_span_of_widths, overwrite, set_bytes, set_le, span_of,
};

verus! {

/// Physical base of guest RAM on the QEMU `virt` machine.
pub const RAM_BASE: u64 = 0x8000_0000;

/// Guest page size (Sv39 base page).
pub const PAGE: usize = 0x1000;

/// A guest physical access fell outside mapped RAM.
#[derive(Debug, Clone, Copy, PartialEq, Eq, Structural)]
pub enum BusError {
    OutOfRange { addr: u64 },
}

/// Flat guest RAM, addressed by absolute guest physical address.
pub struct Memory {
    ram: Vec<u8>,
    /// Highest byte offset (past-the-end) written since the mark was last cleared: the
    /// guest's RAM footprint.
    high_water: u64,
    /// Highest byte offset (past-the-end) ever written: everything at or above it is 0.
    extent: u64,
    /// Stress mode: when `Some(k)`, guest frame `f` is stored at frame `f * k mod n`.
    scramble: Option<u64>,
}

/// What a [`Memory`] holds.
pub struct MemState {
    pub bytes: Seq<u8>,
    pub high_water: u64,
    pub extent: u64,
    pub scramble: Option<u64>,
}

impl MemState {
    /// Whether every byte at or above the extent is 0.
    pub open spec fn covered(self) -> bool {
        &&& self.bytes.len() <= u64::MAX
        &&& forall|i: int| self.extent <= i < self.bytes.len() ==> #[trigger] self.bytes[i] == 0
    }

    /// Whole frames of RAM.
    pub open spec fn frames(self) -> int {
        self.bytes.len() as int / PAGE as int
    }

    /// The storage offset of raw offset `raw` (guest physical minus [`RAM_BASE`]):
    /// the frame is permuted in stress mode, the offset in the page is kept.
    #[verifier::opaque]
    pub open spec fn place(self, raw: int) -> int {
        match self.scramble {
            Some(k) if self.frames() > 0 => {
                ((raw / PAGE as int) * k) % 0x1_0000_0000_0000_0000 % self.frames() * PAGE
                    + raw % PAGE as int
            },
            _ => raw,
        }
    }

    /// Where a `len`-wide access at `addr` starts in storage, or `None` where it is
    /// not mapped. The base frame is permuted once and the range stays contiguous.
    pub open spec fn span(self, addr: u64, len: int) -> Option<int> {
        let raw = addr - RAM_BASE;
        if raw < 0 || raw + len > self.bytes.len() || self.place(raw) + len > self.bytes.len() {
            None
        } else {
            Some(self.place(raw))
        }
    }

    /// The little-endian number in the `len` bytes at `addr`.
    pub open spec fn load(self, addr: u64, len: int) -> Option<nat> {
        match self.span(addr, len) {
            Some(at) => Some(le(self.bytes.subrange(at, at + len))),
            None => None,
        }
    }

    /// `part` written at `addr` as one contiguous range.
    pub open spec fn put(self, addr: u64, part: Seq<u8>) -> Option<MemState> {
        match self.span(addr, part.len() as int) {
            Some(at) => Some(
                MemState {
                    bytes: overwrite(self.bytes, at, part),
                    high_water: if self.high_water < at + part.len() {
                        (at + part.len()) as u64
                    } else {
                        self.high_water
                    },
                    extent: if self.extent < at + part.len() {
                        (at + part.len()) as u64
                    } else {
                        self.extent
                    },
                    scramble: self.scramble,
                },
            ),
            None => None,
        }
    }

    /// The low `len` bytes of `v` written at `addr`.
    pub open spec fn store(self, addr: u64, len: int, v: nat) -> Option<MemState> {
        self.put(addr, le_bytes(v, len as nat))
    }

    /// `part` written at `addr` guest page by guest page, each into its own storage
    /// frame. The write stops at the first page that is not mapped; the first field
    /// says whether it reached the end, or the address of that page.
    pub open spec fn put_paged(self, addr: u64, part: Seq<u8>) -> (Option<u64>, MemState)
        decreases part.len(),
    {
        if part.len() == 0 {
            (None, self)
        } else {
            let room = PAGE - addr as int % PAGE as int;
            let chunk = if room < part.len() {
                room
            } else {
                part.len() as int
            };
            match self.put(addr, part.take(chunk)) {
                None => (Some(addr), self),
                Some(next) => next.put_paged(
                    offset(addr, chunk),
                    part.skip(chunk),
                ),
            }
        }
    }

    /// The number at `addr`, or 0 where it is not mapped.
    pub open spec fn load_or_zero(self, addr: u64, len: int) -> nat {
        match self.load(addr, len) {
            Some(v) => v,
            None => 0,
        }
    }

    /// The big-endian number at `addr`, or 0 where it is not mapped.
    pub open spec fn load_be_or_zero(self, addr: u64, len: int) -> nat {
        match self.span(addr, len) {
            Some(at) => be(self.bytes.subrange(at, at + len)),
            None => 0,
        }
    }

    /// The low `len` bytes of `v` written at `addr`, or nothing where it is not mapped.
    pub open spec fn store_if_mapped(self, addr: u64, len: int, v: nat) -> MemState {
        match self.store(addr, len, v) {
            Some(next) => next,
            None => self,
        }
    }

    /// Whether each of the `len` bytes from `addr` on is mapped.
    pub open spec fn mapped(self, addr: u64, len: int) -> bool {
        forall|i: int| 0 <= i < len ==> #[trigger] self.load(offset(addr, i), 1) is Some
    }

    /// The `len` bytes from `addr` on, read one by one, or `None` where one is not
    /// mapped.
    pub open spec fn fetch(self, addr: u64, len: int) -> Option<Seq<u8>> {
        if self.mapped(addr, len) {
            Some(Seq::new(len as nat, |i: int| self.load(offset(addr, i), 1)->0 as u8))
        } else {
            None
        }
    }

    /// A bulk write: one range, or page by page in stress mode.
    pub open spec fn write(self, addr: u64, part: Seq<u8>) -> (Option<u64>, MemState) {
        match self.scramble {
            None => match self.put(addr, part) {
                None => (Some(addr), self),
                Some(next) => (None, next),
            },
            Some(_) => self.put_paged(addr, part),
        }
    }
}

/// The address `i` bytes past `addr`, wrapping at 2^64.
pub open spec fn offset(addr: u64, i: int) -> u64 {
    ((addr + i) % 0x1_0000_0000_0000_0000) as u64
}

/// Greatest common divisor, by Euclid's rule.
pub open spec fn gcd_of(a: nat, b: nat) -> nat
    decreases b,
{
    if b == 0 {
        a
    } else {
        gcd_of(b, a % b)
    }
}

/// Greatest common divisor (Euclid), for choosing a frame multiplier coprime to N.
pub fn gcd(a: u64, b: u64) -> (r: u64)
    ensures
        r == gcd_of(a as nat, b as nat),
{
    let mut x: u64 = a;
    let mut y: u64 = b;
    while y != 0
        invariant
            gcd_of(x as nat, y as nat) == gcd_of(a as nat, b as nat),
        decreases y,
    {
        let t: u64 = x % y;
        x = y;
        y = t;
    }
    x
}

/// The largest odd number below `n` that is plainly coprime to it.
proof fn lemma_coprime_below(n: nat)
    requires
        n > 2,
    ensures
        n % 2 == 0 ==> gcd_of((n - 1) as nat, n) == 1,
        n % 2 == 1 ==> gcd_of((n - 2) as nat, n) == 1,
{
    if n % 2 == 0 {
        let m = (n - 1) as nat;
        vstd::arithmetic::div_mod::lemma_small_mod(m, n);
        assert(n % m == 1) by {
            vstd::arithmetic::div_mod::lemma_fundamental_div_mod_converse(
                n as int,
                m as int,
                1,
                1,
            );
        }
        assert(gcd_of(m, n) == gcd_of(n, m));
        assert(gcd_of(n, m) == gcd_of(m, 1));
        assert(gcd_of(m, 1) == gcd_of(1, 0)) by {
            assert(m % 1 == 0);
        }
        assert(gcd_of(1, 0) == 1);
    } else {
        let m = (n - 2) as nat;
        vstd::arithmetic::div_mod::lemma_small_mod(m, n);
        assert(gcd_of(m, n) == gcd_of(n, m));
        if m == 1 {
            assert(n % 1 == 0);
            assert(gcd_of(n, 1) == gcd_of(1, 0));
            assert(gcd_of(1, 0) == 1);
        } else {
            assert(m > 2);
            assert(n % m == 2) by {
                vstd::arithmetic::div_mod::lemma_fundamental_div_mod_converse(
                    n as int,
                    m as int,
                    1,
                    2,
                );
            }
            assert(gcd_of(n, m) == gcd_of(m, 2));
            assert(m % 2 == 1);
            assert(gcd_of(m, 2) == gcd_of(2, 1));
            assert(gcd_of(2, 1) == gcd_of(1, 0));
            assert(gcd_of(1, 0) == 1);
        }
    }
}

/// The odd number at or just above `n / 2`, where the search for a multiplier starts.
pub open spec fn first_multiplier(n: u64) -> int {
    n / 2 + (1 - (n / 2) % 2)
}

/// A frame multiplier for an `n`-frame machine: the first odd number from `n / 2` up
/// that is coprime to `n`, so `f -> f * k mod n` is a bijection and adjacent frames
/// land far apart. `None` when there is nothing to scramble.
pub fn scramble_multiplier(n: u64) -> (r: Option<u64>)
    ensures
        r is None <==> n <= 2,
        match r {
            Some(k) => {
                &&& k % 2 == 1
                &&& first_multiplier(n) <= k < n
                &&& gcd_of(k as nat, n as nat) == 1
                &&& forall|j: int|
                    first_multiplier(n) <= j < k && j % 2 == 1 ==> #[trigger] gcd_of(
                        j as nat,
                        n as nat,
                    ) != 1
            },
            None => true,
        },
{
    if n <= 2 {
        return None;
    }
    let half: u64 = n / 2;
    let mut k: u64 = if half % 2 == 1 {
        half
    } else {
        half + 1
    };
    let ghost top: int = if n % 2 == 0 {
        n - 1
    } else {
        n - 2
    };
    proof {
        lemma_coprime_below(n as nat);
    }
    while gcd(k, n) != 1
        invariant
            n > 2,
            top == (if n % 2 == 0 {
                n - 1
            } else {
                n - 2
            }),
            top % 2 == 1,
            gcd_of(top as nat, n as nat) == 1,
            k % 2 == 1,
            first_multiplier(n) <= k <= top,
            forall|j: int|
                first_multiplier(n) <= j < k && j % 2 == 1 ==> #[trigger] gcd_of(
                    j as nat,
                    n as nat,
                ) != 1,
        decreases top - k,
    {
        k = k + 2;
    }
    Some(k)
}

impl View for Memory {
    type V = MemState;

    closed spec fn view(&self) -> MemState {
        MemState {
            bytes: self.ram@,
            high_water: self.high_water,
            extent: self.extent,
            scramble: self.scramble,
        }
    }
}

impl Clone for Memory {
    fn clone(&self) -> (r: Self)
        ensures
            r@ == self@,
    {
        let ram = self.ram.clone();
        proof {
            assert(ram@ =~= self.ram@);
        }
        Memory {
            ram,
            high_water: self.high_water,
            extent: self.extent,
            scramble: self.scramble,
        }
    }
}

impl Memory {
    #[must_use]
    pub fn new(size: usize) -> (r: Self)
        ensures
            r@ == (MemState {
                bytes: Seq::new(size as nat, |i: int| 0u8),
                high_water: 0,
                extent: 0,
                scramble: None,
            }),
            r@.covered(),
    {
        let ram: Vec<u8> = vec![0; size];
        proof {
            assert(ram@ =~= Seq::new(size as nat, |i: int| 0u8));
        }
        Self { ram, high_water: 0, extent: 0, scramble: None }
    }

    /// Bytes of RAM.
    #[must_use]
    pub fn size(&self) -> (r: usize)
        ensures
            r == self@.bytes.len(),
    {
        self.ram.len()
    }

    /// Enable/disable the deterministic frame-scramble stress mode. Set it **before**
    /// loading the guest image so the loader's writes are scattered consistently.
    pub fn set_scramble(&mut self, on: bool)
        ensures
            final(self)@.bytes == old(self)@.bytes,
            final(self)@.high_water == old(self)@.high_water,
            final(self)@.extent == old(self)@.extent,
            final(self)@.scramble is Some <==> on && old(self)@.frames() > 2,
            match final(self)@.scramble {
                Some(k) => {
                    let n = old(self)@.frames() as u64;
                    &&& k % 2 == 1
                    &&& first_multiplier(n) <= k < n
                    &&& gcd_of(k as nat, n as nat) == 1
                    &&& forall|j: int|
                        first_multiplier(n) <= j < k && j % 2 == 1 ==> #[trigger] gcd_of(
                            j as nat,
                            n as nat,
                        ) != 1
                },
                None => true,
            },
    {
        self.scramble = if on {
            scramble_multiplier((self.ram.len() / PAGE) as u64)
        } else {
            None
        };
    }

    /// Map a raw RAM offset to a storage offset, applying the frame permutation when
    /// scramble is on. The page offset is preserved; only the frame is permuted.
    fn storage_offset(&self, raw: usize) -> (r: usize)
        requires
            raw <= self@.bytes.len(),
        ensures
            r == self@.place(raw as int),
    {
        proof {
            reveal(MemState::place);
        }
        match self.scramble {
            None => raw,
            Some(k) => {
                let n: u64 = (self.ram.len() / PAGE) as u64;
                if n == 0 {
                    return raw;
                }
                let sframe: u64 = ((raw / PAGE) as u64).wrapping_mul(k) % n;
                proof {
                    assert(sframe < n);
                    assert(n * PAGE <= self.ram@.len());
                    assert(sframe * PAGE + PAGE <= n * PAGE) by (nonlinear_arith)
                        requires
                            sframe < n,
                            PAGE == 0x1000,
                    ;
                    assert(((raw / PAGE) as u64).wrapping_mul(k) == ((raw as int / PAGE as int)
                        * k) % 0x1_0000_0000_0000_0000);
                }
                sframe as usize * PAGE + raw % PAGE
            },
        }
    }

    /// The start of a `len`-wide access at `addr` in storage, or `OutOfRange` if it
    /// would fall outside mapped RAM. Guest-visible bounds are checked on the *raw*
    /// address, so scramble cannot change what the guest sees as mapped.
    fn span(&self, addr: u64, len: usize) -> (r: Result<usize, BusError>)
        ensures
            match self@.span(addr, len as int) {
                Some(at) => r == Ok::<usize, BusError>(at as usize) && 0 <= at && at + len
                    <= self@.bytes.len() <= usize::MAX,
                None => r == Err::<usize, BusError>(BusError::OutOfRange { addr }),
            },
    {
        if addr < RAM_BASE {
            return Err(BusError::OutOfRange { addr });
        }
        let size: usize = self.ram.len();
        let raw64: u64 = addr - RAM_BASE;
        if raw64 > size as u64 {
            return Err(BusError::OutOfRange { addr });
        }
        let raw: usize = raw64 as usize;
        if len > size - raw {
            return Err(BusError::OutOfRange { addr });
        }
        let start: usize = self.storage_offset(raw);
        if start > size || len > size - start {
            return Err(BusError::OutOfRange { addr });
        }
        Ok(start)
    }

    /// Copy `bytes` into RAM starting at `addr` (the ELF loader, or a guest bulk
    /// write such as a native `memset` or a device's DMA). Under scramble this splits
    /// at guest page boundaries, so each guest frame lands in its own storage frame.
    #[verifier::spinoff_prover]
    #[verifier::rlimit(60)]
    pub fn write_bytes(&mut self, addr: u64, bytes: &[u8]) -> (r: Result<(), BusError>)
        ensures
            final(self)@ == old(self)@.write(addr, bytes@).1,
            match old(self)@.write(addr, bytes@).0 {
                None => r == Ok::<(), BusError>(()),
                Some(at) => r == Err::<(), BusError>(BusError::OutOfRange { addr: at }),
            },
    {
        if self.scramble.is_none() {
            return self.put(addr, bytes);
        }
        let ghost whole = old(self)@.put_paged(addr, bytes@);
        let mut done: usize = 0;
        let mut a: u64 = addr;
        proof {
            assert(bytes@.skip(0) =~= bytes@);
        }
        while done < bytes.len()
            invariant
                done <= bytes@.len(),
                self@.put_paged(a, bytes@.skip(done as int)) == whole,
                old(self)@.scramble is Some,
                whole == old(self)@.put_paged(addr, bytes@),
            decreases bytes@.len() - done,
        {
            let room: usize = PAGE - (a % PAGE as u64) as usize;
            let left: usize = bytes.len() - done;
            let chunk: usize = if room < left {
                room
            } else {
                left
            };
            let ghost rest = bytes@.skip(done as int);
            let part: &[u8] = vstd::slice::slice_subrange(bytes, done, done + chunk);
            proof {
                assert(part@ =~= rest.take(chunk as int));
                assert(rest.skip(chunk as int) =~= bytes@.skip(done + chunk));
            }
            match self.put(a, part) {
                Err(e) => {
                    return Err(e);
                },
                Ok(()) => {},
            }
            a = a.wrapping_add(chunk as u64);
            done += chunk;
        }
        Ok(())
    }

    /// Write `bytes` at `addr` as one contiguous storage range.
    fn put(&mut self, addr: u64, bytes: &[u8]) -> (r: Result<(), BusError>)
        ensures
            match old(self)@.put(addr, bytes@) {
                Some(next) => r == Ok::<(), BusError>(()) && final(self)@ == next,
                None => r == Err::<(), BusError>(BusError::OutOfRange { addr }) && final(self)@
                    == old(self)@,
            },
    {
        let at: usize = match self.span(addr, bytes.len()) {
            Ok(at) => at,
            Err(e) => {
                return Err(e);
            },
        };
        let end: u64 = (at + bytes.len()) as u64;
        if self.high_water < end {
            self.high_water = end;
        }
        if self.extent < end {
            self.extent = end;
        }
        set_bytes(&mut self.ram, at, bytes);
        Ok(())
    }

    /// Guest RAM footprint: the highest byte offset ever written (past-the-end).
    #[must_use]
    pub fn high_water(&self) -> (r: u64)
        ensures
            r == self@.high_water,
    {
        self.high_water
    }

    /// Reset the write high-water, so the mark tracks only guest-execution writes.
    pub fn reset_high_water(&mut self)
        ensures
            final(self)@ == (MemState { high_water: 0, ..old(self)@ }),
    {
        self.high_water = 0;
    }

    /// How far RAM was ever written: everything at or above it is 0.
    #[must_use]
    pub fn extent(&self) -> (r: u64)
        ensures
            r == self@.extent,
    {
        self.extent
    }

    /// A copy of RAM as far as it was ever written.
    pub fn written(&self) -> (r: Vec<u8>)
        ensures
            r@ == (if self@.extent < self@.bytes.len() {
                self@.bytes.take(self@.extent as int)
            } else {
                self@.bytes
            }),
    {
        let end: usize = if self.extent < self.ram.len() as u64 {
            self.extent as usize
        } else {
            self.ram.len()
        };
        let part: &[u8] = vstd::slice::slice_subrange(self.ram.as_slice(), 0, end);
        let r: Vec<u8> = vstd::slice::slice_to_vec(part);
        proof {
            assert(r@ =~= self.ram@.take(end as int));
            assert(self.ram@.take(self.ram@.len() as int) =~= self.ram@);
        }
        r
    }

    /// The `len`-byte little-endian number at `addr`.
    fn read(&self, addr: u64, len: usize) -> (r: Result<u64, BusError>)
        requires
            len <= 8,
        ensures
            match self@.load(addr, len as int) {
                Some(v) => r == Ok::<u64, BusError>(v as u64) && v < span_of(
                    len as nat,
                ) && v == v as u64,
                None => r == Err::<u64, BusError>(BusError::OutOfRange { addr }),
            },
    {
        match self.span(addr, len) {
            Ok(at) => Ok(get_le(self.ram.as_slice(), at, len)),
            Err(e) => Err(e),
        }
    }

    /// Store the low `len` bytes of `value` at `addr`.
    fn write(&mut self, addr: u64, len: usize, value: u64) -> (r: Result<(), BusError>)
        requires
            len <= 8,
        ensures
            match old(self)@.store(addr, len as int, value as nat) {
                Some(next) => r == Ok::<(), BusError>(()) && final(self)@ == next,
                None => r == Err::<(), BusError>(BusError::OutOfRange { addr }) && final(self)@
                    == old(self)@,
            },
    {
        proof {
            lemma_le_of_le_bytes(value as nat, len as nat);
        }
        let at: usize = match self.span(addr, len) {
            Ok(at) => at,
            Err(e) => {
                return Err(e);
            },
        };
        let end: u64 = (at + len) as u64;
        if self.high_water < end {
            self.high_water = end;
        }
        if self.extent < end {
            self.extent = end;
        }
        set_le(&mut self.ram, at, value, len);
        Ok(())
    }

    pub fn read_u8(&self, addr: u64) -> (r: Result<u8, BusError>)
        ensures
            match self@.load(addr, 1) {
                Some(v) => r == Ok::<u8, BusError>(v as u8) && v == v as u8,
                None => r == Err::<u8, BusError>(BusError::OutOfRange { addr }),
            },
    {
        proof {
            lemma_span_of_widths();
        }
        match self.read(addr, 1) {
            Ok(v) => Ok(v as u8),
            Err(e) => Err(e),
        }
    }

    pub fn read_u16(&self, addr: u64) -> (r: Result<u16, BusError>)
        ensures
            match self@.load(addr, 2) {
                Some(v) => r == Ok::<u16, BusError>(v as u16) && v == v as u16,
                None => r == Err::<u16, BusError>(BusError::OutOfRange { addr }),
            },
    {
        proof {
            lemma_span_of_widths();
        }
        match self.read(addr, 2) {
            Ok(v) => Ok(v as u16),
            Err(e) => Err(e),
        }
    }

    pub fn read_u32(&self, addr: u64) -> (r: Result<u32, BusError>)
        ensures
            match self@.load(addr, 4) {
                Some(v) => r == Ok::<u32, BusError>(v as u32) && v == v as u32,
                None => r == Err::<u32, BusError>(BusError::OutOfRange { addr }),
            },
    {
        proof {
            lemma_span_of_widths();
        }
        match self.read(addr, 4) {
            Ok(v) => Ok(v as u32),
            Err(e) => Err(e),
        }
    }

    pub fn read_u64(&self, addr: u64) -> (r: Result<u64, BusError>)
        ensures
            match self@.load(addr, 8) {
                Some(v) => r == Ok::<u64, BusError>(v as u64) && v == v as u64,
                None => r == Err::<u64, BusError>(BusError::OutOfRange { addr }),
            },
    {
        self.read(addr, 8)
    }

    /// The word at `addr`, or 0 where it is not mapped.
    pub fn read_u32_or_zero(&self, addr: u64) -> (r: u32)
        ensures
            r == self@.load_or_zero(addr, 4),
    {
        match self.read_u32(addr) {
            Ok(v) => v,
            Err(_) => 0,
        }
    }

    /// The half-word at `addr`, or 0 where it is not mapped.
    pub fn read_u16_or_zero(&self, addr: u64) -> (r: u16)
        ensures
            r == self@.load_or_zero(addr, 2),
    {
        match self.read_u16(addr) {
            Ok(v) => v,
            Err(_) => 0,
        }
    }

    /// The big-endian number of `len` bytes at `addr`, or 0 where it is not mapped.
    pub fn read_be_or_zero(&self, addr: u64, len: usize) -> (r: u64)
        requires
            len <= 8,
        ensures
            r == self@.load_be_or_zero(addr, len as int),
            r < span_of(len as nat),
    {
        match self.span(addr, len) {
            Ok(at) => get_be(self.ram.as_slice(), at, len),
            Err(_) => {
                proof {
                    lemma_span_of_positive(len as nat);
                }
                0
            },
        }
    }

    /// The `len` bytes from `addr` on, read one by one, or `None` where one of them is
    /// not mapped.
    pub fn fetch(&self, addr: u64, len: usize) -> (r: Option<Vec<u8>>)
        ensures
            match self@.fetch(addr, len as int) {
                Some(data) => r is Some && r->0@ == data,
                None => r is None,
            },
    {
        let mut out: Vec<u8> = Vec::new();
        let mut i: usize = 0;
        while i < len
            invariant
                i <= len,
                out@.len() == i,
                forall|j: int|
                    0 <= j < i ==> #[trigger] self@.load(offset(addr, j), 1) is Some && out@[j]
                        == self@.load(offset(addr, j), 1)->0 as u8,
            decreases len - i,
        {
            match self.read_u8(addr.wrapping_add(i as u64)) {
                Ok(b) => {
                    proof {
                        assert(addr.wrapping_add(i as u64) == offset(addr, i as int));
                    }
                    out.push(b);
                },
                Err(_) => {
                    proof {
                        assert(addr.wrapping_add(i as u64) == offset(addr, i as int));
                        assert(self@.load(offset(addr, i as int), 1) is None);
                        assert(!self@.mapped(addr, len as int));
                    }
                    return None;
                },
            }
            i += 1;
        }
        proof {
            assert(self@.mapped(addr, len as int));
            assert(out@ =~= self@.fetch(addr, len as int)->0);
        }
        Some(out)
    }

    pub fn write_u8(&mut self, addr: u64, value: u8) -> (r: Result<(), BusError>)
        ensures
            match old(self)@.store(addr, 1, value as nat) {
                Some(next) => r == Ok::<(), BusError>(()) && final(self)@ == next,
                None => r == Err::<(), BusError>(BusError::OutOfRange { addr }) && final(self)@
                    == old(self)@,
            },
    {
        self.write(addr, 1, value as u64)
    }

    pub fn write_u16(&mut self, addr: u64, value: u16) -> (r: Result<(), BusError>)
        ensures
            match old(self)@.store(addr, 2, value as nat) {
                Some(next) => r == Ok::<(), BusError>(()) && final(self)@ == next,
                None => r == Err::<(), BusError>(BusError::OutOfRange { addr }) && final(self)@
                    == old(self)@,
            },
    {
        self.write(addr, 2, value as u64)
    }

    pub fn write_u32(&mut self, addr: u64, value: u32) -> (r: Result<(), BusError>)
        ensures
            match old(self)@.store(addr, 4, value as nat) {
                Some(next) => r == Ok::<(), BusError>(()) && final(self)@ == next,
                None => r == Err::<(), BusError>(BusError::OutOfRange { addr }) && final(self)@
                    == old(self)@,
            },
    {
        self.write(addr, 4, value as u64)
    }

    pub fn write_u64(&mut self, addr: u64, value: u64) -> (r: Result<(), BusError>)
        ensures
            match old(self)@.store(addr, 8, value as nat) {
                Some(next) => r == Ok::<(), BusError>(()) && final(self)@ == next,
                None => r == Err::<(), BusError>(BusError::OutOfRange { addr }) && final(self)@
                    == old(self)@,
            },
    {
        self.write(addr, 8, value)
    }
}

/// A write leaves everything above the extent 0, as one range or page by page.
pub proof fn law_writes_keep_ram_covered(m: MemState, addr: u64, part: Seq<u8>)
    requires
        m.covered(),
    ensures
        match m.put(addr, part) {
            Some(next) => next.covered(),
            None => true,
        },
        m.put_paged(addr, part).1.covered(),
        m.write(addr, part).1.covered(),
    decreases part.len(),
{
    if m.span(addr, part.len() as int) is Some {
        lemma_place_bounds(m, addr - RAM_BASE);
    }
    if part.len() > 0 {
        let room = PAGE - addr as int % PAGE as int;
        let chunk = if room < part.len() {
            room
        } else {
            part.len() as int
        };
        if m.span(addr, chunk) is Some {
            lemma_place_bounds(m, addr - RAM_BASE);
        }
        if let Some(next) = m.put(addr, part.take(chunk)) {
            law_writes_keep_ram_covered(next, offset(addr, chunk), part.skip(chunk));
        }
    }
}

/// A store leaves everything above the extent 0.
pub proof fn lemma_stores_keep_ram_covered(m: MemState, addr: u64, len: int, v: nat)
    requires
        m.covered(),
        0 <= len,
    ensures
        match m.store(addr, len, v) {
            Some(next) => next.covered(),
            None => true,
        },
        m.store_if_mapped(addr, len, v).covered(),
{
    law_writes_keep_ram_covered(m, addr, le_bytes(v, len as nat));
}

/// A load gives back what the last store at the same address and width wrote.
pub proof fn law_load_after_store(m: MemState, addr: u64, len: int, v: nat)
    requires
        0 <= len,
        v < span_of(len as nat),
        m.store(addr, len, v) is Some,
    ensures
        m.store(addr, len, v)->0.load(addr, len) == Some(v),
{
    lemma_le_of_le_bytes(v, len as nat);
    let next = m.store(addr, len, v)->0;
    let at = m.span(addr, len)->0;
    lemma_place_bounds(m, addr - RAM_BASE);
    lemma_place_same(m, next);
    assert(next.bytes.subrange(at, at + len) =~= le_bytes(v, len as nat));
}

/// Where an offset is stored depends on the size and the multiplier alone.
pub proof fn lemma_place_same(m: MemState, n: MemState)
    requires
        m.bytes.len() == n.bytes.len(),
        m.scramble == n.scramble,
    ensures
        forall|raw: int| #[trigger] m.place(raw) == n.place(raw),
{
    reveal(MemState::place);
}

pub proof fn lemma_place_bounds(m: MemState, raw: int)
    requires
        raw >= 0,
    ensures
        m.place(raw) >= 0,
        m.scramble is None ==> m.place(raw) == raw,
        m.place(raw) % PAGE as int == raw % PAGE as int,
{
    reveal(MemState::place);
    if m.scramble is Some && m.frames() > 0 {
        let k = m.scramble->0;
        let f = ((raw / PAGE as int) * k) % 0x1_0000_0000_0000_0000 % m.frames();
        assert(0 <= f);
    }
}

/// What is contiguous in a guest frame is contiguous in storage.
pub proof fn lemma_place_in_frame(m: MemState, raw: int, i: int)
    requires
        0 <= raw,
        0 <= i,
        m.scramble is Some ==> raw % PAGE as int + i < PAGE,
    ensures
        m.place(raw + i) == m.place(raw) + i,
{
    reveal(MemState::place);
    if m.scramble is Some {
        assert((raw + i) / PAGE as int == raw / PAGE as int);
        assert((raw + i) % PAGE as int == raw % PAGE as int + i);
    }
}

/// A store changes no byte outside the range it covers: a load whose storage range
/// is disjoint from the store's sees what it saw before. Without stress mode the
/// ranges are disjoint exactly when the addresses are.
pub proof fn law_store_keeps_the_rest(
    m: MemState,
    addr: u64,
    len: int,
    v: nat,
    other: u64,
    width: int,
)
    requires
        0 <= len,
        0 <= width,
        m.store(addr, len, v) is Some,
        match (m.span(addr, len), m.span(other, width)) {
            (Some(a), Some(b)) => a + len <= b || b + width <= a,
            _ => true,
        },
    ensures
        m.store(addr, len, v)->0.load(other, width) == m.load(other, width),
        m.scramble is None && m.span(other, width) is Some ==> (addr + len <= other || other + width
            <= addr <==> m.span(addr, len)->0 + len <= m.span(other, width)->0 || m.span(
            other,
            width,
        )->0 + width <= m.span(addr, len)->0),
{
    lemma_le_of_le_bytes(v, len as nat);
    let next = m.store(addr, len, v)->0;
    lemma_place_bounds(m, addr - RAM_BASE);
    lemma_place_same(m, next);
    if let Some(b) = m.span(other, width) {
        lemma_place_bounds(m, other - RAM_BASE);
        assert(next.bytes.subrange(b, b + width) =~= m.bytes.subrange(b, b + width));
    }
}

/// The greatest common divisor is a combination of the two numbers.
proof fn lemma_bezout(a: nat, b: nat) -> (r: (int, int))
    ensures
        r.0 * a + r.1 * b == gcd_of(a, b),
    decreases b,
{
    if b == 0 {
        assert(1 * a + 0 * b == a) by (nonlinear_arith);
        (1, 0)
    } else {
        let (x, y) = lemma_bezout(b, a % b);
        let q = a as int / b as int;
        assert(a == q * b + a % b) by (nonlinear_arith)
            requires
                q == a as int / b as int,
                b > 0,
        ;
        assert(y * a + (x - q * y) * b == x * b + y * (a % b)) by (nonlinear_arith)
            requires
                a == q * b + a % b,
        ;
        (y, x - q * y)
    }
}

/// Stress mode moves frames about and merges none: on a machine small enough for the
/// multiplication not to wrap, two guest frames never share a storage frame.
pub proof fn law_scramble_is_injective(m: MemState, f: int, g: int)
    requires
        m.scramble is Some,
        gcd_of(m.scramble->0 as nat, m.frames() as nat) == 1,
        0 <= f < m.frames(),
        0 <= g < m.frames(),
        m.frames() * m.scramble->0 <= u64::MAX,
        m.place(f * PAGE) == m.place(g * PAGE),
    ensures
        f == g,
{
    reveal(MemState::place);
    let k = m.scramble->0 as int;
    let n = m.frames();
    assert(f * PAGE / PAGE as int == f && f * PAGE % PAGE as int == 0);
    assert(g * PAGE / PAGE as int == g && g * PAGE % PAGE as int == 0);
    assert(0 <= f * k <= n * k && 0 <= g * k <= n * k) by (nonlinear_arith)
        requires
            0 <= f < n,
            0 <= g < n,
            0 <= k,
    ;
    vstd::arithmetic::div_mod::lemma_small_mod((f * k) as nat, 0x1_0000_0000_0000_0000);
    vstd::arithmetic::div_mod::lemma_small_mod((g * k) as nat, 0x1_0000_0000_0000_0000);
    let s = (f * k) % n;
    assert(s == (g * k) % n);
    let (u, v) = lemma_bezout(k as nat, n as nat);
    let qf = (f * k) / n;
    let qg = (g * k) / n;
    vstd::arithmetic::div_mod::lemma_fundamental_div_mod(f * k, n);
    vstd::arithmetic::div_mod::lemma_fundamental_div_mod(g * k, n);
    let t = u * (qf - qg) + v * (f - g);
    let d = f - g;
    assert(d * k == n * (qf - qg)) by (nonlinear_arith)
        requires
            d == f - g,
            f * k == n * qf + s,
            g * k == n * qg + s,
    ;
    assert(d == u * (d * k) + (v * d) * n) by (nonlinear_arith)
        requires
            u * k + v * n == 1,
    ;
    assert(u * (n * (qf - qg)) + (v * d) * n == n * t) by (nonlinear_arith)
        requires
            t == u * (qf - qg) + v * d,
    ;
    assert(t == 0) by (nonlinear_arith)
        requires
            f - g == n * t,
            -n < f - g < n,
            n > 0,
    ;
    assert(n * t == 0) by (nonlinear_arith)
        requires
            t == 0,
    ;
}

/// The largest RAM for which the frame multiplication cannot wrap: 16 TiB.
pub const SCRAMBLE_LIMIT: u64 = 0x1000_0000_0000;

/// Whether RAM is whole frames and, in stress mode, its multiplier is one that
/// [`Memory::set_scramble`] picks.
pub open spec fn well_scrambled(m: MemState) -> bool {
    &&& m.bytes.len() % PAGE as nat == 0
    &&& m.bytes.len() <= SCRAMBLE_LIMIT
    &&& match m.scramble {
        Some(k) => k < m.frames() && gcd_of(k as nat, m.frames() as nat) == 1,
        None => true,
    }
}

/// Stress mode moves bytes about within RAM, and no two guest bytes share a cell.
pub proof fn law_scrambled_bytes_share_no_cell(m: MemState, a: int, b: int)
    requires
        well_scrambled(m),
        0 <= a < m.bytes.len(),
        0 <= b < m.bytes.len(),
    ensures
        0 <= m.place(a) < m.bytes.len(),
        a != b ==> m.place(a) != m.place(b),
{
    reveal(MemState::place);
    if let Some(k) = m.scramble {
        let n = m.frames();
        let f = a / PAGE as int;
        let g = b / PAGE as int;
        assert(0 <= f < n && 0 <= g < n);
        assert(n * k <= u64::MAX) by (nonlinear_arith)
            requires
                0 <= k < n,
                n <= 0x1_0000_0000,
        ;
        let sf = (f * k) % 0x1_0000_0000_0000_0000 % n;
        let sg = (g * k) % 0x1_0000_0000_0000_0000 % n;
        assert(0 <= sf < n);
        assert(0 <= sg < n);
        assert(f * PAGE / PAGE as int == f && f * PAGE % PAGE as int == 0);
        assert(g * PAGE / PAGE as int == g && g * PAGE % PAGE as int == 0);
        if m.place(a) == m.place(b) {
            assert(sf == sg);
            law_scramble_is_injective(m, f, g);
        }
    }
}

/// What is written to a byte is read back after another byte was written, and a byte is
/// mapped in stress mode exactly where it is without.
pub proof fn law_scrambled_bytes_are_read_back(m: MemState, a: u64, b: u64, x: u8, y: u8)
    requires
        well_scrambled(m),
        a != b,
        RAM_BASE <= a < RAM_BASE + m.bytes.len(),
        RAM_BASE <= b < RAM_BASE + m.bytes.len(),
    ensures
        ({
            let both = m.store(a, 1, x as nat)->0.store(b, 1, y as nat)->0;
            &&& m.store(a, 1, x as nat) is Some
            &&& m.store(a, 1, x as nat)->0.store(b, 1, y as nat) is Some
            &&& both.load(a, 1) == Some(x as nat)
            &&& both.load(b, 1) == Some(y as nat)
        }),
{
    lemma_span_of_widths();
    law_scrambled_bytes_share_no_cell(m, a - RAM_BASE, b - RAM_BASE);
    law_scrambled_bytes_share_no_cell(m, b - RAM_BASE, a - RAM_BASE);
    lemma_le_of_le_bytes(x as nat, 1);
    lemma_le_of_le_bytes(y as nat, 1);
    let one = m.store(a, 1, x as nat)->0;
    lemma_place_same(m, one);
    law_load_after_store(m, a, 1, x as nat);
    law_load_after_store(one, b, 1, y as nat);
    law_store_keeps_the_rest(one, b, 1, y as nat, a, 1);
}

/// Outside RAM no byte is mapped, in stress mode or without.
pub proof fn law_scramble_maps_no_other_byte(m: MemState, a: u64)
    requires
        !(RAM_BASE <= a < RAM_BASE + m.bytes.len()),
    ensures
        m.load(a, 1) is None,
{
}

/// The multiplier depends on the number of frames alone: two memories of one size are
/// scrambled alike.
pub proof fn law_scramble_is_deterministic(n: u64, j: u64, k: u64)
    requires
        j % 2 == 1 && k % 2 == 1,
        first_multiplier(n) <= j && first_multiplier(n) <= k,
        gcd_of(j as nat, n as nat) == 1 && gcd_of(k as nat, n as nat) == 1,
        forall|i: int|
            first_multiplier(n) <= i < j && i % 2 == 1 ==> #[trigger] gcd_of(i as nat, n as nat)
                != 1,
        forall|i: int|
            first_multiplier(n) <= i < k && i % 2 == 1 ==> #[trigger] gcd_of(i as nat, n as nat)
                != 1,
    ensures
        j == k,
{
    let a: int = j as int;
    let b: int = k as int;
    assert(gcd_of(a as nat, n as nat) == 1);
    assert(gcd_of(b as nat, n as nat) == 1);
    assert(a % 2 == 1 && b % 2 == 1);
}

/// Two bytes of RAM are stored in RAM, and apart.
proof fn lemma_apart(m: MemState, a: int, b: int)
    requires
        m.scramble is Some ==> well_scrambled(m),
        0 <= a < m.bytes.len(),
        0 <= b < m.bytes.len(),
    ensures
        0 <= m.place(a) < m.bytes.len(),
        a != b ==> m.place(a) != m.place(b),
{
    if m.scramble is Some {
        law_scrambled_bytes_share_no_cell(m, a, b);
    } else {
        lemma_place_bounds(m, a);
        lemma_place_bounds(m, b);
    }
}

proof fn lemma_loaded_byte(m: MemState, a: u64)
    requires
        m.scramble is Some ==> well_scrambled(m),
        RAM_BASE <= a < RAM_BASE + m.bytes.len(),
    ensures
        m.load(a, 1) == Some(m.bytes[m.place(a - RAM_BASE)] as nat),
{
    let raw = a - RAM_BASE;
    lemma_apart(m, raw, raw);
    let at = m.place(raw);
    let s = m.bytes.subrange(at, at + 1);
    assert(s.drop_first() =~= Seq::<u8>::empty());
    assert(le(s.drop_first()) == 0);
    assert(le(s) == s[0]);
}

/// What is written in one piece is where it was written, and nothing else changes.
proof fn lemma_put(m: MemState, addr: u64, part: Seq<u8>, a: u64)
    requires
        m.scramble is Some ==> well_scrambled(m) && part.len() > 0 && addr as int % PAGE as int
            + part.len() <= PAGE,
        RAM_BASE <= addr,
        addr - RAM_BASE + part.len() <= m.bytes.len(),
        RAM_BASE <= a < RAM_BASE + m.bytes.len(),
    ensures
        m.put(addr, part) is Some,
        ({
            let after = m.put(addr, part)->0;
            &&& after.bytes.len() == m.bytes.len()
            &&& after.scramble == m.scramble
            &&& after.load(a, 1) == if addr <= a < addr + part.len() {
                Some(part[a - addr] as nat)
            } else {
                m.load(a, 1)
            }
        }),
{
    let raw = addr - RAM_BASE;
    let p = a - RAM_BASE;
    let n = part.len() as int;
    assert(raw % PAGE as int == addr as int % PAGE as int);
    let at = m.place(raw);
    lemma_place_bounds(m, raw);
    if n > 0 {
        lemma_place_in_frame(m, raw, n - 1);
        lemma_apart(m, raw + n - 1, raw);
    }
    let after = m.put(addr, part)->0;
    lemma_place_same(m, after);
    lemma_apart(m, p, p);
    lemma_loaded_byte(m, a);
    lemma_loaded_byte(after, a);
    if raw <= p < raw + n {
        lemma_place_in_frame(m, raw, p - raw);
    } else if at <= m.place(p) < at + n {
        let k = m.place(p) - at;
        lemma_place_in_frame(m, raw, k);
        lemma_apart(m, p, raw + k);
    }
}

proof fn lemma_put_paged(m: MemState, addr: u64, part: Seq<u8>, a: u64)
    requires
        well_scrambled(m),
        m.scramble is Some,
        RAM_BASE <= addr,
        addr - RAM_BASE + part.len() <= m.bytes.len(),
        RAM_BASE <= a < RAM_BASE + m.bytes.len(),
    ensures
        m.put_paged(addr, part).0 is None,
        ({
            let after = m.put_paged(addr, part).1;
            &&& after.bytes.len() == m.bytes.len()
            &&& after.scramble == m.scramble
            &&& after.load(a, 1) == if addr <= a < addr + part.len() {
                Some(part[a - addr] as nat)
            } else {
                m.load(a, 1)
            }
        }),
    decreases part.len(),
{
    if part.len() > 0 {
        let room = PAGE - addr as int % PAGE as int;
        let chunk = if room < part.len() {
            room
        } else {
            part.len() as int
        };
        lemma_put(m, addr, part.take(chunk), a);
        let next = m.put(addr, part.take(chunk))->0;
        let on = offset(addr, chunk);
        assert(on == addr + chunk);
        lemma_put_paged(next, on, part.skip(chunk), a);
    }
}

/// A bulk write is read back byte by byte, in stress mode as without, and every other byte is as
/// it was.
pub proof fn law_a_bulk_write_is_read_back(m: MemState, addr: u64, part: Seq<u8>, a: u64)
    requires
        m.scramble is Some ==> well_scrambled(m),
        RAM_BASE <= addr,
        addr - RAM_BASE + part.len() <= m.bytes.len(),
        RAM_BASE <= a < RAM_BASE + m.bytes.len(),
    ensures
        m.write(addr, part).0 is None,
        m.write(addr, part).1.load(a, 1) == if addr <= a < addr + part.len() {
            Some(part[a - addr] as nat)
        } else {
            m.load(a, 1)
        },
{
    if m.scramble is Some {
        lemma_put_paged(m, addr, part, a);
    } else {
        lemma_put(m, addr, part, a);
    }
}

/// A bulk write that does not fit in RAM is refused where it stops fitting: without stress mode
/// nothing of it is written.
pub proof fn law_a_bulk_write_past_ram_is_refused(m: MemState, addr: u64, part: Seq<u8>)
    requires
        m.scramble is None,
        addr < RAM_BASE || addr - RAM_BASE + part.len() > m.bytes.len(),
    ensures
        m.write(addr, part) == (Some(addr), m),
{
}

} // verus!
