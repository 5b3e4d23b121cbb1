//! Text built by hand: decimal numbers, and the messages errors are reported with.

use vstd::prelude::*;
use vstd::string::*;
use crate::cpu::StepError;
use crate::mem::BusError;

verus! {

/// The decimal digits of `n`, as ASCII codes.
pub open spec fn decimal(n: nat) -> Seq<u8>
    decreases n,
{
    if n < 10 {
        seq![(0x30 + n) as u8]
    } else {
        decimal(n / 10).push((0x30 + n % 10) as u8)
    }
}

/// Whether two texts are the same.
pub fn same_text(a: &str, b: &str) -> (r: bool)
    ensures
        r == (a@ == b@),
{
    let x: &[u8] = a.as_bytes();
    let y: &[u8] = b.as_bytes();
    proof {
        vstd::utf8::encode_utf8_decode_utf8(a@);
        vstd::utf8::encode_utf8_decode_utf8(b@);
    }
    if x.len() != y.len() {
        return false;
    }
    proof {
        assert(x@.subrange(0, y@.len() as int) =~= x@);
    }
    crate::machine::starts_with(x, 0, y)
}

/// ASCII codes as characters.
pub open spec fn ascii(s: Seq<u8>) -> Seq<char> {
    Seq::new(s.len(), |i: int| s[i] as char)
}

/// Append the decimal digits of `n` to `out`.
pub fn push_decimal(out: &mut Vec<u8>, n: u64)
    ensures
        final(out)@ == old(out)@ + decimal(n as nat),
    decreases n,
{
    if n >= 10 {
        push_decimal(out, n / 10);
    }
    let digit: u8 = 0x30 + (n % 10) as u8;
    out.push(digit);
    proof {
        assert(out@ =~= old(out)@ + decimal(n as nat));
    }
}

/// A decimal digit, as text.
fn digit_text(d: u64) -> (r: &'static str)
    requires
        d < 10,
    ensures
        r@ == seq![((0x30 + d) as u8) as char],
{
    proof {
        reveal_strlit("0");
        reveal_strlit("1");
        reveal_strlit("2");
        reveal_strlit("3");
        reveal_strlit("4");
        reveal_strlit("5");
        reveal_strlit("6");
        reveal_strlit("7");
        reveal_strlit("8");
        reveal_strlit("9");
    }
    let r: &'static str = if d == 0 {
        "0"
    } else if d == 1 {
        "1"
    } else if d == 2 {
        "2"
    } else if d == 3 {
        "3"
    } else if d == 4 {
        "4"
    } else if d == 5 {
        "5"
    } else if d == 6 {
        "6"
    } else if d == 7 {
        "7"
    } else if d == 8 {
        "8"
    } else {
        "9"
    };
    proof {
        assert(r@ =~= seq![((0x30 + d) as u8) as char]);
    }
    r
}

/// Append the decimal digits of `n` to a string.
pub fn append_decimal(out: &mut String, n: u64)
    ensures
        final(out)@ == old(out)@ + ascii(decimal(n as nat)),
    decreases n,
{
    if n >= 10 {
        append_decimal(out, n / 10);
    }
    out.append(digit_text(n % 10));
    proof {
        assert(out@ =~= old(out)@ + ascii(decimal(n as nat)));
    }
}

/// The text of a bus error.
pub open spec fn bus_error_text(e: BusError) -> Seq<char> {
    match e {
        BusError::OutOfRange { addr } => "OutOfRange { addr: "@ + ascii(decimal(addr as nat))
            + " }"@,
    }
}

/// The text of a step error.
pub open spec fn step_error_text(e: StepError) -> Seq<char> {
    match e {
        StepError::Bus(b) => "Bus("@ + bus_error_text(b) + ")"@,
        StepError::Unimplemented { pc, instr } => "Unimplemented { pc: "@ + ascii(
            decimal(pc as nat),
        ) + ", instr: "@ + ascii(decimal(instr as nat)) + " }"@,
        StepError::UnknownCsr { pc, addr } => "UnknownCsr { pc: "@ + ascii(decimal(pc as nat))
            + ", addr: "@ + ascii(decimal(addr as nat)) + " }"@,
        StepError::PageFault { va } => "PageFault { va: "@ + ascii(decimal(va as nat)) + " }"@,
    }
}

/// Append the text of a bus error.
pub fn append_bus_error(out: &mut String, e: BusError)
    ensures
        final(out)@ == old(out)@ + bus_error_text(e),
{
    match e {
        BusError::OutOfRange { addr } => {
            out.append("OutOfRange { addr: ");
            append_decimal(out, addr);
            out.append(" }");
        },
    }
    proof {
        assert(out@ =~= old(out)@ + bus_error_text(e));
    }
}

/// Append the text of a step error.
pub fn append_step_error(out: &mut String, e: StepError)
    ensures
        final(out)@ == old(out)@ + step_error_text(e),
{
    match e {
        StepError::Bus(b) => {
            out.append("Bus(");
            append_bus_error(out, b);
            out.append(")");
        },
        StepError::Unimplemented { pc, instr } => {
            out.append("Unimplemented { pc: ");
            append_decimal(out, pc);
            out.append(", instr: ");
            append_decimal(out, instr as u64);
            out.append(" }");
        },
        StepError::UnknownCsr { pc, addr } => {
            out.append("UnknownCsr { pc: ");
            append_decimal(out, pc);
            out.append(", addr: ");
            append_decimal(out, addr as u64);
            out.append(" }");
        },
        StepError::PageFault { va } => {
            out.append("PageFault { va: ");
            append_decimal(out, va);
            out.append(" }");
        },
    }
    proof {
        assert(out@ =~= old(out)@ + step_error_text(e));
    }
}

/// The text of a step error.
pub fn describe_step_error(e: StepError) -> (r: String)
    ensures
        r@ == step_error_text(e),
{
    let mut out: String = String::new();
    append_step_error(&mut out, e);
    proof {
        assert(out@ =~= step_error_text(e));
    }
    out
}

/// The number that decimal digits spell.
pub open spec fn spelled(digits: Seq<u8>) -> int
    decreases digits.len(),
{
    if digits.len() == 0 {
        0
    } else {
        10 * spelled(digits.drop_last()) + (digits.last() - 0x30)
    }
}

/// Decimal digits are ASCII digits that spell the number, without a zero in front.
pub proof fn law_decimal_digits_spell_the_number(n: nat)
    ensures
        spelled(decimal(n)) == n,
        decimal(n).len() >= 1,
        forall|i: int| 0 <= i < decimal(n).len() ==> 0x30 <= #[trigger] decimal(n)[i] <= 0x39,
        n > 0 ==> decimal(n)[0] != 0x30,
    decreases n,
{
    if n < 10 {
        assert(decimal(n).drop_last() =~= Seq::<u8>::empty());
        assert(spelled(decimal(n).drop_last()) == 0);
    } else {
        law_decimal_digits_spell_the_number(n / 10);
        assert(decimal(n).drop_last() =~= decimal(n / 10));
    }
}

} // verus!
