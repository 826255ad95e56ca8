//! Numeric, register and PC-offset operands.
use vstd::prelude::*;

verus! {

/// The value of one digit character in the given radix (at most 36), if it is one.
pub open spec fn digit_value(c: char, radix: nat) -> Option<nat> {
    let u = c as u32 as int;
    let d: int = if '0' as u32 <= u <= '9' as u32 {
        u - '0' as u32
    } else if 'a' as u32 <= u <= 'z' as u32 {
        u - 'a' as u32 + 10
    } else if 'A' as u32 <= u <= 'Z' as u32 {
        u - 'A' as u32 + 10
    } else {
        36
    };
    if d < radix {
        Some(d as nat)
    } else {
        None
    }
}

/// The value of a run of digits, most significant first; the empty run is zero.
pub open spec fn digits_value(s: Seq<char>, radix: nat) -> Option<nat>
    decreases s.len(),
{
    if s.len() == 0 {
        Some(0)
    } else {
        match (digits_value(s.drop_last(), radix), digit_value(s.last(), radix)) {
            (Some(a), Some(d)) => Some(a * radix + d),
            _ => None,
        }
    }
}

/// An integer written as an optional `+` or `-` followed by at least one digit.
pub open spec fn signed_value(s: Seq<char>, radix: nat) -> Option<int> {
    if s.len() == 0 {
        None
    } else if s[0] == '-' || s[0] == '+' {
        if s.len() == 1 {
            None
        } else {
            match digits_value(s.drop_first(), radix) {
                Some(v) => Some(if s[0] == '-' { -v } else { v as int }),
                None => None,
            }
        }
    } else {
        match digits_value(s, radix) {
            Some(v) => Some(v as int),
            None => None,
        }
    }
}

pub open spec fn in_i64(v: int) -> bool {
    i64::MIN <= v <= i64::MAX
}

/// A signed integer in the given radix that fits in an `i64`.
pub open spec fn signed_i64(s: Seq<char>, radix: nat) -> Option<int> {
    match signed_value(s, radix) {
        Some(v) => if in_i64(v) {
            Some(v)
        } else {
            None
        },
        None => None,
    }
}

/// The value of a number literal: decimal, `#` and decimal, or `x`/`X` and hex.
pub open spec fn literal_value(s: Seq<char>) -> Option<int> {
    if signed_i64(s, 10) is Some {
        signed_i64(s, 10)
    } else if s.len() > 0 && s[0] == '#' {
        signed_i64(s.drop_first(), 10)
    } else if s.len() > 0 && (s[0] == 'x' || s[0] == 'X') {
        signed_i64(s.drop_first(), 16)
    } else {
        None
    }
}

/// The value of a register literal: `r` or `R` followed by a hex number.
pub open spec fn register_value(s: Seq<char>) -> Option<int> {
    if s.len() > 0 && (s[0] == 'r' || s[0] == 'R') {
        signed_i64(s.drop_first(), 16)
    } else {
        None
    }
}

/// What a PC-relative operand refers to.
pub ghost enum PcTargetView {
    Symbol(Seq<char>),
    Offset(int),
}

/// A PC-relative operand: a decimal or `#` literal is an offset, anything
/// else names a label. `None` where a `#` is not followed by a number.
pub open spec fn pc_target(s: Seq<char>) -> Option<PcTargetView> {
    if signed_i64(s, 10) is Some {
        Some(PcTargetView::Offset(signed_i64(s, 10).unwrap()))
    } else if s.len() > 0 && s[0] == '#' {
        match signed_i64(s.drop_first(), 10) {
            Some(v) => Some(PcTargetView::Offset(v)),
            None => None,
        }
    } else {
        Some(PcTargetView::Symbol(s))
    }
}

/// The text is not a literal of the expected form.
#[derive(Clone, Copy, Debug, PartialEq, Eq, Structural)]
pub struct InvalidLiteral;

/// The target of a PC-relative operand.
#[derive(Debug)]
pub enum PCOffsetTarget {
    Symbol(String),
    ExplicitOffset(i64),
}

impl View for PCOffsetTarget {
    type V = PcTargetView;

    open spec fn view(&self) -> PcTargetView {
        match self {
            PCOffsetTarget::Symbol(s) => PcTargetView::Symbol(s@),
            PCOffsetTarget::ExplicitOffset(v) => PcTargetView::Offset(*v as int),
        }
    }
}

proof fn lemma_digits_prefix(s: Seq<char>, radix: nat, k: int)
    requires
        0 <= k <= s.len(),
        radix >= 1,
        digits_value(s, radix) is Some,
    ensures
        digits_value(s.take(k), radix) is Some,
        digits_value(s.take(k), radix).unwrap() <= digits_value(s, radix).unwrap(),
    decreases s.len(),
{
    if k == s.len() {
        assert(s.take(k) =~= s);
    } else {
        let a = digits_value(s.drop_last(), radix).unwrap();
        let d = digit_value(s.last(), radix).unwrap();
        lemma_digits_prefix(s.drop_last(), radix, k);
        assert(s.drop_last().take(k) =~= s.take(k));
        assert(a * radix + d >= a) by (nonlinear_arith)
            requires
                radix >= 1,
                d >= 0,
                a >= 0,
        ;
    }
}

fn digit_of(c: char, radix: u32) -> (r: Option<u64>)
    requires
        2 <= radix <= 36,
    ensures
        r is Some <==> digit_value(c, radix as nat) is Some,
        r is Some ==> r.unwrap() == digit_value(c, radix as nat).unwrap(),
{
    let u = c as u32;
    let d: u32 = if '0' as u32 <= u && u <= '9' as u32 {
        u - '0' as u32
    } else if 'a' as u32 <= u && u <= 'z' as u32 {
        u - 'a' as u32 + 10
    } else if 'A' as u32 <= u && u <= 'Z' as u32 {
        u - 'A' as u32 + 10
    } else {
        36
    };
    if d < radix {
        Some(d as u64)
    } else {
        None
    }
}

/// Parses the characters of `s` from `start` on as a signed integer.
fn parse_signed_from(s: &str, start: usize, radix: u32) -> (r: Option<i64>)
    requires
        2 <= radix <= 36,
        start <= s@.len(),
    ensures
        r is Some <==> signed_i64(s@.skip(start as int), radix as nat) is Some,
        r is Some ==> r.unwrap() as int == signed_i64(s@.skip(start as int), radix as nat).unwrap(),
{
    let ghost t = s@.skip(start as int);
    let len = s.unicode_len();
    if start == len {
        return None;
    }
    let first = s.get_char(start);
    let negative = first == '-';
    let mut i: usize = start;
    if first == '-' || first == '+' {
        if start + 1 == len {
            return None;
        }
        i = start + 1;
    }
    let ghost digits = s@.skip(i as int);
    assert(first == '-' || first == '+' ==> digits =~= t.drop_first());
    assert(!(first == '-' || first == '+') ==> digits =~= t);
    assert(t[0] == first);
    let digit_start = i;
    let mut acc: u64 = 0;
    while i < len
        invariant
            digit_start <= i <= len,
            len == s@.len(),
            digits == s@.skip(digit_start as int),
            2 <= radix <= 36,
            digits_value(digits.take(i - digit_start), radix as nat) == Some(acc as nat),
            t == s@.skip(start as int),
            signed_value(t, radix as nat) == match digits_value(digits, radix as nat) {
                Some(v) => Some(if negative { -v } else { v as int }),
                None => None,
            },
        decreases len - i,
    {
        let c = s.get_char(i);
        assert(digits.take(i + 1 - digit_start).drop_last() =~= digits.take(i - digit_start));
        assert(digits.take(i + 1 - digit_start).last() == c);
        match digit_of(c, radix) {
            None => {
                proof {
                    let k = i + 1 - digit_start;
                    if digits_value(digits, radix as nat) is Some {
                        lemma_digits_prefix(digits, radix as nat, k);
                    }
                }
                return None;
            },
            Some(d) => {
                let next = acc.checked_mul(radix as u64);
                match next {
                    None => {
                        proof {
                            if digits_value(digits, radix as nat) is Some {
                                lemma_digits_prefix(digits, radix as nat, i + 1 - digit_start);
                                assert(acc * radix + d > u64::MAX) by (nonlinear_arith)
                                    requires
                                        acc * radix > u64::MAX,
                                        d >= 0,
                                ;
                            }
                        }
                        return None;
                    },
                    Some(m) => match m.checked_add(d) {
                        None => {
                            proof {
                                if digits_value(digits, radix as nat) is Some {
                                    lemma_digits_prefix(digits, radix as nat, i + 1 - digit_start);
                                }
                            }
                            return None;
                        },
                        Some(v) => {
                            acc = v;
                        },
                    },
                }
            },
        }
        i = i + 1;
    }
    assert(digits.take(len - digit_start) =~= digits);
    if negative {
        if acc <= 0x8000_0000_0000_0000u64 {
            if acc == 0x8000_0000_0000_0000u64 {
                Some(i64::MIN)
            } else {
                Some(-(acc as i64))
            }
        } else {
            None
        }
    } else if acc <= i64::MAX as u64 {
        Some(acc as i64)
    } else {
        None
    }
}

/// Parses a number literal: decimal (with an optional sign), `#` followed by
/// a decimal, or `x`/`X` followed by a hexadecimal number.
pub fn parse_number_literal(s: &str) -> (r: Result<i64, InvalidLiteral>)
    ensures
        r is Ok <==> literal_value(s@) is Some,
        r is Ok ==> r.unwrap() as int == literal_value(s@).unwrap(),
{
    assert(s@.skip(0) =~= s@);
    match parse_signed_from(s, 0, 10) {
        Some(v) => Ok(v),
        None => {
            let len = s.unicode_len();
            if len == 0 {
                return Err(InvalidLiteral);
            }
            assert(s@.skip(1) =~= s@.drop_first());
            let first = s.get_char(0);
            let r = if first == '#' {
                parse_signed_from(s, 1, 10)
            } else if first == 'x' || first == 'X' {
                parse_signed_from(s, 1, 16)
            } else {
                None
            };
            match r {
                Some(v) => Ok(v),
                None => Err(InvalidLiteral),
            }
        },
    }
}

/// Parses a register literal: `r` or `R` followed by a hexadecimal number.
pub fn parse_register_literal(s: &str) -> (r: Result<i64, InvalidLiteral>)
    ensures
        r is Ok <==> register_value(s@) is Some,
        r is Ok ==> r.unwrap() as int == register_value(s@).unwrap(),
{
    let len = s.unicode_len();
    if len == 0 {
        return Err(InvalidLiteral);
    }
    assert(s@.skip(1) =~= s@.drop_first());
    let first = s.get_char(0);
    if first == 'r' || first == 'R' {
        match parse_signed_from(s, 1, 16) {
            Some(v) => Ok(v),
            None => Err(InvalidLiteral),
        }
    } else {
        Err(InvalidLiteral)
    }
}

/// Classifies a PC-relative operand as an explicit offset or a label.
pub fn parse_pc_pair(s: &str) -> (r: Result<PCOffsetTarget, InvalidLiteral>)
    ensures
        r is Ok <==> pc_target(s@) is Some,
        r is Ok ==> r.unwrap()@ == pc_target(s@).unwrap(),
{
    assert(s@.skip(0) =~= s@);
    match parse_signed_from(s, 0, 10) {
        Some(v) => Ok(PCOffsetTarget::ExplicitOffset(v)),
        None => {
            let len = s.unicode_len();
            if len > 0 && s.get_char(0) == '#' {
                assert(s@.skip(1) =~= s@.drop_first());
                match parse_signed_from(s, 1, 10) {
                    Some(v) => Ok(PCOffsetTarget::ExplicitOffset(v)),
                    None => Err(InvalidLiteral),
                }
            } else {
                Ok(PCOffsetTarget::Symbol(s.to_owned()))
            }
        },
    }
}

} // verus!
