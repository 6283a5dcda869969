//! Sizes written as a number and a unit, such as `4MiB`.

use vstd::prelude::*;
use vstd::string::StringSliceAdditionalSpecFns;

verus! {

/// The number of bytes that the unit `kb` stands for.
pub const KB: usize = 1_000;

/// The number of bytes that the unit `kib` stands for.
pub const KIB: usize = 1_024;

/// The number of bytes that the unit `mb` stands for.
pub const MB: usize = 1_000_000;

/// The number of bytes that the unit `mib` stands for.
pub const MIB: usize = 2_097_152;

/// Whether `b` is a decimal digit.
pub open spec fn is_digit(b: u8) -> bool {
    0x30 <= b <= 0x39
}

/// Where the digits that `b` starts with end, looked for from `i` on.
pub open spec fn digits_end(b: Seq<u8>, i: int) -> int
    decreases b.len() - i,
{
    if i < 0 || i >= b.len() || !is_digit(b[i]) {
        i
    } else {
        digits_end(b, i + 1)
    }
}

/// The number that the first `n` bytes of `b`, which are digits, spell.
pub open spec fn decimal(b: Seq<u8>, n: int) -> int
    decreases n,
{
    if n <= 0 {
        0
    } else {
        10 * decimal(b, n - 1) + (b[n - 1] - 0x30)
    }
}

/// Whether `u` starts with the letter `k`, small or capital, at `i`; the
/// Kelvin sign counts as a capital `k`. Answers with the number of bytes
/// of the letter.
pub open spec fn letter_k(u: Seq<u8>, i: int) -> Option<int> {
    if i < u.len() && (u[i] == 0x6b || u[i] == 0x4b) {
        Some(1)
    } else if i + 2 < u.len() && u[i] == 0xe2 && u[i + 1] == 0x84 && u[i + 2] == 0xaa {
        Some(3)
    } else {
        None
    }
}

/// Whether the byte `b` is the letter `small`, small or capital.
pub open spec fn is_letter(b: u8, small: u8) -> bool {
    b == small || b + 32 == small
}

/// Whether `u` is, from `i` on, `b` or `ib`, in small or capital letters,
/// and whether it is `ib`.
pub open spec fn tail_kind(u: Seq<u8>, i: int) -> Option<bool> {
    if u.len() == i + 1 && is_letter(u[i], 0x62) {
        Some(false)
    } else if u.len() == i + 2 && is_letter(u[i], 0x69) && is_letter(u[i + 1], 0x62) {
        Some(true)
    } else {
        None
    }
}

/// The number of bytes that the unit `u` stands for, if it is one of
/// `kb`, `kib`, `mb` and `mib`, in small or capital letters.
pub open spec fn unit_factor(u: Seq<u8>) -> Option<int> {
    match letter_k(u, 0) {
        Some(n) => match tail_kind(u, n) {
            Some(false) => Some(KB as int),
            Some(true) => Some(KIB as int),
            None => None,
        },
        None => if u.len() > 0 && is_letter(u[0], 0x6d) {
            match tail_kind(u, 1) {
                Some(false) => Some(MB as int),
                Some(true) => Some(MIB as int),
                None => None,
            }
        } else {
            None
        },
    }
}

/// The number of bytes that `text` stands for: the number that it starts
/// with, times what its unit stands for. A text without digits at its
/// start, or without a unit behind them, stands for nothing.
pub open spec fn size_of(text: Seq<u8>) -> Option<int> {
    let n = digits_end(text, 0);
    if n == 0 {
        None
    } else {
        match unit_factor(text.subrange(n, text.len() as int)) {
            Some(f) => Some(decimal(text, n) * f),
            None => None,
        }
    }
}

/// The number that digits spell grows with every digit.
pub proof fn lemma_decimal_grows(b: Seq<u8>, k: int, n: int)
    requires
        0 <= k <= n <= b.len(),
        forall|i: int| 0 <= i < n ==> is_digit(b[i]),
    ensures
        0 <= decimal(b, k) <= decimal(b, n),
    decreases n,
{
    if n > 0 {
        if k < n {
            lemma_decimal_grows(b, k, n - 1);
        } else {
            lemma_decimal_grows(b, k - 1, n - 1);
        }
    }
}

// Whether the byte `b` is the letter `small`, small or capital.
fn letter(b: u8, small: u8) -> (r: bool)
    requires
        0x61 <= small <= 0x7a,
    ensures
        r == is_letter(b, small),
{
    b == small || (b <= 0x5a && b + 32 == small)
}

// The number of bytes that the unit `u` stands for.
fn factor(u: &[u8]) -> (r: Option<usize>)
    ensures
        r is Some == unit_factor(u@) is Some,
        r matches Some(f) ==> unit_factor(u@) == Some(f as int) && f >= 1,
{
    let n = u.len();
    let (at, kilo): (usize, bool) = if n > 0 && (u[0] == 0x6b || u[0] == 0x4b) {
        (1, true)
    } else if n > 2 && u[0] == 0xe2 && u[1] == 0x84 && u[2] == 0xaa {
        (3, true)
    } else if n > 0 && letter(u[0], 0x6d) {
        (1, false)
    } else {
        return None;
    };
    let binary = if n == at + 1 && letter(u[at], 0x62) {
        false
    } else if n == at + 2 && letter(u[at], 0x69) && letter(u[at + 1], 0x62) {
        true
    } else {
        return None;
    };
    Some(
        match (kilo, binary) {
            (true, false) => KB,
            (true, true) => KIB,
            (false, false) => MB,
            (false, true) => MIB,
        },
    )
}

/// The number of bytes that `s` stands for: a decimal number and one of
/// the units `kb` (1000), `kib` (1024), `mb` (1000000) and `mib`
/// (2097152), in small or capital letters.
///
/// Answers `None` where `s` is not written so, or stands for more than fits
/// the machine word.
pub fn parse_size(s: &str) -> (r: Option<usize>)
    ensures
        r is Some == (size_of(s.spec_bytes()) matches Some(v) && v <= usize::MAX),
        r matches Some(n) ==> size_of(s.spec_bytes()) == Some(n as int),
{
    let text = s.as_bytes();
    let mut num: usize = 0;
    let mut i: usize = 0;
    let mut fits = true;
    while i < text.len() && text[i] >= 0x30 && text[i] <= 0x39
        invariant
            i <= text@.len(),
            forall|k: int| 0 <= k < i ==> is_digit(text@[k]),
            digits_end(text@, i as int) == digits_end(text@, 0),
            fits ==> num == decimal(text@, i as int),
            !fits ==> decimal(text@, i as int) > usize::MAX,
        decreases text@.len() - i,
    {
        let digit = (text[i] - 0x30) as usize;
        if fits {
            match num.checked_mul(10) {
                Some(n) => match n.checked_add(digit) {
                    Some(n) => {
                        num = n;
                    },
                    None => {
                        fits = false;
                    },
                },
                None => {
                    fits = false;
                },
            }
        } else {
            proof {
                lemma_decimal_grows(text@, i as int, i + 1);
            }
        }
        i += 1;
    }
    if i == 0 {
        return None;
    }
    let unit = vstd::slice::slice_subrange(text, i, text.len());
    let f = match factor(unit) {
        Some(f) => f,
        None => {
            return None;
        },
    };
    proof {
        lemma_decimal_grows(text@, 0, i as int);
        let d = decimal(text@, i as int);
        assert(d * f >= d) by (nonlinear_arith)
            requires
                d >= 0,
                f >= 1,
        ;
    }
    if !fits {
        return None;
    }
    num.checked_mul(f)
}

} // verus!
