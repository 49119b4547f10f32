//! Human-readable byte quantities: formatting a `u64` byte count with binary
//! (power-of-1024) units, and parsing a magnitude-plus-unit string back into
//! a byte count.
//!
//! The grammar accepted by the parser is a non-empty run of decimal digits,
//! optional whitespace, then a unit token (`k`/`kb`/`kib`, `m`/`mb`/`mib`,
//! `g`/`gb`/`gib`, `t`/`tb`/`tib`, case-insensitive). A missing or unknown
//! unit fails, and so does a product that does not fit in 64 bits.

use vstd::prelude::*;
use vstd::string::StrSliceExecFns;
use vstd::string::StringExecFns;

verus! {

pub const KIB: u64 = 1024;
pub const MIB: u64 = 1048576;
pub const GIB: u64 = 1073741824;
pub const TIB: u64 = 1099511627776;

/// The decimal digit character for a value in 0..10.
pub open spec fn dec_digit_char(d: int) -> char {
    if d == 0 {
        '0'
    } else if d == 1 {
        '1'
    } else if d == 2 {
        '2'
    } else if d == 3 {
        '3'
    } else if d == 4 {
        '4'
    } else if d == 5 {
        '5'
    } else if d == 6 {
        '6'
    } else if d == 7 {
        '7'
    } else if d == 8 {
        '8'
    } else {
        '9'
    }
}

/// The decimal representation of a number, without leading zeros
/// (except for the number zero itself).
pub open spec fn dec_rep(n: nat) -> Seq<char>
    decreases n,
{
    if n < 10 {
        seq![dec_digit_char(n as int)]
    } else {
        dec_rep(n / 10) + seq![dec_digit_char((n % 10) as int)]
    }
}

pub open spec fn is_digit_char(c: char) -> bool {
    '0' <= c && c <= '9'
}

pub open spec fn digit_val(c: char) -> int {
    c as int - '0' as int
}

pub open spec fn all_digits(s: Seq<char>) -> bool {
    forall|i: int| 0 <= i < s.len() ==> is_digit_char(#[trigger] s[i])
}

/// The number denoted by a sequence of decimal digit characters.
pub open spec fn digits_val(s: Seq<char>) -> nat
    decreases s.len(),
{
    if s.len() == 0 {
        0
    } else {
        digits_val(s.drop_last()) * 10 + digit_val(s.last()) as nat
    }
}

pub open spec fn is_space_char(c: char) -> bool {
    c == ' ' || c == '\t'
}

/// Length of the longest prefix made of decimal digits.
pub open spec fn digit_prefix_len(s: Seq<char>) -> int
    decreases s.len(),
{
    if s.len() > 0 && is_digit_char(s[0]) {
        1 + digit_prefix_len(s.drop_first())
    } else {
        0
    }
}

/// Length of the longest prefix made of whitespace.
pub open spec fn space_prefix_len(s: Seq<char>) -> int
    decreases s.len(),
{
    if s.len() > 0 && is_space_char(s[0]) {
        1 + space_prefix_len(s.drop_first())
    } else {
        0
    }
}

/// Folds the few letters the unit grammar cares about to lower case.
pub open spec fn lower_char(c: char) -> char {
    match c {
        'K' => 'k',
        'M' => 'm',
        'G' => 'g',
        'T' => 't',
        'B' => 'b',
        'I' => 'i',
        _ => c,
    }
}

/// The multiplier for a (lower-cased) unit letter.
pub open spec fn prefix_factor(c: char) -> Option<u64> {
    if c == 'k' {
        Some(KIB)
    } else if c == 'm' {
        Some(MIB)
    } else if c == 'g' {
        Some(GIB)
    } else if c == 't' {
        Some(TIB)
    } else {
        None
    }
}

/// The multiplier for a full unit token: a unit letter alone or followed by
/// `b` or `ib`, case-insensitive.
pub open spec fn unit_factor(s: Seq<char>) -> Option<u64> {
    if s.len() == 1 {
        prefix_factor(lower_char(s[0]))
    } else if s.len() == 2 && lower_char(s[1]) == 'b' {
        prefix_factor(lower_char(s[0]))
    } else if s.len() == 3 && lower_char(s[1]) == 'i' && lower_char(s[2]) == 'b' {
        prefix_factor(lower_char(s[0]))
    } else {
        None
    }
}

/// What parsing a size string yields: the digit prefix times the unit's
/// factor, or nothing when the digits are missing, the unit is unknown,
/// or the product does not fit in 64 bits.
pub open spec fn parse_size_spec(s: Seq<char>) -> Option<u64> {
    let nd = digit_prefix_len(s);
    let nw = space_prefix_len(s.skip(nd));
    let unit = s.skip(nd + nw);
    if nd == 0 {
        None
    } else {
        match unit_factor(unit) {
            Some(f) => {
                if digits_val(s.take(nd)) * f <= u64::MAX {
                    Some((digits_val(s.take(nd)) * f) as u64)
                } else {
                    None
                }
            },
            None => None,
        }
    }
}

pub open spec fn bytes_suffix() -> Seq<char> {
    seq![' ', 'b', 'y', 't', 'e', 's']
}

pub open spec fn kib_suffix() -> Seq<char> {
    seq![' ', 'K', 'i', 'B']
}

pub open spec fn mib_suffix() -> Seq<char> {
    seq![' ', 'M', 'i', 'B']
}

pub open spec fn gib_suffix() -> Seq<char> {
    seq![' ', 'G', 'i', 'B']
}

/// What formatting a byte count yields: the integer quotient under the
/// largest unit at or below the value, then that unit's name.
pub open spec fn format_size_spec(n: u64) -> Seq<char> {
    if n < KIB {
        dec_rep(n as nat) + bytes_suffix()
    } else if n < MIB {
        dec_rep((n / KIB) as nat) + kib_suffix()
    } else if n < GIB {
        dec_rep((n / MIB) as nat) + mib_suffix()
    } else {
        dec_rep((n / GIB) as nat) + gib_suffix()
    }
}

/// Appends the decimal representation of `n` to `out`.
fn push_decimal(n: u64, out: &mut String)
    ensures
        final(out)@ == old(out)@ + dec_rep(n as nat),
    decreases n,
{
    let ghost prefix = out@;
    if n >= 10 {
        push_decimal(n / 10, out);
    }
    proof {
        reveal_strlit("0");
        reveal_strlit("1");
        reveal_strlit("2");
        reveal_strlit("3");
        reveal_strlit("4");
        reveal_strlit("5");
        reveal_strlit("6");
        reveal_strlit("7");
        reveal_strlit("8");
        reveal_strlit("9");
    }
    match n % 10 {
        0 => out.append("0"),
        1 => out.append("1"),
        2 => out.append("2"),
        3 => out.append("3"),
        4 => out.append("4"),
        5 => out.append("5"),
        6 => out.append("6"),
        7 => out.append("7"),
        8 => out.append("8"),
        _ => out.append("9"),
    }
    proof {
        if n >= 10 {
            assert(out@ =~= prefix + dec_rep(n as nat));
        } else {
            assert(out@ =~= prefix + dec_rep(n as nat));
        }
    }
}

/// A 64-bit byte count both as a display string and parsed back from one.
pub trait HumanSize: Sized {
    fn to_human_size(&self) -> String;

    fn from_human_size(s: &str) -> Option<Self>;
}

impl HumanSize for u64 {
    fn to_human_size(&self) -> (r: String)
        ensures
            r@ == format_size_spec(*self),
    {
        let n = *self;
        let mut out = String::new();
        if n < KIB {
            push_decimal(n, &mut out);
            out.append(" bytes");
            proof {
                reveal_strlit(" bytes");
                assert(out@ =~= format_size_spec(n));
            }
        } else if n < MIB {
            push_decimal(n / KIB, &mut out);
            out.append(" KiB");
            proof {
                reveal_strlit(" KiB");
                assert(out@ =~= format_size_spec(n));
            }
        } else if n < GIB {
            push_decimal(n / MIB, &mut out);
            out.append(" MiB");
            proof {
                reveal_strlit(" MiB");
                assert(out@ =~= format_size_spec(n));
            }
        } else {
            push_decimal(n / GIB, &mut out);
            out.append(" GiB");
            proof {
                reveal_strlit(" GiB");
                assert(out@ =~= format_size_spec(n));
            }
        }
        out
    }

    fn from_human_size(s: &str) -> (r: Option<u64>)
        ensures
            r == parse_size_spec(s@),
    {
        let len = s.unicode_len();
        let ghost sq = s@;

        // Digit prefix: accumulate its value, tracking overflow.
        let mut i: usize = 0;
        let mut val: u64 = 0;
        let mut of: bool = false;
        let mut in_digits: bool = true;
        while in_digits && i < len
            invariant
                0 <= i <= len == sq.len(),
                sq == s@,
                forall|j: int| 0 <= j < i ==> is_digit_char(#[trigger] sq[j]),
                !of ==> val == digits_val(sq.take(i as int)),
                of ==> digits_val(sq.take(i as int)) > u64::MAX,
                !in_digits ==> i < len && !is_digit_char(sq[i as int]),
            decreases len - i + (if in_digits { 1int } else { 0int }),
        {
            let c = s.get_char(i);
            if '0' <= c && c <= '9' {
                let d: u64 = (c as u32 as u64) - ('0' as u32 as u64);
                proof {
                    assert(sq.take(i + 1).drop_last() =~= sq.take(i as int));
                    assert(sq.take(i + 1).last() == sq[i as int]);
                }
                match val.checked_mul(10) {
                    Some(v10) => {
                        match v10.checked_add(d) {
                            Some(v) => {
                                val = v;
                            },
                            None => {
                                of = true;
                            },
                        }
                    },
                    None => {
                        proof {
                            if !of {
                                assert(digits_val(sq.take(i + 1)) == val * 10 + digit_val(
                                    sq[i as int],
                                ));
                            }
                        }
                        of = true;
                    },
                }
                i = i + 1;
            } else {
                in_digits = false;
            }
        }
        proof {
            lemma_digit_prefix_len_from_scan(sq, i as int);
            assert(digit_prefix_len(sq) == i as int);
        }
        if i == 0 {
            return None;
        }

        // Whitespace run.
        let nd = i;
        let mut in_spaces: bool = true;
        while in_spaces && i < len
            invariant
                nd <= i <= len == sq.len(),
                sq == s@,
                forall|j: int| nd <= j < i ==> is_space_char(#[trigger] sq[j]),
                !in_spaces ==> i < len && !is_space_char(sq[i as int]),
            decreases len - i + (if in_spaces { 1int } else { 0int }),
        {
            let c = s.get_char(i);
            if c == ' ' || c == '\t' {
                i = i + 1;
            } else {
                in_spaces = false;
            }
        }
        proof {
            lemma_space_prefix_len_from_scan(sq.skip(nd as int), i - nd as int);
            assert(space_prefix_len(sq.skip(nd as int)) == i - nd as int);
        }

        // Unit token.
        let ghost unit = sq.skip(i as int);
        let rem = len - i;
        if rem == 0 || rem > 3 {
            return None;
        }
        let c0 = lower_char_exec(s.get_char(i));
        let factor: u64 = if c0 == 'k' {
            KIB
        } else if c0 == 'm' {
            MIB
        } else if c0 == 'g' {
            GIB
        } else if c0 == 't' {
            TIB
        } else {
            proof {
                assert(unit_factor(unit) is None);
            }
            return None;
        };
        if rem >= 2 {
            let c1 = lower_char_exec(s.get_char(i + 1));
            if rem == 2 {
                if c1 != 'b' {
                    return None;
                }
            } else {
                let c2 = lower_char_exec(s.get_char(i + 2));
                if c1 != 'i' || c2 != 'b' {
                    return None;
                }
            }
        }
        proof {
            assert(unit_factor(unit) == Some(factor));
        }

        // The value, if it fits.
        if of {
            proof {
                let dv = digits_val(sq.take(nd as int));
                assert(dv * factor > u64::MAX) by (nonlinear_arith)
                    requires
                        dv > u64::MAX,
                        factor >= 1024,
                ;
                assert(parse_size_spec(sq) is None);
            }
            return None;
        }
        match val.checked_mul(factor) {
            Some(total) => Some(total),
            None => None,
        }
    }
}

/// Exec counterpart of `lower_char`.
fn lower_char_exec(c: char) -> (r: char)
    ensures
        r == lower_char(c),
{
    match c {
        'K' => 'k',
        'M' => 'm',
        'G' => 'g',
        'T' => 't',
        'B' => 'b',
        'I' => 'i',
        _ => c,
    }
}

/// A decimal representation is a non-empty run of digits.
pub proof fn lemma_dec_rep_digits(n: nat)
    ensures
        all_digits(dec_rep(n)),
        dec_rep(n).len() >= 1,
    decreases n,
{
    if n >= 10 {
        lemma_dec_rep_digits(n / 10);
    }
}

/// Reading a decimal representation back gives the number it was made from.
pub proof fn lemma_dec_rep_val(n: nat)
    ensures
        digits_val(dec_rep(n)) == n,
    decreases n,
{
    if n < 10 {
        assert(dec_rep(n).drop_last() =~= Seq::<char>::empty());
        assert(digits_val(Seq::<char>::empty()) == 0);
        assert(digits_val(dec_rep(n)) == digit_val(dec_digit_char(n as int)) as nat);
        assert(digit_val(dec_digit_char(n as int)) == n);
    } else {
        lemma_dec_rep_val(n / 10);
        assert(dec_rep(n).drop_last() =~= dec_rep(n / 10));
        assert(dec_rep(n).last() == dec_digit_char((n % 10) as int));
        vstd::arithmetic::div_mod::lemma_fundamental_div_mod(n as int, 10);
        assert(digits_val(dec_rep(n)) == (n / 10) * 10 + (n % 10));
    }
}

/// The digit prefix of a digit run followed by a non-digit is the whole run.
proof fn lemma_digit_prefix_of_concat(a: Seq<char>, b: Seq<char>)
    requires
        all_digits(a),
        b.len() > 0,
        !is_digit_char(b[0]),
    ensures
        digit_prefix_len(a + b) == a.len(),
    decreases a.len(),
{
    if a.len() == 0 {
        assert(a + b =~= b);
    } else {
        assert((a + b).drop_first() =~= a.drop_first() + b);
        lemma_digit_prefix_of_concat(a.drop_first(), b);
    }
}

/// The whitespace prefix of a space run followed by a non-space is the
/// whole run.
proof fn lemma_space_prefix_of_concat(a: Seq<char>, b: Seq<char>)
    requires
        forall|i: int| 0 <= i < a.len() ==> is_space_char(#[trigger] a[i]),
        b.len() > 0,
        !is_space_char(b[0]),
    ensures
        space_prefix_len(a + b) == a.len(),
    decreases a.len(),
{
    if a.len() == 0 {
        assert(a + b =~= b);
    } else {
        assert((a + b).drop_first() =~= a.drop_first() + b);
        lemma_space_prefix_of_concat(a.drop_first(), b);
    }
}

/// Round trip of the size vocabulary: formatting a magnitude exactly (its
/// decimal digits, optional whitespace, a recognized unit token) and parsing
/// the result gives the magnitude times the unit's factor, whenever that
/// product fits in 64 bits.
pub proof fn lemma_parse_of_formatted(m: u64, pad: Seq<char>, unit: Seq<char>)
    requires
        forall|i: int| 0 <= i < pad.len() ==> is_space_char(#[trigger] pad[i]),
        unit_factor(unit) is Some,
        m * (unit_factor(unit)->0) <= u64::MAX,
    ensures
        parse_size_spec(dec_rep(m as nat) + pad + unit) == Some(
            (m * (unit_factor(unit)->0)) as u64,
        ),
{
    let f = unit_factor(unit)->0;
    let digits = dec_rep(m as nat);
    let s = digits + pad + unit;
    lemma_dec_rep_digits(m as nat);
    lemma_dec_rep_val(m as nat);

    // The unit token starts with a unit letter, which is neither a digit
    // nor whitespace.
    assert(!is_digit_char(unit[0]) && !is_space_char(unit[0])) by {
        assert(prefix_factor(lower_char(unit[0])) is Some);
    }

    let tail = pad + unit;
    assert(tail.len() > 0 && !is_digit_char(tail[0]));
    assert(s =~= digits + tail);
    lemma_digit_prefix_of_concat(digits, tail);
    let nd = digit_prefix_len(s);
    assert(nd == digits.len());
    assert(s.take(nd) =~= digits);
    assert(s.skip(nd) =~= tail);
    lemma_space_prefix_of_concat(pad, unit);
    let nw = space_prefix_len(s.skip(nd));
    assert(nw == pad.len());
    assert(s.skip(nd + nw) =~= unit);
    assert(digits_val(s.take(nd)) == m as nat);
}

/// A scan that stopped at `i` with digits before and a non-digit (or the
/// end) at `i` has found the digit prefix.
proof fn lemma_digit_prefix_len_from_scan(s: Seq<char>, i: int)
    requires
        0 <= i <= s.len(),
        forall|j: int| 0 <= j < i ==> is_digit_char(#[trigger] s[j]),
        i < s.len() ==> !is_digit_char(s[i]),
    ensures
        digit_prefix_len(s) == i,
    decreases s.len(),
{
    if i > 0 {
        lemma_digit_prefix_len_from_scan(s.drop_first(), i - 1);
    }
}

/// The whitespace analogue of `lemma_digit_prefix_len_from_scan`.
proof fn lemma_space_prefix_len_from_scan(s: Seq<char>, i: int)
    requires
        0 <= i <= s.len(),
        forall|j: int| 0 <= j < i ==> is_space_char(#[trigger] s[j]),
        i < s.len() ==> !is_space_char(s[i]),
    ensures
        space_prefix_len(s) == i,
    decreases s.len(),
{
    if i > 0 {
        lemma_space_prefix_len_from_scan(s.drop_first(), i - 1);
    }
}

} // verus!
