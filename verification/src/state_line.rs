//! The line format of the last-modified-times store: a lowercase
//! hexadecimal time, zero-padded to at least eight digits, a comma, and
//! then the path bytes.

use vstd::prelude::*;

use crate::filter::{is_space, is_space_byte, lemma_trim_end_at, trim_end};

verus! {

/// Why a stored line cannot be read back.
#[derive(Debug, Clone, Copy, PartialEq, Eq, Structural)]
pub enum StateLineError {
    /// No comma separates the time from the path.
    MissingSeparator,
    /// The text before the comma is not a hexadecimal `u64`.
    InvalidTime,
}

/// A byte that is a hexadecimal digit, either case.
pub open spec fn is_hex_digit(b: u8) -> bool {
    (48 <= b <= 57) || (97 <= b <= 102) || (65 <= b <= 70)
}

/// The value of one hexadecimal digit byte.
pub open spec fn hex_digit_value(b: u8) -> nat {
    if 48 <= b <= 57 {
        (b - 48) as nat
    } else if 97 <= b <= 102 {
        (b - 87) as nat
    } else if 65 <= b <= 70 {
        (b - 55) as nat
    } else {
        0
    }
}

/// The number that a sequence of hexadecimal digit bytes denotes.
pub open spec fn hex_value(d: Seq<u8>) -> nat
    decreases d.len(),
{
    if d.len() == 0 {
        0
    } else {
        hex_value(d.drop_last()) * 16 + hex_digit_value(d.last())
    }
}

/// The digit text of a time field: one leading `+` is allowed and ignored.
pub open spec fn time_digits(t: Seq<u8>) -> Seq<u8> {
    if t.len() > 0 && t[0] == 43 {
        t.skip(1)
    } else {
        t
    }
}

/// Whether a time field denotes a `u64`: at least one digit, every byte a
/// hexadecimal digit, and the value representable.
pub open spec fn valid_time(t: Seq<u8>) -> bool {
    let d = time_digits(t);
    d.len() > 0 && (forall|i: int| 0 <= i < d.len() ==> is_hex_digit(#[trigger] d[i]))
        && hex_value(d) <= u64::MAX
}

/// The position of the first comma, if any.
pub open spec fn find_comma(s: Seq<u8>) -> Option<int>
    decreases s.len(),
{
    if s.len() == 0 {
        None
    } else if s[0] == 44 {
        Some(0)
    } else {
        match find_comma(s.skip(1)) {
            Some(i) => Some(i + 1),
            None => None,
        }
    }
}

/// `find_comma` names the least comma position, or there is none.
proof fn lemma_find_comma(s: Seq<u8>)
    ensures
        match find_comma(s) {
            Some(i) => 0 <= i < s.len() && s[i] == 44 && (forall|j: int|
                0 <= j < i ==> s[j] != 44),
            None => forall|j: int| 0 <= j < s.len() ==> s[j] != 44,
        },
    decreases s.len(),
{
    if s.len() == 0 {
    } else if s[0] == 44 {
    } else {
        lemma_find_comma(s.skip(1));
        match find_comma(s.skip(1)) {
            Some(i) => {
                assert forall|j: int| 0 <= j < i + 1 implies s[j] != 44 by {
                    if j > 0 {
                        assert(s.skip(1)[j - 1] != 44);
                    }
                }
            },
            None => {
                assert forall|j: int| 0 <= j < s.len() implies s[j] != 44 by {
                    if j > 0 {
                        assert(s.skip(1)[j - 1] != 44);
                    }
                }
            },
        }
    }
}

/// A longer digit prefix denotes at least as large a value.
proof fn lemma_hex_value_prefix(d: Seq<u8>, k: int)
    requires
        0 <= k <= d.len(),
    ensures
        hex_value(d) >= hex_value(d.subrange(0, k)),
    decreases d.len() - k,
{
    if k == d.len() {
        assert(d.subrange(0, k) =~= d);
    } else {
        lemma_hex_value_prefix(d, k + 1);
        assert(d.subrange(0, k + 1).drop_last() =~= d.subrange(0, k));
        assert(hex_value(d.subrange(0, k + 1)) == hex_value(d.subrange(0, k)) * 16
            + hex_digit_value(d[k]));
    }
}

/// Parse one stored line: the hexadecimal time before the first comma, and
/// the path after it, trimmed of trailing whitespace. Fails exactly on a
/// line without a comma, or with a time field that is not a hexadecimal
/// `u64`.
pub fn parse_line(line: &[u8]) -> (r: Result<(Vec<u8>, u64), StateLineError>)
    ensures
        match r {
            Err(StateLineError::MissingSeparator) => find_comma(line@) is None,
            Err(StateLineError::InvalidTime) => (find_comma(line@) matches Some(c)
                && !valid_time(line@.subrange(0, c))),
            Ok(p) => (find_comma(line@) matches Some(c) && valid_time(line@.subrange(0, c))
                && p.1 as nat == hex_value(time_digits(line@.subrange(0, c))) && p.0@
                == trim_end(line@.skip(c + 1))),
        },
{
    let n = line.len();
    let mut c: usize = 0;
    let mut comma_found = false;
    while c < n && !comma_found
        invariant
            c <= n,
            n == line@.len(),
            comma_found ==> c < n && line@[c as int] == 44,
            forall|j: int| 0 <= j < c ==> line@[j] != 44,
        decreases n - c + (if comma_found {
            0int
        } else {
            1int
        }),
    {
        if *vstd::slice::slice_index_get(line, c) == 44 {
            comma_found = true;
        } else {
            c += 1;
        }
    }
    proof {
        lemma_find_comma(line@);
    }
    if !comma_found {
        return Err(StateLineError::MissingSeparator);
    }
    proof {
        assert(find_comma(line@) == Some(c as int));
    }
    let ghost field = line@.subrange(0, c as int);
    let start: usize = if c > 0 && *vstd::slice::slice_index_get(line, 0) == 43 {
        1
    } else {
        0
    };
    let ghost digits = time_digits(field);
    proof {
        assert(digits =~= line@.subrange(start as int, c as int));
    }
    if start == c {
        return Err(StateLineError::InvalidTime);
    }
    let mut value: u64 = 0;
    let mut i = start;
    while i < c
        invariant
            start <= i <= c,
            c < n && n == line@.len(),
            find_comma(line@) == Some(c as int),
            digits == time_digits(line@.subrange(0, c as int)),
            digits == line@.subrange(start as int, c as int),
            forall|j: int| start <= j < i ==> is_hex_digit(#[trigger] line@[j]),
            value as nat == hex_value(line@.subrange(start as int, i as int)),
        decreases c - i,
    {
        let b = *vstd::slice::slice_index_get(line, i);
        match hex_val_of(b) {
            None => {
                proof {
                    assert(digits[i - start] == line@[i as int]);
                }
                return Err(StateLineError::InvalidTime);
            },
            Some(dv) => {
                proof {
                    assert(line@.subrange(start as int, i + 1).drop_last() =~= line@.subrange(
                        start as int,
                        i as int,
                    ));
                    assert(line@.subrange(start as int, i + 1).last() == line@[i as int]);
                }
                if value > (u64::MAX - (dv as u64)) / 16 {
                    proof {
                        let grown = line@.subrange(start as int, i + 1);
                        assert(hex_value(grown) == (value as nat) * 16 + hex_digit_value(
                            line@[i as int],
                        ));
                        assert((value as nat) * 16 + (dv as nat) > u64::MAX);
                        lemma_hex_value_prefix(digits, i + 1 - start);
                        assert(digits.subrange(0, i + 1 - start) =~= grown);
                        assert(hex_value(digits) > u64::MAX);
                    }
                    return Err(StateLineError::InvalidTime);
                }
                value = value * 16 + (dv as u64);
            },
        }
        i += 1;
    }
    proof {
        assert(line@.subrange(start as int, i as int) == digits);
    }
    let mut end: usize = n;
    while end > c + 1 && is_space_byte(*vstd::slice::slice_index_get(line, end - 1))
        invariant
            c + 1 <= end <= n,
            n == line@.len(),
            forall|j: int| end <= j < n ==> is_space(line@[j]),
        decreases end,
    {
        end -= 1;
    }
    proof {
        let tail = line@.skip(c + 1);
        assert forall|j: int| (end - (c + 1)) <= j < tail.len() implies is_space(
            #[trigger] tail[j],
        ) by {
            assert(tail[j] == line@[c + 1 + j]);
        }
        if end > c + 1 {
            assert(tail[end - (c + 1) - 1] == line@[end - 1]);
        }
        lemma_trim_end_at(tail, end - (c + 1));
        assert(tail.take(end - (c + 1)) =~= line@.subrange(c + 1, end as int));
        assert forall|j: int| 0 <= j < digits.len() implies is_hex_digit(
            #[trigger] digits[j],
        ) by {
            assert(digits[j] == line@[start + j]);
        }
    }
    let path = vstd::slice::slice_to_vec(vstd::slice::slice_subrange(line, c + 1, end));
    Ok((path, value))
}

/// The value of one hexadecimal digit byte, or nothing.
fn hex_val_of(b: u8) -> (r: Option<u8>)
    ensures
        match r {
            Some(v) => is_hex_digit(b) && v as nat == hex_digit_value(b) && v < 16,
            None => !is_hex_digit(b),
        },
{
    if b >= 48 && b <= 57 {
        Some(b - 48)
    } else if b >= 97 && b <= 102 {
        Some(b - 87)
    } else if b >= 65 && b <= 70 {
        Some(b - 55)
    } else {
        None
    }
}

/// The lowercase hexadecimal digit byte of a value under sixteen.
pub open spec fn digit_byte_of(d: nat) -> u8 {
    if d < 10 {
        (48 + d) as u8
    } else {
        (87 + d) as u8
    }
}

/// The lowercase hexadecimal digits of `n`, most significant first, with no
/// leading zeros (a single zero digit for zero).
pub open spec fn hex_digits(n: nat) -> Seq<u8>
    decreases n,
{
    if n < 16 {
        seq![digit_byte_of(n)]
    } else {
        hex_digits(n / 16).push(digit_byte_of(n % 16))
    }
}

/// The digits of `n`, zero-padded at the front to at least eight.
pub open spec fn hex_padded(n: nat) -> Seq<u8> {
    let d = hex_digits(n);
    if d.len() >= 8 {
        d
    } else {
        Seq::new((8 - d.len()) as nat, |i: int| 48u8) + d
    }
}

/// Every byte of `hex_digits` is a hexadecimal digit, and there is at least
/// one.
proof fn lemma_hex_digits_are_digits(n: nat)
    ensures
        hex_digits(n).len() >= 1,
        forall|i: int| 0 <= i < hex_digits(n).len() ==> is_hex_digit(#[trigger] hex_digits(n)[i]),
    decreases n,
{
    if n < 16 {
    } else {
        lemma_hex_digits_are_digits(n / 16);
        assert forall|i: int| 0 <= i < hex_digits(n).len() implies is_hex_digit(
            #[trigger] hex_digits(n)[i],
        ) by {
            if i < hex_digits(n / 16).len() {
                assert(hex_digits(n)[i] == hex_digits(n / 16)[i]);
            }
        }
    }
}

/// The digits of `n` denote `n`.
proof fn lemma_hex_value_of_digits(n: nat)
    ensures
        hex_value(hex_digits(n)) == n,
    decreases n,
{
    if n < 16 {
        assert(hex_digits(n).drop_last() =~= Seq::<u8>::empty());
        assert(hex_digits(n).last() == digit_byte_of(n));
        assert(hex_digit_value(digit_byte_of(n)) == n);
        assert(hex_value(hex_digits(n)) == hex_value(Seq::<u8>::empty()) * 16 + n);
    } else {
        lemma_hex_value_of_digits(n / 16);
        assert(hex_digits(n).drop_last() =~= hex_digits(n / 16));
        assert(hex_digits(n).last() == digit_byte_of(n % 16));
        assert(hex_digit_value(digit_byte_of(n % 16)) == n % 16);
        assert(hex_value(hex_digits(n)) == (n / 16) * 16 + n % 16);
        assert(n == (n / 16) * 16 + n % 16) by {
            vstd::arithmetic::div_mod::lemma_fundamental_div_mod(n as int, 16);
        }
    }
}

/// A run of zero digits in front changes nothing of the value.
proof fn lemma_hex_value_zero_prefix(z: Seq<u8>, d: Seq<u8>)
    requires
        forall|i: int| 0 <= i < z.len() ==> z[i] == 48,
    ensures
        hex_value(z + d) == hex_value(d),
    decreases d.len(),
{
    if d.len() == 0 {
        assert(z + d =~= z);
        lemma_hex_value_zeros(z);
    } else {
        assert((z + d).drop_last() =~= z + d.drop_last());
        lemma_hex_value_zero_prefix(z, d.drop_last());
        assert((z + d).last() == d.last());
    }
}

/// Zero digits denote zero.
proof fn lemma_hex_value_zeros(z: Seq<u8>)
    requires
        forall|i: int| 0 <= i < z.len() ==> z[i] == 48,
    ensures
        hex_value(z) == 0,
    decreases z.len(),
{
    if z.len() > 0 {
        lemma_hex_value_zeros(z.drop_last());
        assert(hex_digit_value(z.last()) == 0);
    }
}

/// Round trip of the line format: in a formatted line the first comma is
/// the one the formatter wrote, the time field is valid and denotes the
/// formatted time, and the bytes after the comma are exactly the path.
pub proof fn lemma_state_line_round_trip(path: Seq<u8>, time: u64)
    ensures
        ({
            let field = hex_padded(time as nat);
            let line = field + seq![44u8] + path;
            find_comma(line) == Some(field.len() as int) && valid_time(
                line.subrange(0, field.len() as int),
            ) && hex_value(time_digits(line.subrange(0, field.len() as int))) == time as nat
                && line.skip(field.len() as int + 1) == path
        }),
{
    let d = hex_digits(time as nat);
    let field = hex_padded(time as nat);
    let line = field + seq![44u8] + path;
    let c = field.len() as int;
    lemma_hex_digits_are_digits(time as nat);
    assert forall|i: int| 0 <= i < field.len() implies is_hex_digit(#[trigger] field[i]) by {
        if d.len() < 8 {
            if i >= 8 - d.len() {
                assert(field[i] == d[i - (8 - d.len())]);
            }
        } else {
            assert(field[i] == d[i]);
        }
    }
    assert(line.subrange(0, c) =~= field);
    assert(line[c] == 44);
    assert forall|j: int| 0 <= j < c implies line[j] != 44 by {
        assert(line[j] == field[j]);
        assert(is_hex_digit(field[j]));
    }
    lemma_find_comma(line);
    match find_comma(line) {
        Some(i) => {
            if i < c {
                assert(line[i] != 44);
            } else if i > c {
                assert(line[c] != 44);
            }
        },
        None => {
            assert(line[c] != 44);
        },
    }
    assert(find_comma(line) == Some(c));
    assert(field.len() > 0);
    assert(!(field[0] == 43));
    assert(time_digits(field) == field);
    if d.len() < 8 {
        let z = Seq::new((8 - d.len()) as nat, |i: int| 48u8);
        assert(field == z + d);
        lemma_hex_value_zero_prefix(z, d);
    } else {
        assert(field == d);
    }
    lemma_hex_value_of_digits(time as nat);
    assert(hex_value(field) == time as nat);
    assert(line.skip(c + 1) =~= path);
}

/// Append the digits of `v` to `out`.
fn push_hex_digits(v: u64, out: &mut Vec<u8>)
    ensures
        final(out)@ == old(out)@ + hex_digits(v as nat),
    decreases v,
{
    if v < 16 {
        out.push(hex_digit_byte(v as u8));
        proof {
            assert(out@ =~= old(out)@ + hex_digits(v as nat));
        }
    } else {
        push_hex_digits(v / 16, out);
        out.push(hex_digit_byte((v % 16) as u8));
        proof {
            assert((v as nat) / 16 == (v / 16) as nat);
            assert(out@ =~= old(out)@ + hex_digits(v as nat));
        }
    }
}

/// The lowercase hexadecimal digit byte of `d`.
fn hex_digit_byte(d: u8) -> (r: u8)
    requires
        d < 16,
    ensures
        r == digit_byte_of(d as nat),
{
    if d < 10 {
        48 + d
    } else {
        87 + d
    }
}

/// Format one stored line: the time in lowercase hexadecimal, zero-padded
/// to at least eight digits, a comma, then the path bytes.
pub fn format_line(path: &[u8], time: u64) -> (r: Vec<u8>)
    ensures
        r@ == hex_padded(time as nat) + seq![44u8] + path@,
{
    let mut digits: Vec<u8> = Vec::new();
    push_hex_digits(time, &mut digits);
    let mut line: Vec<u8> = Vec::new();
    let dcount = digits.len();
    proof {
        assert(line@ =~= Seq::new(0, |i: int| 48u8));
    }
    if dcount < 8 {
        while line.len() < 8 - dcount
            invariant
                dcount == digits@.len(),
                dcount < 8,
                line@ == Seq::new(line@.len(), |i: int| 48u8),
                line@.len() <= 8 - dcount,
            decreases 8 - dcount - line@.len(),
        {
            line.push(48);
            proof {
                assert(line@ =~= Seq::new(line@.len(), |i: int| 48u8));
            }
        }
    }
    line.extend_from_slice(digits.as_slice());
    line.push(44);
    line.extend_from_slice(path);
    proof {
        if hex_digits(time as nat).len() >= 8 {
            assert(line@ =~= hex_padded(time as nat) + seq![44u8] + path@);
        } else {
            assert(line@ =~= hex_padded(time as nat) + seq![44u8] + path@);
        }
    }
    line
}

} // verus!
