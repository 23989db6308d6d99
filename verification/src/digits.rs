//! Hexadecimal digit arithmetic over character sequences.
//!
//! A debug identifier is written as fixed-width uppercase hexadecimal; this
//! module gives the digit-level specification (value of a digit string,
//! rendering of a value) together with executable parsers and printers that
//! are proved against it.

use vstd::prelude::*;
use vstd::string::StringExecFns;
use vstd::string::StrSliceExecFns;

verus! {

/// `c` is an ASCII hexadecimal digit, either case.
pub open spec fn is_hex_char(c: char) -> bool {
    (48 <= c as u32 && c as u32 <= 57)  // '0'..'9'
    || (65 <= c as u32 && c as u32 <= 70)  // 'A'..'F'
    || (97 <= c as u32 && c as u32 <= 102)  // 'a'..'f'
}

/// `c` is an uppercase (or numeric) hexadecimal digit.
pub open spec fn is_upper_hex_char(c: char) -> bool {
    (48 <= c as u32 && c as u32 <= 57) || (65 <= c as u32 && c as u32 <= 70)
}

/// Numeric value of a hexadecimal digit; meaningful only under `is_hex_char`.
pub open spec fn hex_char_value(c: char) -> int {
    if 48 <= c as u32 && c as u32 <= 57 {
        c as u32 - 48
    } else if 65 <= c as u32 && c as u32 <= 70 {
        c as u32 - 55
    } else if 97 <= c as u32 && c as u32 <= 102 {
        c as u32 - 87
    } else {
        0
    }
}

/// Every character of `s` is a hexadecimal digit.
pub open spec fn all_hex_chars(s: Seq<char>) -> bool {
    forall|i: int| 0 <= i < s.len() ==> is_hex_char(#[trigger] s[i])
}

/// Value of a digit string read most-significant digit first.
pub open spec fn hex_chars_value(s: Seq<char>) -> int
    decreases s.len(),
{
    if s.len() == 0 {
        0
    } else {
        hex_chars_value(s.drop_last()) * 16 + hex_char_value(s.last())
    }
}

/// 16 to the power `n`.
pub open spec fn pow16(n: nat) -> int
    decreases n,
{
    if n == 0 {
        1
    } else {
        16 * pow16((n - 1) as nat)
    }
}

pub proof fn lemma_pow16_pos(n: nat)
    ensures
        pow16(n) >= 1,
    decreases n,
{
    if n > 0 {
        lemma_pow16_pos((n - 1) as nat);
    }
}

pub proof fn lemma_pow16_mono(a: nat, b: nat)
    requires
        a <= b,
    ensures
        pow16(a) <= pow16(b),
    decreases b,
{
    if a < b {
        lemma_pow16_mono(a, (b - 1) as nat);
        lemma_pow16_pos((b - 1) as nat);
    }
}

pub proof fn lemma_pow16_32()
    ensures
        pow16(32) == 0x1_0000_0000_0000_0000_0000_0000_0000_0000,
{
    assert(pow16(0) == 1);
    assert(pow16(1) == 0x10);
    assert(pow16(2) == 0x100);
    assert(pow16(3) == 0x1000);
    assert(pow16(4) == 0x1_0000);
    assert(pow16(5) == 0x10_0000);
    assert(pow16(6) == 0x100_0000);
    assert(pow16(7) == 0x1000_0000);
    assert(pow16(8) == 0x1_0000_0000);
    assert(pow16(9) == 0x10_0000_0000);
    assert(pow16(10) == 0x100_0000_0000);
    assert(pow16(11) == 0x1000_0000_0000);
    assert(pow16(12) == 0x1_0000_0000_0000);
    assert(pow16(13) == 0x10_0000_0000_0000);
    assert(pow16(14) == 0x100_0000_0000_0000);
    assert(pow16(15) == 0x1000_0000_0000_0000);
    assert(pow16(16) == 0x1_0000_0000_0000_0000);
    assert(pow16(17) == 0x10_0000_0000_0000_0000);
    assert(pow16(18) == 0x100_0000_0000_0000_0000);
    assert(pow16(19) == 0x1000_0000_0000_0000_0000);
    assert(pow16(20) == 0x1_0000_0000_0000_0000_0000);
    assert(pow16(21) == 0x10_0000_0000_0000_0000_0000);
    assert(pow16(22) == 0x100_0000_0000_0000_0000_0000);
    assert(pow16(23) == 0x1000_0000_0000_0000_0000_0000);
    assert(pow16(24) == 0x1_0000_0000_0000_0000_0000_0000);
    assert(pow16(25) == 0x10_0000_0000_0000_0000_0000_0000);
    assert(pow16(26) == 0x100_0000_0000_0000_0000_0000_0000);
    assert(pow16(27) == 0x1000_0000_0000_0000_0000_0000_0000);
    assert(pow16(28) == 0x1_0000_0000_0000_0000_0000_0000_0000);
    assert(pow16(29) == 0x10_0000_0000_0000_0000_0000_0000_0000);
    assert(pow16(30) == 0x100_0000_0000_0000_0000_0000_0000_0000);
    assert(pow16(31) == 0x1000_0000_0000_0000_0000_0000_0000_0000);
    assert(pow16(32) == 0x1_0000_0000_0000_0000_0000_0000_0000_0000);
}

pub proof fn lemma_hex_chars_value_bound(s: Seq<char>)
    ensures
        0 <= hex_chars_value(s) < pow16(s.len()),
    decreases s.len(),
{
    if s.len() == 0 {
    } else {
        lemma_hex_chars_value_bound(s.drop_last());
    }
}

/// Extending a digit string on the right never decreases its value.
pub proof fn lemma_hex_chars_prefix_le(s: Seq<char>, k: int)
    requires
        0 <= k <= s.len(),
    ensures
        hex_chars_value(s.subrange(0, k)) <= hex_chars_value(s),
    decreases s.len() - k,
{
    if k == s.len() {
        assert(s.subrange(0, k) =~= s);
    } else {
        let p = s.subrange(0, k + 1);
        assert(p.drop_last() =~= s.subrange(0, k));
        lemma_hex_chars_value_bound(s.subrange(0, k));
        lemma_hex_chars_prefix_le(s, k + 1);
    }
}

/// Classifies one character as a hexadecimal digit.
pub fn hex_digit_of(c: char) -> (r: Option<u8>)
    ensures
        match r {
            Some(v) => is_hex_char(c) && v == hex_char_value(c) && v < 16,
            None => !is_hex_char(c),
        },
{
    let u = c as u32;
    if 48 <= u && u <= 57 {
        Some((u - 48) as u8)
    } else if 65 <= u && u <= 70 {
        Some((u - 55) as u8)
    } else if 97 <= u && u <= 102 {
        Some((u - 87) as u8)
    } else {
        None
    }
}

/// Parses the digits of `s` between `start` and `end` as at most 32
/// hexadecimal digits; fails exactly when a non-digit occurs.
pub fn parse_hex_chars_u128(s: &str, start: usize, end: usize) -> (r: Option<u128>)
    requires
        start <= end <= s@.len(),
        end - start <= 32,
    ensures
        match r {
            Some(v) => all_hex_chars(s@.subrange(start as int, end as int)) && v
                == hex_chars_value(s@.subrange(start as int, end as int)),
            None => !all_hex_chars(s@.subrange(start as int, end as int)),
        },
{
    let ghost whole = s@.subrange(start as int, end as int);
    let mut acc: u128 = 0;
    let mut i: usize = start;
    while i < end
        invariant
            start <= i <= end <= s@.len(),
            end - start <= 32,
            whole == s@.subrange(start as int, end as int),
            all_hex_chars(s@.subrange(start as int, i as int)),
            acc == hex_chars_value(s@.subrange(start as int, i as int)),
        decreases end - i,
    {
        let c = s.get_char(i);
        match hex_digit_of(c) {
            None => {
                assert(whole[i - start] == s@[i as int]);
                return None;
            },
            Some(d) => {
                proof {
                    let prefix = s@.subrange(start as int, i as int);
                    lemma_hex_chars_value_bound(prefix);
                    lemma_pow16_mono((i - start) as nat, 31);
                    lemma_pow16_32();
                    assert(acc * 16 + d < pow16((i - start + 1) as nat)) by {
                        assert(pow16((i - start + 1) as nat) == 16 * pow16((i - start) as nat));
                    }
                    lemma_pow16_mono((i - start + 1) as nat, 32);
                }
                acc = acc * 16 + (d as u128);
                i = i + 1;
                proof {
                    let prefix = s@.subrange(start as int, i as int);
                    assert(prefix.drop_last() =~= s@.subrange(start as int, i - 1));
                    assert(prefix.last() == c);
                }
            },
        }
    }
    proof {
        assert(s@.subrange(start as int, i as int) =~= whole);
    }
    Some(acc)
}

/// Parses the digits of `s` between `start` and `end` as a hexadecimal `u32`;
/// fails exactly when the range is empty, contains a non-digit, or the value
/// does not fit.
pub fn parse_hex_chars_u32(s: &str, start: usize, end: usize) -> (r: Option<u32>)
    requires
        start <= end <= s@.len(),
    ensures
        match r {
            Some(v) => {
                &&& start < end
                &&& all_hex_chars(s@.subrange(start as int, end as int))
                &&& hex_chars_value(s@.subrange(start as int, end as int)) <= u32::MAX
                &&& v == hex_chars_value(s@.subrange(start as int, end as int))
            },
            None => start == end || !all_hex_chars(s@.subrange(start as int, end as int))
                || hex_chars_value(s@.subrange(start as int, end as int)) > u32::MAX,
        },
{
    if start == end {
        return None;
    }
    let ghost whole = s@.subrange(start as int, end as int);
    let mut acc: u64 = 0;
    let mut i: usize = start;
    while i < end
        invariant
            start <= i <= end <= s@.len(),
            whole == s@.subrange(start as int, end as int),
            all_hex_chars(s@.subrange(start as int, i as int)),
            acc == hex_chars_value(s@.subrange(start as int, i as int)),
            acc <= u32::MAX,
        decreases end - i,
    {
        let c = s.get_char(i);
        match hex_digit_of(c) {
            None => {
                assert(whole[i - start] == s@[i as int]);
                return None;
            },
            Some(d) => {
                let next: u64 = acc * 16 + (d as u64);
                if next > u32::MAX as u64 {
                    proof {
                        let prefix = s@.subrange(start as int, i + 1);
                        assert(prefix.drop_last() =~= s@.subrange(start as int, i as int));
                        assert(prefix.last() == c);
                        assert(hex_chars_value(prefix) == next);
                        lemma_hex_chars_prefix_le(whole, i + 1 - start);
                        assert(whole.subrange(0, i + 1 - start) =~= prefix);
                    }
                    return None;
                }
                acc = next;
                i = i + 1;
                proof {
                    let prefix = s@.subrange(start as int, i as int);
                    assert(prefix.drop_last() =~= s@.subrange(start as int, i - 1));
                    assert(prefix.last() == c);
                }
            },
        }
    }
    proof {
        assert(s@.subrange(start as int, i as int) =~= whole);
    }
    Some(acc as u32)
}

/// `c` is a decimal digit character.
pub open spec fn is_dec_char(c: char) -> bool {
    48 <= c as u32 && c as u32 <= 57
}

/// Every character of `s` is a decimal digit.
pub open spec fn all_dec_chars(s: Seq<char>) -> bool {
    forall|i: int| 0 <= i < s.len() ==> is_dec_char(#[trigger] s[i])
}

/// Value of a decimal character string, most significant digit first.
pub open spec fn dec_chars_value(s: Seq<char>) -> int
    decreases s.len(),
{
    if s.len() == 0 {
        0
    } else {
        dec_chars_value(s.drop_last()) * 10 + if is_dec_char(s.last()) {
            (s.last() as u32) - 48
        } else {
            0
        }
    }
}

pub proof fn lemma_dec_chars_value_nonneg(s: Seq<char>)
    ensures
        0 <= dec_chars_value(s),
    decreases s.len(),
{
    if s.len() > 0 {
        lemma_dec_chars_value_nonneg(s.drop_last());
    }
}

/// Extending a decimal character string on the right never decreases its
/// value.
pub proof fn lemma_dec_chars_prefix_le(s: Seq<char>, k: int)
    requires
        0 <= k <= s.len(),
    ensures
        dec_chars_value(s.subrange(0, k)) <= dec_chars_value(s),
    decreases s.len() - k,
{
    if k == s.len() {
        assert(s.subrange(0, k) =~= s);
    } else {
        let p = s.subrange(0, k + 1);
        assert(p.drop_last() =~= s.subrange(0, k));
        lemma_dec_chars_value_nonneg(s.subrange(0, k));
        lemma_dec_chars_prefix_le(s, k + 1);
    }
}

/// Parses the characters of `s` from `start` to its end as a decimal
/// `u64`; fails exactly when the range is empty, contains a non-digit, or
/// the value does not fit.
pub fn parse_dec_chars_u64(s: &str, start: usize) -> (r: Option<u64>)
    requires
        start <= s@.len(),
    ensures
        match r {
            Some(v) => {
                &&& start < s@.len()
                &&& all_dec_chars(s@.skip(start as int))
                &&& dec_chars_value(s@.skip(start as int)) <= u64::MAX
                &&& v == dec_chars_value(s@.skip(start as int))
            },
            None => start == s@.len() || !all_dec_chars(s@.skip(start as int)) || dec_chars_value(
                s@.skip(start as int),
            ) > u64::MAX,
        },
{
    let n = s.unicode_len();
    if start == n {
        return None;
    }
    let ghost whole = s@.skip(start as int);
    proof {
        assert(whole =~= s@.subrange(start as int, n as int));
    }
    let mut acc: u64 = 0;
    let mut i: usize = start;
    while i < n
        invariant
            start <= i <= n,
            n == s@.len(),
            whole == s@.skip(start as int),
            whole =~= s@.subrange(start as int, n as int),
            all_dec_chars(s@.subrange(start as int, i as int)),
            acc == dec_chars_value(s@.subrange(start as int, i as int)),
        decreases n - i,
    {
        let c = s.get_char(i);
        let u = c as u32;
        if u < 48 || u > 57 {
            proof {
                assert(whole[i - start] == s@[i as int]);
            }
            return None;
        }
        let d: u64 = (u - 48) as u64;
        if acc > (u64::MAX - d) / 10 {
            proof {
                let prefix = s@.subrange(start as int, i + 1);
                assert(prefix.drop_last() =~= s@.subrange(start as int, i as int));
                assert(prefix.last() == c);
                assert(dec_chars_value(prefix) == acc * 10 + d);
                assert(acc * 10 + d > u64::MAX);
                lemma_dec_chars_prefix_le(whole, i + 1 - start);
                assert(whole.subrange(0, i + 1 - start) =~= prefix);
            }
            return None;
        }
        proof {
            assert(acc * 10 + d <= u64::MAX);
        }
        acc = acc * 10 + d;
        i = i + 1;
        proof {
            let prefix = s@.subrange(start as int, i as int);
            assert(prefix.drop_last() =~= s@.subrange(start as int, i - 1));
            assert(prefix.last() == c);
        }
    }
    proof {
        assert(s@.subrange(start as int, i as int) =~= whole);
    }
    Some(acc)
}

/// The uppercase digit character for a value below 16.
pub open spec fn hex_char_of(v: int) -> char {
    if v == 0 {
        '0'
    } else if v == 1 {
        '1'
    } else if v == 2 {
        '2'
    } else if v == 3 {
        '3'
    } else if v == 4 {
        '4'
    } else if v == 5 {
        '5'
    } else if v == 6 {
        '6'
    } else if v == 7 {
        '7'
    } else if v == 8 {
        '8'
    } else if v == 9 {
        '9'
    } else if v == 10 {
        'A'
    } else if v == 11 {
        'B'
    } else if v == 12 {
        'C'
    } else if v == 13 {
        'D'
    } else if v == 14 {
        'E'
    } else {
        'F'
    }
}

pub proof fn lemma_hex_char_of(v: int)
    requires
        0 <= v < 16,
    ensures
        is_upper_hex_char(hex_char_of(v)),
        is_hex_char(hex_char_of(v)),
        hex_char_value(hex_char_of(v)) == v,
{
}

/// `v` rendered as exactly `n` uppercase digits, most significant first.
pub open spec fn to_hex_fixed(v: int, n: nat) -> Seq<char>
    decreases n,
{
    if n == 0 {
        Seq::empty()
    } else {
        to_hex_fixed(v / 16, (n - 1) as nat).push(hex_char_of(v % 16))
    }
}

/// `v` rendered with no leading zero padding (a single `0` for zero).
pub open spec fn to_hex_min(v: nat) -> Seq<char>
    decreases v,
{
    if v < 16 {
        seq![hex_char_of(v as int)]
    } else {
        to_hex_min((v / 16) as nat).push(hex_char_of(v as int % 16))
    }
}

pub proof fn lemma_to_hex_fixed_ok(v: int, n: nat)
    requires
        0 <= v < pow16(n),
    ensures
        to_hex_fixed(v, n).len() == n,
        all_hex_chars(to_hex_fixed(v, n)),
        forall|i: int| 0 <= i < n ==> is_upper_hex_char(#[trigger] to_hex_fixed(v, n)[i]),
        hex_chars_value(to_hex_fixed(v, n)) == v,
    decreases n,
{
    if n == 0 {
    } else {
        assert(pow16(n) == 16 * pow16((n - 1) as nat));
        assert(v / 16 < pow16((n - 1) as nat) && v / 16 >= 0 && 0 <= v % 16 < 16) by (nonlinear_arith)
            requires
                0 <= v < 16 * pow16((n - 1) as nat),
                pow16((n - 1) as nat) >= 1,
        {
        }
        lemma_pow16_pos((n - 1) as nat);
        lemma_to_hex_fixed_ok(v / 16, (n - 1) as nat);
        lemma_hex_char_of(v % 16);
        let w = to_hex_fixed(v, n);
        assert(w.drop_last() =~= to_hex_fixed(v / 16, (n - 1) as nat));
        assert(hex_chars_value(w) == (v / 16) * 16 + (v % 16));
        assert((v / 16) * 16 + (v % 16) == v) by (nonlinear_arith);
    }
}

pub proof fn lemma_to_hex_min_ok(v: nat)
    ensures
        to_hex_min(v).len() >= 1,
        all_hex_chars(to_hex_min(v)),
        forall|i: int| 0 <= i < to_hex_min(v).len() ==> is_upper_hex_char(
            #[trigger] to_hex_min(v)[i],
        ),
        hex_chars_value(to_hex_min(v)) == v,
    decreases v,
{
    if v < 16 {
        lemma_hex_char_of(v as int);
        let w = to_hex_min(v);
        assert(w =~= seq![hex_char_of(v as int)]);
        assert(w.drop_last() =~= Seq::<char>::empty());
        assert(w.last() == hex_char_of(v as int));
        assert(hex_chars_value(w) == hex_chars_value(w.drop_last()) * 16 + hex_char_value(w.last()));
        assert(hex_chars_value(w) == v);
    } else {
        assert(v / 16 < v && v / 16 >= 1 && 0 <= v % 16 < 16) by (nonlinear_arith)
            requires
                v >= 16,
        {
        }
        lemma_to_hex_min_ok((v / 16) as nat);
        lemma_hex_char_of(v as int % 16);
        let w = to_hex_min(v);
        assert(w.drop_last() =~= to_hex_min((v / 16) as nat));
        assert(w.last() == hex_char_of(v as int % 16));
        assert(hex_chars_value(w) == hex_chars_value(w.drop_last()) * 16 + hex_char_value(w.last()));
        assert(hex_chars_value(w) == (v / 16) * 16 + (v as int % 16));
        assert((v as int / 16) * 16 + (v as int % 16) == v as int) by (nonlinear_arith)
            requires
                v as int >= 0,
        {
        }
        assert(hex_chars_value(w) == v);
    }
}

/// Appends the digit character for `v` to `out`.
pub fn push_hex_digit(out: &mut String, v: u8)
    requires
        v < 16,
    ensures
        final(out)@ == old(out)@ + seq![hex_char_of(v as int)],
{
    let ghost prev = out@;
    if v == 0 {
        out.append("0");
        proof {
            reveal_strlit("0");
            assert(out@ =~= prev + seq![hex_char_of(v as int)]);
        }
    } else if v == 1 {
        out.append("1");
        proof {
            reveal_strlit("1");
            assert(out@ =~= prev + seq![hex_char_of(v as int)]);
        }
    } else if v == 2 {
        out.append("2");
        proof {
            reveal_strlit("2");
            assert(out@ =~= prev + seq![hex_char_of(v as int)]);
        }
    } else if v == 3 {
        out.append("3");
        proof {
            reveal_strlit("3");
            assert(out@ =~= prev + seq![hex_char_of(v as int)]);
        }
    } else if v == 4 {
        out.append("4");
        proof {
            reveal_strlit("4");
            assert(out@ =~= prev + seq![hex_char_of(v as int)]);
        }
    } else if v == 5 {
        out.append("5");
        proof {
            reveal_strlit("5");
            assert(out@ =~= prev + seq![hex_char_of(v as int)]);
        }
    } else if v == 6 {
        out.append("6");
        proof {
            reveal_strlit("6");
            assert(out@ =~= prev + seq![hex_char_of(v as int)]);
        }
    } else if v == 7 {
        out.append("7");
        proof {
            reveal_strlit("7");
            assert(out@ =~= prev + seq![hex_char_of(v as int)]);
        }
    } else if v == 8 {
        out.append("8");
        proof {
            reveal_strlit("8");
            assert(out@ =~= prev + seq![hex_char_of(v as int)]);
        }
    } else if v == 9 {
        out.append("9");
        proof {
            reveal_strlit("9");
            assert(out@ =~= prev + seq![hex_char_of(v as int)]);
        }
    } else if v == 10 {
        out.append("A");
        proof {
            reveal_strlit("A");
            assert(out@ =~= prev + seq![hex_char_of(v as int)]);
        }
    } else if v == 11 {
        out.append("B");
        proof {
            reveal_strlit("B");
            assert(out@ =~= prev + seq![hex_char_of(v as int)]);
        }
    } else if v == 12 {
        out.append("C");
        proof {
            reveal_strlit("C");
            assert(out@ =~= prev + seq![hex_char_of(v as int)]);
        }
    } else if v == 13 {
        out.append("D");
        proof {
            reveal_strlit("D");
            assert(out@ =~= prev + seq![hex_char_of(v as int)]);
        }
    } else if v == 14 {
        out.append("E");
        proof {
            reveal_strlit("E");
            assert(out@ =~= prev + seq![hex_char_of(v as int)]);
        }
    } else {
        out.append("F");
        proof {
            reveal_strlit("F");
            assert(out@ =~= prev + seq![hex_char_of(v as int)]);
        }
    }
}

/// Appends `v` as exactly `n` uppercase digits.
pub fn push_hex_fixed(out: &mut String, v: u128, n: u32)
    requires
        n <= 32,
        v < pow16(n as nat),
    ensures
        final(out)@ == old(out)@ + to_hex_fixed(v as int, n as nat),
    decreases n,
{
    if n == 0 {
        assert(final(out)@ =~= old(out)@ + to_hex_fixed(v as int, 0));
    } else {
        proof {
            assert(pow16(n as nat) == 16 * pow16((n - 1) as nat));
            assert(v / 16 < pow16((n - 1) as nat)) by (nonlinear_arith)
                requires
                    0 <= v < 16 * pow16((n - 1) as nat),
            {
            }
        }
        push_hex_fixed(out, v / 16, n - 1);
        push_hex_digit(out, (v % 16) as u8);
        assert(final(out)@ =~= old(out)@ + to_hex_fixed(v as int, n as nat));
    }
}

/// `b` is the ASCII code of a hexadecimal digit, either case.
pub open spec fn is_hex_byte(b: u8) -> bool {
    (48 <= b && b <= 57) || (65 <= b && b <= 70) || (97 <= b && b <= 102)
}

/// Numeric value of a hexadecimal digit byte.
pub open spec fn hex_byte_value(b: u8) -> int {
    if 48 <= b && b <= 57 {
        b - 48
    } else if 65 <= b && b <= 70 {
        b - 55
    } else if 97 <= b && b <= 102 {
        b - 87
    } else {
        0
    }
}

/// Every byte of `s` is a hexadecimal digit.
pub open spec fn all_hex_bytes(s: Seq<u8>) -> bool {
    forall|i: int| 0 <= i < s.len() ==> is_hex_byte(#[trigger] s[i])
}

/// Value of a hexadecimal byte string, most significant digit first.
pub open spec fn hex_bytes_value(s: Seq<u8>) -> int
    decreases s.len(),
{
    if s.len() == 0 {
        0
    } else {
        hex_bytes_value(s.drop_last()) * 16 + hex_byte_value(s.last())
    }
}

pub proof fn lemma_hex_bytes_value_bound(s: Seq<u8>)
    ensures
        0 <= hex_bytes_value(s) < pow16(s.len()),
    decreases s.len(),
{
    if s.len() > 0 {
        lemma_hex_bytes_value_bound(s.drop_last());
    }
}

/// Extending a hexadecimal byte string on the right never decreases its
/// value.
pub proof fn lemma_hex_bytes_prefix_le(s: Seq<u8>, k: int)
    requires
        0 <= k <= s.len(),
    ensures
        hex_bytes_value(s.subrange(0, k)) <= hex_bytes_value(s),
    decreases s.len() - k,
{
    if k == s.len() {
        assert(s.subrange(0, k) =~= s);
    } else {
        let p = s.subrange(0, k + 1);
        assert(p.drop_last() =~= s.subrange(0, k));
        lemma_hex_bytes_value_bound(s.subrange(0, k));
        lemma_hex_bytes_prefix_le(s, k + 1);
    }
}

/// Classifies one byte as a hexadecimal digit.
pub fn hex_digit_of_byte(b: u8) -> (r: Option<u8>)
    ensures
        match r {
            Some(v) => is_hex_byte(b) && v == hex_byte_value(b) && v < 16,
            None => !is_hex_byte(b),
        },
{
    if 48 <= b && b <= 57 {
        Some(b - 48)
    } else if 65 <= b && b <= 70 {
        Some(b - 55)
    } else if 97 <= b && b <= 102 {
        Some(b - 87)
    } else {
        None
    }
}

/// Parses a whole byte token as a hexadecimal `u64`; fails exactly when the
/// token is empty, contains a non-digit, or the value does not fit.
pub fn parse_hex_bytes_u64(t: &[u8]) -> (r: Option<u64>)
    ensures
        match r {
            Some(v) => {
                &&& t@.len() > 0
                &&& all_hex_bytes(t@)
                &&& hex_bytes_value(t@) <= u64::MAX
                &&& v == hex_bytes_value(t@)
            },
            None => t@.len() == 0 || !all_hex_bytes(t@) || hex_bytes_value(t@) > u64::MAX,
        },
{
    let n = t.len();
    if n == 0 {
        return None;
    }
    let mut acc: u64 = 0;
    let mut i: usize = 0;
    while i < n
        invariant
            0 <= i <= n,
            n == t@.len(),
            all_hex_bytes(t@.subrange(0, i as int)),
            acc == hex_bytes_value(t@.subrange(0, i as int)),
        decreases n - i,
    {
        let b = t[i];
        match hex_digit_of_byte(b) {
            None => {
                assert(t@.subrange(0, n as int) =~= t@);
                return None;
            },
            Some(d) => {
                if acc > (u64::MAX - d as u64) / 16 {
                    proof {
                        let prefix = t@.subrange(0, i + 1);
                        assert(prefix.drop_last() =~= t@.subrange(0, i as int));
                        assert(prefix.last() == b);
                        assert(hex_bytes_value(prefix) == acc * 16 + d);
                        assert(acc * 16 + d > u64::MAX);
                        lemma_hex_bytes_prefix_le(t@, i + 1);
                        assert(t@.subrange(0, i + 1) =~= prefix);
                    }
                    return None;
                }
                proof {
                    assert(acc * 16 + d <= u64::MAX);
                }
                acc = acc * 16 + (d as u64);
                i = i + 1;
                proof {
                    let prefix = t@.subrange(0, i as int);
                    assert(prefix.drop_last() =~= t@.subrange(0, i - 1));
                    assert(prefix.last() == b);
                }
            },
        }
    }
    proof {
        assert(t@.subrange(0, i as int) =~= t@);
    }
    Some(acc)
}

/// `b` is the ASCII code of a decimal digit.
pub open spec fn is_dec_byte(b: u8) -> bool {
    48 <= b && b <= 57
}

/// Every byte of `s` is a decimal digit.
pub open spec fn all_dec_bytes(s: Seq<u8>) -> bool {
    forall|i: int| 0 <= i < s.len() ==> is_dec_byte(#[trigger] s[i])
}

/// Value of a decimal byte string, most significant digit first.
pub open spec fn dec_bytes_value(s: Seq<u8>) -> int
    decreases s.len(),
{
    if s.len() == 0 {
        0
    } else {
        dec_bytes_value(s.drop_last()) * 10 + if is_dec_byte(s.last()) {
            s.last() - 48
        } else {
            0
        }
    }
}

pub proof fn lemma_dec_bytes_value_nonneg(s: Seq<u8>)
    ensures
        0 <= dec_bytes_value(s),
    decreases s.len(),
{
    if s.len() > 0 {
        lemma_dec_bytes_value_nonneg(s.drop_last());
    }
}

/// Extending a decimal byte string on the right never decreases its value.
pub proof fn lemma_dec_bytes_prefix_le(s: Seq<u8>, k: int)
    requires
        0 <= k <= s.len(),
    ensures
        dec_bytes_value(s.subrange(0, k)) <= dec_bytes_value(s),
    decreases s.len() - k,
{
    if k == s.len() {
        assert(s.subrange(0, k) =~= s);
    } else {
        let p = s.subrange(0, k + 1);
        assert(p.drop_last() =~= s.subrange(0, k));
        lemma_dec_bytes_value_nonneg(s.subrange(0, k));
        lemma_dec_bytes_prefix_le(s, k + 1);
    }
}

/// Parses a whole byte token as a decimal `u32`; fails exactly when the
/// token is empty, contains a non-digit, or the value does not fit.
pub fn parse_dec_bytes_u32(t: &[u8]) -> (r: Option<u32>)
    ensures
        match r {
            Some(v) => {
                &&& t@.len() > 0
                &&& all_dec_bytes(t@)
                &&& dec_bytes_value(t@) <= u32::MAX
                &&& v == dec_bytes_value(t@)
            },
            None => t@.len() == 0 || !all_dec_bytes(t@) || dec_bytes_value(t@) > u32::MAX,
        },
{
    let n = t.len();
    if n == 0 {
        return None;
    }
    let mut acc: u64 = 0;
    let mut i: usize = 0;
    while i < n
        invariant
            0 <= i <= n,
            n == t@.len(),
            all_dec_bytes(t@.subrange(0, i as int)),
            acc == dec_bytes_value(t@.subrange(0, i as int)),
            acc <= u32::MAX,
        decreases n - i,
    {
        let b = t[i];
        if b < 48 || b > 57 {
            assert(t@.subrange(0, n as int) =~= t@);
            return None;
        }
        let d: u64 = (b - 48) as u64;
        let next: u64 = acc * 10 + d;
        if next > u32::MAX as u64 {
            proof {
                let prefix = t@.subrange(0, i + 1);
                assert(prefix.drop_last() =~= t@.subrange(0, i as int));
                assert(prefix.last() == b);
                assert(dec_bytes_value(prefix) == next);
                lemma_dec_bytes_prefix_le(t@, i + 1);
                assert(t@.subrange(0, i + 1) =~= prefix);
            }
            return None;
        }
        acc = next;
        i = i + 1;
        proof {
            let prefix = t@.subrange(0, i as int);
            assert(prefix.drop_last() =~= t@.subrange(0, i - 1));
            assert(prefix.last() == b);
        }
    }
    proof {
        assert(t@.subrange(0, i as int) =~= t@);
    }
    Some(acc as u32)
}

/// Appends `v` with no leading zero padding.
pub fn push_hex_min(out: &mut String, v: u32)
    ensures
        final(out)@ == old(out)@ + to_hex_min(v as nat),
    decreases v,
{
    if v < 16 {
        push_hex_digit(out, v as u8);
        assert(final(out)@ =~= old(out)@ + to_hex_min(v as nat));
    } else {
        proof {
            assert(v / 16 < v) by (nonlinear_arith)
                requires
                    v >= 16,
            {
            }
        }
        push_hex_min(out, v / 16);
        push_hex_digit(out, (v % 16) as u8);
        assert(final(out)@ =~= old(out)@ + to_hex_min(v as nat));
    }
}

} // verus!
