//! Decimal and hexadecimal text of integers: what `{}` writes for an `i64`,
//! what `{:016x}` writes for a `u64`, and what `str::parse::<i64>` accepts.
use vstd::prelude::*;

verus! {

/// The decimal digit character for `d < 10`.
pub open spec fn digit_char(d: nat) -> char {
    (48 + d) as char
}

/// Whether `c` is one of `0`..`9`.
pub open spec fn is_digit(c: char) -> bool {
    48 <= c as u32 <= 57
}

/// The value of a decimal digit character.
pub open spec fn digit_value(c: char) -> nat {
    (c as u32 - 48) as nat
}

/// The decimal digits of `n`, without leading zeros.
pub open spec fn nat_digits(n: nat) -> Seq<char>
    decreases n,
{
    if n < 10 {
        seq![digit_char(n)]
    } else {
        nat_digits(n / 10) + seq![digit_char(n % 10)]
    }
}

/// The decimal text of `n`, with a `-` in front of a negative number.
pub open spec fn int_text(n: int) -> Seq<char> {
    if n < 0 {
        seq!['-'] + nat_digits((-n) as nat)
    } else {
        nat_digits(n as nat)
    }
}

/// Whether every character of `s` is a decimal digit.
pub open spec fn all_digits(s: Seq<char>) -> bool {
    forall|i: int| 0 <= i < s.len() ==> is_digit(#[trigger] s[i])
}

/// The number that the decimal digits `s` spell.
pub open spec fn digits_value(s: Seq<char>) -> nat
    decreases s.len(),
{
    if s.len() == 0 {
        0
    } else {
        digits_value(s.drop_last()) * 10 + digit_value(s.last())
    }
}

/// The integer that `s` spells: an optional `+` or `-`, then one or more decimal digits.
pub open spec fn parse_int(s: Seq<char>) -> Option<int> {
    if s.len() == 0 {
        None
    } else {
        let body = if s[0] == '-' || s[0] == '+' {
            s.drop_first()
        } else {
            s
        };
        if body.len() == 0 || !all_digits(body) {
            None
        } else if s[0] == '-' {
            Some(-(digits_value(body) as int))
        } else {
            Some(digits_value(body) as int)
        }
    }
}

/// What `str::parse::<i64>` gives back for `s`: the integer it spells, where that fits.
pub open spec fn parse_i64_spec(s: Seq<char>) -> Option<i64> {
    match parse_int(s) {
        Some(v) => if i64::MIN <= v <= i64::MAX {
            Some(v as i64)
        } else {
            None
        },
        None => None,
    }
}

/// The hexadecimal digit character for `d < 16`, lower case.
pub open spec fn hex_char(d: nat) -> char {
    if d < 10 {
        (48 + d) as char
    } else {
        (87 + d) as char
    }
}

/// The last `n` hexadecimal digits of `v`, most significant first.
pub open spec fn hex_digits(v: nat, n: nat) -> Seq<char>
    decreases n,
{
    if n == 0 {
        seq![]
    } else {
        hex_digits(v / 16, (n - 1) as nat) + seq![hex_char(v % 16)]
    }
}

/// The value of a hexadecimal digit character, `0`-`9` then `a`-`f`.
pub open spec fn hex_digit_value(c: char) -> int {
    if 48 <= c as u32 <= 57 {
        c as u32 - 48
    } else {
        c as u32 - 87
    }
}

/// The number that the hexadecimal digits `s` spell, most significant first.
pub open spec fn hex_value(s: Seq<char>) -> int
    decreases s.len(),
{
    if s.len() == 0 {
        0
    } else {
        hex_value(s.drop_last()) * 16 + hex_digit_value(s.last())
    }
}

/// Read as a hexadecimal number, the last `n` digits of `v` spell `v` modulo 16^n: the
/// digits run from the most significant, with leading zeros.
pub proof fn lemma_hex_digits_value(v: nat, n: nat)
    ensures
        hex_value(hex_digits(v, n)) == (v as int) % vstd::arithmetic::power::pow(16, n),
    decreases n,
{
    vstd::arithmetic::power::lemma_pow_positive(16, n);
    if n == 0 {
        vstd::arithmetic::power::lemma_pow0(16);
    } else {
        let m = (n - 1) as nat;
        lemma_hex_digits_value(v / 16, m);
        let h = hex_digits(v, n);
        assert(h.drop_last() == hex_digits(v / 16, m));
        assert(h.last() == hex_char(v % 16));
        assert(hex_digit_value(hex_char(v % 16)) == v % 16);
        let p = vstd::arithmetic::power::pow(16, m);
        vstd::arithmetic::power::lemma_pow_positive(16, m);
        vstd::arithmetic::power::lemma_pow_adds(16, 1, m);
        vstd::arithmetic::power::lemma_pow1(16);
        assert(vstd::arithmetic::power::pow(16, n) == 16 * p);
        vstd::arithmetic::div_mod::lemma_mod_breakdown(v as int, 16, p);
        assert(hex_value(h) == ((v / 16) as int % p) * 16 + v % 16);
    }
}

fn digit_of(d: u64) -> (c: char)
    requires
        d < 10,
    ensures
        c == digit_char(d as nat),
{
    let b: u8 = 48 + d as u8;
    b as char
}

fn push_nat_digits(out: &mut Vec<char>, n: u64)
    ensures
        final(out)@ == old(out)@ + nat_digits(n as nat),
    decreases n,
{
    if n >= 10 {
        push_nat_digits(out, n / 10);
    }
    out.push(digit_of(n % 10));
    proof {
        if n >= 10 {
            assert(nat_digits(n as nat) == nat_digits((n / 10) as nat) + seq![digit_char(
                (n % 10) as nat,
            )]);
        }
    }
}

/// Appends the decimal text of `n` to `out`, as `{}` writes it.
pub fn push_i64(out: &mut Vec<char>, n: i64)
    ensures
        final(out)@ == old(out)@ + int_text(n as int),
{
    if n < 0 {
        out.push('-');
        let m: u64 = (-(n as i128)) as u64;
        push_nat_digits(out, m);
    } else {
        push_nat_digits(out, n as u64);
    }
}

/// Appends the 16 lower-case hexadecimal digits of `v` to `out`, as `{:016x}` writes them.
fn push_hex_digits(out: &mut Vec<char>, v: u64, n: u32)
    requires
        n <= 16,
    ensures
        final(out)@ == old(out)@ + hex_digits(v as nat, n as nat),
    decreases n,
{
    if n > 0 {
        push_hex_digits(out, v / 16, n - 1);
        let d: u64 = v % 16;
        let c: char = if d < 10 {
            (48 + d as u8) as char
        } else {
            (87 + d as u8) as char
        };
        out.push(c);
    }
}

/// Appends the 16 lower-case hexadecimal digits of `v` to `out`, as `{:016x}` writes them.
pub fn push_hex16(out: &mut Vec<char>, v: u64)
    ensures
        final(out)@ == old(out)@ + hex_digits(v as nat, 16),
{
    push_hex_digits(out, v, 16);
}

/// A prefix of a string of digits spells no more than the whole.
pub proof fn lemma_digits_value_prefix(s: Seq<char>, k: int)
    requires
        0 <= k <= s.len(),
    ensures
        digits_value(s.take(k)) <= digits_value(s),
    decreases s.len(),
{
    if k < s.len() {
        assert(s.drop_last().take(k) == s.take(k));
        lemma_digits_value_prefix(s.drop_last(), k);
    } else {
        assert(s.take(k) == s);
    }
}

/// Parses an `i64` from `s[lo..hi]`, as `str::parse::<i64>` does.
pub fn parse_i64(s: &Vec<char>, lo: usize, hi: usize) -> (r: Option<i64>)
    requires
        lo <= hi <= s.len(),
    ensures
        r == parse_i64_spec(s@.subrange(lo as int, hi as int)),
{
    let ghost t = s@.subrange(lo as int, hi as int);
    if lo == hi {
        return None;
    }
    let neg = s[lo] == '-';
    let start: usize = if s[lo] == '-' || s[lo] == '+' {
        lo + 1
    } else {
        lo
    };
    let ghost body = if t[0] == '-' || t[0] == '+' {
        t.drop_first()
    } else {
        t
    };
    assert(body == s@.subrange(start as int, hi as int));
    if start == hi {
        return None;
    }
    let mut acc: u64 = 0;
    let mut i: usize = start;
    while i < hi
        invariant
            lo <= start <= i <= hi <= s.len(),
            lo < hi,
            t == s@.subrange(lo as int, hi as int),
            neg == (t[0] == '-'),
            body == (if t[0] == '-' || t[0] == '+' {
                t.drop_first()
            } else {
                t
            }),
            body.len() > 0,
            body == s@.subrange(start as int, hi as int),
            body.take(i - start) == s@.subrange(start as int, i as int),
            all_digits(s@.subrange(start as int, i as int)),
            acc as nat == digits_value(s@.subrange(start as int, i as int)),
            acc <= 0x8000_0000_0000_0000u64,
        decreases hi - i,
    {
        let c = s[i];
        if !(48 <= c as u32 && c as u32 <= 57) {
            assert(!is_digit(body[i - start]));
            return None;
        }
        let d: u64 = (c as u32 - 48) as u64;
        let ghost pre = s@.subrange(start as int, i as int);
        let ghost next = s@.subrange(start as int, i + 1);
        assert(next.drop_last() == pre);
        assert(digits_value(next) == digits_value(pre) * 10 + d);
        if acc > 922_337_203_685_477_580 || (acc == 922_337_203_685_477_580 && d > 8) {
            proof {
                if all_digits(body) {
                    assert(body.take(i + 1 - start) == next);
                    lemma_digits_value_prefix(body, i + 1 - start);
                    assert(digits_value(next) > 0x8000_0000_0000_0000) by (nonlinear_arith)
                        requires
                            digits_value(next) == acc * 10 + d,
                            acc > 922_337_203_685_477_580 || (acc == 922_337_203_685_477_580
                                && d > 8),
                    ;
                }
            }
            return None;
        }
        acc = acc * 10 + d;
        i = i + 1;
        assert(all_digits(next)) by {
            assert forall|j: int| 0 <= j < next.len() implies is_digit(#[trigger] next[j]) by {
                if j < next.len() - 1 {
                    assert(next[j] == pre[j]);
                }
            }
        }
    }
    assert(s@.subrange(start as int, hi as int) == body);
    if neg {
        if acc == 0x8000_0000_0000_0000u64 {
            Some(i64::MIN)
        } else {
            Some(-(acc as i64))
        }
    } else {
        if acc > 0x7fff_ffff_ffff_ffffu64 {
            None
        } else {
            Some(acc as i64)
        }
    }
}

/// The digits of `n` are a non-empty string of decimal digits that spells `n`.
pub proof fn lemma_nat_digits(n: nat)
    ensures
        nat_digits(n).len() > 0,
        all_digits(nat_digits(n)),
        digits_value(nat_digits(n)) == n,
    decreases n,
{
    let d = digit_char(n % 10);
    assert(d as u32 == 48 + n % 10);
    if n >= 10 {
        lemma_nat_digits(n / 10);
        let s = nat_digits(n);
        assert(s.drop_last() == nat_digits(n / 10));
        assert(s.last() == d);
        assert(digit_value(d) == n % 10);
        assert((n / 10) * 10 + n % 10 == n) by (nonlinear_arith);
        assert forall|i: int| 0 <= i < s.len() implies is_digit(#[trigger] s[i]) by {
            if i < s.len() - 1 {
                assert(s[i] == nat_digits(n / 10)[i]);
            }
        }
    } else {
        assert(nat_digits(n).drop_last() =~= Seq::<char>::empty());
        assert(digits_value(Seq::<char>::empty()) == 0);
    }
}

/// The decimal text of an integer is digits after an optional `-`, and ends in a digit.
pub proof fn lemma_int_text_chars(n: int)
    ensures
        int_text(n).len() > 0,
        is_digit(int_text(n).last()),
        forall|i: int| 0 <= i < int_text(n).len() ==> is_digit(#[trigger] int_text(n)[i]) || int_text(n)[i] == '-',
{
    let t = int_text(n);
    if n < 0 {
        let d = nat_digits((-n) as nat);
        lemma_nat_digits((-n) as nat);
        assert forall|i: int| 0 <= i < t.len() implies is_digit(#[trigger] t[i]) || t[i] == '-' by {
            if i > 0 {
                assert(t[i] == d[i - 1]);
            }
        }
        assert(t.last() == d.last());
    } else {
        lemma_nat_digits(n as nat);
    }
}

/// Whether `c` is one of `0`..`9`, `a`..`f`.
pub open spec fn is_lower_hex(c: char) -> bool {
    48 <= c as u32 <= 57 || 97 <= c as u32 <= 102
}

/// `n` hexadecimal digits are `n` characters from `0`..`9`, `a`..`f`.
pub proof fn lemma_hex_digits(v: nat, n: nat)
    ensures
        hex_digits(v, n).len() == n,
        forall|i: int| 0 <= i < n ==> is_lower_hex(#[trigger] hex_digits(v, n)[i]),
    decreases n,
{
    if n > 0 {
        lemma_hex_digits(v / 16, (n - 1) as nat);
        let h = hex_digits(v, n);
        let d = v % 16;
        assert(hex_char(d) as u32 == if d < 10 { 48 + d } else { 87 + d });
        assert forall|i: int| 0 <= i < n implies is_lower_hex(#[trigger] h[i]) by {
            if i < n - 1 {
                assert(h[i] == hex_digits(v / 16, (n - 1) as nat)[i]);
            }
        }
    }
}

/// Reading back the decimal text of an `i64` gives the same number.
pub proof fn lemma_i64_text_round_trip(n: i64)
    ensures
        parse_i64_spec(int_text(n as int)) == Some(n),
{
    let s = int_text(n as int);
    if n < 0 {
        let m = (-n) as nat;
        lemma_nat_digits(m);
        assert(s.drop_first() == nat_digits(m));
    } else {
        lemma_nat_digits(n as nat);
        assert(is_digit(s[0]));
    }
}

} // verus!
