//! Decimal rendering and parsing of the signed numbers a cell can hold.

use vstd::prelude::*;
use crate::chars::string_from_chars;

verus! {

/// The character for one decimal digit value.
pub open spec fn digit_char(d: int) -> char {
    ((0x30 + d) as u8) as char
}

/// Whether a character is a decimal digit.
pub open spec fn is_digit_char(c: char) -> bool {
    0x30 <= c as u32 && c as u32 <= 0x39
}

/// The value of a decimal digit character.
pub open spec fn digit_val(c: char) -> int {
    c as u32 - 0x30
}

/// The decimal digits of a non-negative number, most significant first.
pub open spec fn dec_digits(n: nat) -> Seq<char>
    decreases n,
{
    if n < 10 {
        seq![digit_char(n as int)]
    } else {
        dec_digits(n / 10).push(digit_char((n % 10) as int))
    }
}

/// The decimal rendering of a number, with a leading minus sign if negative.
pub open spec fn dec_seq(n: int) -> Seq<char> {
    if n < 0 {
        seq!['-'] + dec_digits((-n) as nat)
    } else {
        dec_digits(n as nat)
    }
}

fn push_digits(m: u64, v: &mut Vec<char>)
    ensures
        final(v)@ == old(v)@ + dec_digits(m as nat),
    decreases m,
{
    if m < 10 {
        v.push((0x30 + (m as u8)) as char);
        proof {
            assert(old(v)@ + dec_digits(m as nat) =~= final(v)@);
        }
    } else {
        push_digits(m / 10, v);
        let ghost mid = v@;
        v.push((0x30 + ((m % 10) as u8)) as char);
        proof {
            assert(old(v)@ + dec_digits(m as nat) =~= final(v)@);
        }
    }
}

/// The decimal rendering of a signed number, as `i64::to_string` gives it.
pub fn i64_to_string(n: i64) -> (r: String)
    ensures
        r@ == dec_seq(n as int),
{
    let mut v: Vec<char> = Vec::new();
    if n < 0 {
        v.push('-');
        let mag: u64 = (-(n as i128)) as u64;
        push_digits(mag, &mut v);
        proof {
            assert(v@ =~= dec_seq(n as int));
        }
    } else {
        let mag: u64 = n as u64;
        push_digits(mag, &mut v);
        proof {
            assert(v@ =~= dec_seq(n as int));
        }
    }
    string_from_chars(v.as_slice())
}

/// The numeric value of a digit string, most significant digit first.
pub open spec fn digits_val(s: Seq<char>) -> int
    decreases s.len(),
{
    if s.len() == 0 {
        0
    } else {
        digits_val(s.drop_last()) * 10 + digit_val(s.last())
    }
}

/// Whether every character is a decimal digit.
pub open spec fn all_digits(s: Seq<char>) -> bool {
    forall|i: int| 0 <= i < s.len() ==> is_digit_char(s[i])
}

/// Whether a string is a well-formed integer literal: an optional sign
/// followed by at least one digit, as `str::parse` to a signed integer wants.
pub open spec fn is_int_literal(s: Seq<char>) -> bool {
    let body = if s.len() > 0 && (s[0] == '-' || s[0] == '+') {
        s.subrange(1, s.len() as int)
    } else {
        s
    };
    body.len() > 0 && all_digits(body)
}

/// The mathematical value of a well-formed integer literal.
pub open spec fn int_literal_val(s: Seq<char>) -> int {
    if s.len() > 0 && s[0] == '-' {
        -digits_val(s.subrange(1, s.len() as int))
    } else if s.len() > 0 && s[0] == '+' {
        digits_val(s.subrange(1, s.len() as int))
    } else {
        digits_val(s)
    }
}

/// Whether `str::parse::<i64>` accepts the string: a well-formed literal
/// whose value fits the type.
pub open spec fn is_i64_literal(s: Seq<char>) -> bool {
    is_int_literal(s) && i64::MIN <= int_literal_val(s) <= i64::MAX
}

proof fn lemma_digits_val_nonneg(s: Seq<char>)
    requires
        all_digits(s),
    ensures
        digits_val(s) >= 0,
    decreases s.len(),
{
    if s.len() > 0 {
        assert(all_digits(s.drop_last()));
        lemma_digits_val_nonneg(s.drop_last());
        assert(digit_val(s.last()) >= 0);
    }
}

proof fn lemma_digits_val_prefix_le(s: Seq<char>, i: int)
    requires
        all_digits(s),
        0 <= i <= s.len(),
    ensures
        digits_val(s.subrange(0, i)) <= digits_val(s),
    decreases s.len() - i,
{
    if i < s.len() {
        let t = s.subrange(0, i + 1);
        assert(t.drop_last() =~= s.subrange(0, i));
        assert(all_digits(s.subrange(0, i + 1)));
        lemma_digits_val_nonneg(s.subrange(0, i));
        assert(digits_val(s.subrange(0, i + 1)) == digits_val(s.subrange(0, i)) * 10 + digit_val(
            s[i],
        ));
        assert(digits_val(s.subrange(0, i)) * 10 >= digits_val(s.subrange(0, i))) by (nonlinear_arith)
            requires
                digits_val(s.subrange(0, i)) >= 0,
        ;
        lemma_digits_val_prefix_le(s, i + 1);
        assert(s.subrange(0, s.len() as int) =~= s);
    } else {
        assert(s.subrange(0, s.len() as int) =~= s);
    }
}

pub(crate) fn parse_digits(v: &[char], start: usize) -> (r: Option<u64>)
    requires
        start <= v@.len(),
    ensures
        ({
            let body = v@.subrange(start as int, v@.len() as int);
            match r {
                Some(m) => body.len() > 0 && all_digits(body) && m as int == digits_val(body),
                None => !(body.len() > 0 && all_digits(body) && digits_val(body) <= u64::MAX),
            }
        }),
{
    let n = v.len();
    if start >= n {
        return None;
    }
    let mut m: u64 = 0;
    let mut i: usize = start;
    while i < n
        invariant
            start <= i <= n,
            n == v@.len(),
            all_digits(v@.subrange(start as int, i as int)),
            m as int == digits_val(v@.subrange(start as int, i as int)),
        decreases n - i,
    {
        let c = v[i];
        let u = c as u32;
        let ghost body = v@.subrange(start as int, v@.len() as int);
        if !(0x30 <= u && u <= 0x39) {
            proof {
                assert(body[i - start] == v@[i as int]);
                assert(!is_digit_char(body[i - start]));
            }
            return None;
        }
        let d: u64 = (u - 0x30) as u64;
        let ghost pre = v@.subrange(start as int, i as int);
        let ghost cur = v@.subrange(start as int, i + 1);
        proof {
            assert(cur.drop_last() =~= pre);
            assert(cur.last() == v@[i as int]);
        }
        let m10 = match m.checked_mul(10) {
            Some(x) => x,
            None => {
                proof {
                    lemma_digits_val_nonneg(pre);
                    assert(digits_val(cur) == digits_val(pre) * 10 + digit_val(v@[i as int]));
                    assert(digits_val(pre) * 10 > u64::MAX) by (nonlinear_arith)
                        requires
                            digits_val(pre) >= 0,
                            digits_val(pre) * 10 > u64::MAX || digits_val(pre) * 10
                                <= u64::MAX,
                            !(digits_val(pre) * 10 <= u64::MAX),
                    ;
                    if all_digits(body) {
                        lemma_sub_of_sub(v@, start as int, i + 1);
                        lemma_digits_val_prefix_le(body, i + 1 - start);
                        assert(digits_val(cur) <= digits_val(body));
                    }
                }
                return None;
            },
        };
        let msum = match m10.checked_add(d) {
            Some(x) => x,
            None => {
                proof {
                    assert(digits_val(cur) == digits_val(pre) * 10 + digit_val(v@[i as int]));
                    if all_digits(body) {
                        lemma_sub_of_sub(v@, start as int, i + 1);
                        lemma_digits_val_prefix_le(body, i + 1 - start);
                        assert(digits_val(cur) <= digits_val(body));
                    }
                }
                return None;
            },
        };
        proof {
            assert(digits_val(cur) == digits_val(pre) * 10 + digit_val(v@[i as int]));
        }
        m = msum;
        i = i + 1;
    }
    Some(m)
}

proof fn lemma_sub_of_sub(s: Seq<char>, start: int, j: int)
    requires
        0 <= start <= j <= s.len(),
    ensures
        s.subrange(start, s.len() as int).subrange(0, j - start) == s.subrange(start, j),
{
    assert(s.subrange(start, s.len() as int).subrange(0, j - start) =~= s.subrange(start, j));
}

/// Parse a signed number exactly as `str::parse::<i64>` does: `Some` iff
/// the string is an optional sign followed by digits and the value fits.
pub fn parse_i64(v: &[char]) -> (r: Option<i64>)
    ensures
        r is Some <==> is_i64_literal(v@),
        r is Some ==> r->0 as int == int_literal_val(v@),
{
    let n = v.len();
    if n == 0 {
        return None;
    }
    let first = v[0];
    let neg = first == '-';
    let signed = neg || first == '+';
    let start: usize = if signed {
        1
    } else {
        0
    };
    let ghost body = v@.subrange(start as int, v@.len() as int);
    proof {
        if !signed {
            assert(body =~= v@);
        }
    }
    match parse_digits(v, start) {
        None => {
            proof {
                if is_i64_literal(v@) {
                    lemma_digits_val_nonneg(body);
                    if neg {
                        assert(int_literal_val(v@) == -digits_val(body));
                        assert(digits_val(body) <= -(i64::MIN as int));
                    } else {
                        assert(int_literal_val(v@) == digits_val(body));
                        assert(digits_val(body) <= i64::MAX as int);
                    }
                    assert(digits_val(body) <= u64::MAX);
                }
            }
            None
        },
        Some(m) => {
            if neg {
                if m <= 0x7fff_ffff_ffff_ffff {
                    Some(-(m as i64))
                } else if m == 0x8000_0000_0000_0000 {
                    Some(i64::MIN)
                } else {
                    None
                }
            } else {
                if m <= 0x7fff_ffff_ffff_ffff {
                    Some(m as i64)
                } else {
                    None
                }
            }
        },
    }
}

} // verus!

verus! {

/// Whether `str::parse` to an unsigned integer accepts the string: an
/// optional plus sign, then digits, with a value that fits in 64 bits.
pub open spec fn is_uint_literal(s: Seq<char>) -> bool {
    let body = if s.len() > 0 && s[0] == '+' {
        s.subrange(1, s.len() as int)
    } else {
        s
    };
    body.len() > 0 && all_digits(body) && digits_val(body) <= u64::MAX
}

/// The value of an unsigned integer literal.
pub open spec fn uint_literal_val(s: Seq<char>) -> int {
    if s.len() > 0 && s[0] == '+' {
        digits_val(s.subrange(1, s.len() as int))
    } else {
        digits_val(s)
    }
}

/// Parse an unsigned number exactly as `str::parse::<u64>` does.
pub fn parse_u64(v: &[char]) -> (r: Option<u64>)
    ensures
        r is Some <==> is_uint_literal(v@),
        r matches Some(m) ==> m as int == uint_literal_val(v@),
{
    let n = v.len();
    if n == 0 {
        return None;
    }
    let start: usize = if v[0] == '+' {
        1
    } else {
        0
    };
    let ghost body = v@.subrange(start as int, v@.len() as int);
    proof {
        if start == 0 {
            assert(body =~= v@);
        }
    }
    parse_digits(v, start)
}

} // verus!

verus! {

proof fn lemma_dec_digits_val(m: nat)
    ensures
        all_digits(dec_digits(m)),
        digits_val(dec_digits(m)) == m,
        dec_digits(m).len() >= 1,
        is_digit_char(dec_digits(m)[0]),
    decreases m,
{
    if m < 10 {
        let s1 = dec_digits(m);
        assert(s1 =~= seq![digit_char(m as int)]);
        assert(s1.len() == 1);
        assert(s1.last() == digit_char(m as int));
        assert(s1.drop_last() =~= Seq::<char>::empty());
        assert(digit_char(m as int) as u32 == 0x30 + m);
        assert(digit_val(digit_char(m as int)) == m);
        assert(digits_val(s1) == digits_val(s1.drop_last()) * 10 + digit_val(s1.last()));
        assert(digits_val(s1.drop_last()) == 0);
    } else {
        lemma_dec_digits_val(m / 10);
        let s = dec_digits(m);
        assert(s =~= dec_digits(m / 10).push(digit_char((m % 10) as int)));
        assert(s.drop_last() =~= dec_digits(m / 10));
        assert(s.last() == digit_char((m % 10) as int));
        assert(all_digits(s)) by {
            assert(forall|i: int|
                0 <= i < s.len() - 1 ==> s[i] == (#[trigger] dec_digits(m / 10)[i]));
        }
        assert(digits_val(s) == digits_val(dec_digits(m / 10)) * 10 + digit_val(s.last()));
        assert(m % 10 < 10) by (nonlinear_arith);
        assert(digit_char((m % 10) as int) as u32 == 0x30 + m % 10);
        assert(digit_val(s.last()) == m % 10);
        assert((m / 10) * 10 + m % 10 == m) by (nonlinear_arith);
    }
}

/// Rendering a number and parsing it back yields the same number: the
/// decimal string of any machine integer is a valid literal with that
/// value.
pub proof fn lemma_parse_dec_seq(n: int)
    requires
        i64::MIN <= n <= i64::MAX,
    ensures
        is_i64_literal(dec_seq(n)),
        int_literal_val(dec_seq(n)) == n,
{
    if n < 0 {
        lemma_dec_digits_val((-n) as nat);
        let s = dec_seq(n);
        assert(s =~= seq!['-'] + dec_digits((-n) as nat));
        assert(s[0] == '-');
        assert(s.subrange(1, s.len() as int) =~= dec_digits((-n) as nat));
    } else {
        lemma_dec_digits_val(n as nat);
        let s = dec_seq(n);
        assert(s =~= dec_digits(n as nat));
        assert(is_digit_char(s[0]));
        assert(s[0] != '-' && s[0] != '+');
    }
}

} // verus!
