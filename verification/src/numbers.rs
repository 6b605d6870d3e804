//! Decimal numerals: parsing the signed 16-bit numbers of a table column and
//! rendering signed integers back to text.

use vstd::prelude::*;

verus! {

/// A decimal digit.
pub open spec fn is_digit(c: char) -> bool {
    '0' <= c && c <= '9'
}

/// The numeric value of a digit character.
pub open spec fn digit_val(c: char) -> int {
    c as int - '0' as int
}

/// Every character is a digit.
pub open spec fn all_digits(s: Seq<char>) -> bool {
    forall|i: int| 0 <= i < s.len() ==> is_digit(#[trigger] s[i])
}

/// The value of an unsigned digit string, most significant digit first.
pub open spec fn digits_val(s: Seq<char>) -> int
    decreases s.len(),
{
    if s.len() == 0 {
        0
    } else {
        digits_val(s.drop_last()) * 10 + digit_val(s.last())
    }
}

/// The value of a digit string is never negative.
pub proof fn lemma_digits_val_nonneg(s: Seq<char>)
    requires
        all_digits(s),
    ensures
        digits_val(s) >= 0,
    decreases s.len(),
{
    if s.len() > 0 {
        assert(all_digits(s.drop_last()));
        lemma_digits_val_nonneg(s.drop_last());
    }
}

/// Extending a digit string on the right multiplies its value by ten and
/// adds the new digit.
pub proof fn lemma_digits_val_take(s: Seq<char>, i: int)
    requires
        0 <= i < s.len(),
    ensures
        digits_val(s.take(i + 1)) == digits_val(s.take(i)) * 10 + digit_val(s[i]),
{
    assert(s.take(i + 1).drop_last() =~= s.take(i));
    assert(s.take(i + 1).last() == s[i]);
}

/// The value of a digit string is at least the value of any of its prefixes.
pub proof fn lemma_digits_val_grows(s: Seq<char>, i: int)
    requires
        all_digits(s),
        0 <= i <= s.len(),
    ensures
        digits_val(s) >= digits_val(s.take(i)),
    decreases s.len() - i,
{
    if i < s.len() {
        lemma_digits_val_take(s, i);
        assert(all_digits(s.take(i)));
        lemma_digits_val_nonneg(s.take(i));
        lemma_digits_val_grows(s, i + 1);
    } else {
        assert(s.take(i) =~= s);
    }
}

/// The meaning of a signed 16-bit numeral: one optional sign, then one or
/// more digits, with the value in range; anything else is rejected.
pub open spec fn parse_i16_spec(s: Seq<char>) -> Option<i16> {
    let neg = s.len() > 0 && s[0] == '-';
    let signed = neg || (s.len() > 0 && s[0] == '+');
    let body = if signed {
        s.drop_first()
    } else {
        s
    };
    if body.len() == 0 || !all_digits(body) {
        None
    } else {
        let v = digits_val(body);
        if neg {
            if v <= 32768 {
                Some((-v) as i16)
            } else {
                None
            }
        } else {
            if v <= 32767 {
                Some(v as i16)
            } else {
                None
            }
        }
    }
}

/// Parses a signed 16-bit decimal numeral.
pub fn parse_i16(v: &Vec<char>) -> (r: Option<i16>)
    ensures
        r == parse_i16_spec(v@),
{
    let mut idx: usize = 0;
    let mut neg = false;
    if v.len() > 0 && (v[0] == '-' || v[0] == '+') {
        neg = v[0] == '-';
        idx = 1;
    }
    let ghost body = if idx == 1 {
        v@.drop_first()
    } else {
        v@
    };
    proof {
        assert(body =~= v@.skip(idx as int));
    }
    if idx >= v.len() {
        return None;
    }
    let mut acc: u32 = 0;
    let mut i: usize = idx;
    while i < v.len()
        invariant
            idx <= i <= v.len(),
            idx < v@.len(),
            idx == 1 <==> v@.len() > 0 && (v@[0] == '-' || v@[0] == '+'),
            idx <= 1,
            neg <==> v@.len() > 0 && v@[0] == '-',
            body == v@.skip(idx as int),
            body == (if v@.len() > 0 && (v@[0] == '-' || v@[0] == '+') {
                v@.drop_first()
            } else {
                v@
            }),
            forall|j: int| 0 <= j < i - idx ==> is_digit(#[trigger] body[j]),
            acc == digits_val(body.take(i - idx)),
            acc <= 32768,
        decreases v.len() - i,
    {
        let c = v[i];
        proof {
            assert(body[i - idx] == v@[i as int]);
        }
        if !('0' <= c && c <= '9') {
            proof {
                assert(!is_digit(body[i - idx]));
                assert(!all_digits(body));
            }
            return None;
        }
        let d: u32 = (c as u32) - 48;
        proof {
            assert(is_digit(body[i - idx]));
            assert(digit_val(body[i - idx]) == d);
            lemma_digits_val_take(body, i - idx);
        }
        acc = acc * 10 + d;
        i += 1;
        if acc > 32768 {
            proof {
                if all_digits(body) {
                    lemma_digits_val_grows(body, i - idx);
                }
            }
            return None;
        }
    }
    proof {
        assert(body.take(v@.len() - idx) =~= body);
        assert(all_digits(body));
    }
    if neg {
        let r: i32 = -(acc as i32);
        return Some(r as i16);
    }
    if acc > 32767 {
        return None;
    }
    Some(acc as u16 as i16)
}

/// The character of a decimal digit value.
pub open spec fn digit_char(d: int) -> char {
    (d + 48) as char
}

/// The decimal digits of a nonnegative integer, without sign or padding.
pub open spec fn dec_digits(n: int) -> Seq<char>
    decreases n,
{
    if n < 10 {
        seq![digit_char(if n < 0 { 0 } else { n })]
    } else {
        dec_digits(n / 10).push(digit_char(n % 10))
    }
}

/// The decimal numeral of a signed integer, with a minus sign when negative.
pub open spec fn int_str(v: int) -> Seq<char> {
    if v < 0 {
        seq!['-'] + dec_digits(-v)
    } else {
        dec_digits(v)
    }
}

/// Appends the decimal digits of `n` to `out`.
pub fn push_digits(out: &mut Vec<char>, n: u32)
    ensures
        final(out)@ == old(out)@ + dec_digits(n as int),
    decreases n,
{
    if n >= 10 {
        push_digits(out, n / 10);
    }
    let d: u8 = (n % 10) as u8 + 48;
    out.push(d as char);
    proof {
        if n >= 10 {
            assert(old(out)@ + dec_digits(n as int) =~= (old(out)@ + dec_digits(n as int / 10)).push(
                digit_char(n as int % 10)));
        } else {
            assert(old(out)@ + dec_digits(n as int) =~= old(out)@.push(digit_char(n as int)));
        }
    }
}

/// The decimal numeral of a signed 32-bit integer, as characters.
pub fn int_chars(v: i32) -> (r: Vec<char>)
    ensures
        r@ == int_str(v as int),
{
    let mut out: Vec<char> = Vec::new();
    if v < 0 {
        out.push('-');
        let m: u32 = (-(v as i64)) as u32;
        proof {
            assert(m as int == -(v as int));
        }
        push_digits(&mut out, m);
        proof {
            assert(seq!['-'] + dec_digits(m as int) =~= out@);
        }
    } else {
        push_digits(&mut out, v as u32);
        proof {
            assert(Seq::<char>::empty() + dec_digits(v as int) =~= dec_digits(v as int));
        }
    }
    out
}

} // verus!
