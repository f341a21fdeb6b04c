//! Decimal text of numbers, for the answers that the solvers print.
use vstd::prelude::*;

verus! {

/// The character of the decimal digit `d`.
pub open spec fn digit_char(d: int) -> char {
    if d == 0 { '0' }
    else if d == 1 { '1' } else if d == 2 { '2' } else if d == 3 { '3' }
    else if d == 4 { '4' } else if d == 5 { '5' } else if d == 6 { '6' }
    else if d == 7 { '7' } else if d == 8 { '8' } else { '9' }
}

/// The decimal text of `x`, without leading zeros.
pub open spec fn decimal(x: nat) -> Seq<char>
    decreases x,
{
    if x < 10 { seq![digit_char(x as int)] } else { decimal(x / 10).push(digit_char((x % 10) as int)) }
}

/// The decimal text of `x` with a minus sign in front when negative.
pub open spec fn signed_decimal(x: int) -> Seq<char> {
    if x < 0 { seq!['-'] + decimal((-x) as nat) } else { decimal(x as nat) }
}

fn digit(d: usize) -> (c: char)
    requires
        d < 10,
    ensures
        c == digit_char(d as int),
{
    if d == 0 { '0' }
    else if d == 1 { '1' } else if d == 2 { '2' } else if d == 3 { '3' }
    else if d == 4 { '4' } else if d == 5 { '5' } else if d == 6 { '6' }
    else if d == 7 { '7' } else if d == 8 { '8' } else { '9' }
}

/// Appends the decimal text of `x` to `out`.
pub fn push_decimal(out: &mut Vec<char>, x: usize)
    ensures
        final(out)@ == old(out)@ + decimal(x as nat),
    decreases x,
{
    if x >= 10 {
        push_decimal(out, x / 10);
    }
    let ghost before = out@;
    out.push(digit(x % 10));
    proof {
        if x >= 10 {
            assert(out@ =~= old(out)@ + decimal(x as nat));
        } else {
            assert(out@ =~= old(out)@ + decimal(x as nat));
        }
    }
}

/// Appends the decimal text of `x`, with a minus sign when negative.
pub fn push_signed_decimal(out: &mut Vec<char>, x: i64)
    ensures
        final(out)@ == old(out)@ + signed_decimal(x as int),
{
    if x < 0 {
        out.push('-');
        let ghost mid = out@;
        let m: u64 = if x == i64::MIN { 0x8000_0000_0000_0000u64 } else { (-x) as u64 };
        push_decimal_u64(out, m);
        proof {
            assert(out@ =~= old(out)@ + signed_decimal(x as int));
        }
    } else {
        push_decimal_u64(out, x as u64);
    }
}

/// Appends the decimal text of `x` to `out`.
pub fn push_decimal_u64(out: &mut Vec<char>, x: u64)
    ensures
        final(out)@ == old(out)@ + decimal(x as nat),
    decreases x,
{
    if x >= 10 {
        push_decimal_u64(out, x / 10);
    }
    out.push(digit((x % 10) as usize));
    proof {
        assert(out@ =~= old(out)@ + decimal(x as nat));
    }
}

/// `v` as a `String`.
#[verifier::external_body]
pub(crate) fn chars_to_string(v: &Vec<char>) -> (s: String)
    ensures
        s@ == v@,
{
    v.iter().collect()
}

/// The value of a digit character.
pub open spec fn char_value(c: char) -> int {
    (c as u32) as int - ('0' as u32) as int
}

/// The number that the decimal digits `s` stand for, the most significant
/// first.
pub open spec fn digits_value(s: Seq<char>) -> int
    decreases s.len(),
{
    if s.len() == 0 { 0 } else { digits_value(s.drop_last()) * 10 + char_value(s.last()) }
}

/// The decimal text of `x` reads back as `x`: it is made of the digits `0`
/// to `9`, their value is `x`, and it starts with `0` only for `x == 0`.
pub proof fn law_decimal_reads_back(x: nat)
    ensures
        forall|k: int| 0 <= k < decimal(x).len() ==> 0 <= #[trigger] char_value(decimal(x)[k]) <= 9,
        digits_value(decimal(x)) == x,
        decimal(x).len() >= 1,
        decimal(x)[0] == '0' ==> x == 0,
    decreases x,
{
    if x >= 10 {
        law_decimal_reads_back(x / 10);
        let d = decimal(x);
        let p = decimal(x / 10);
        assert(d.drop_last() =~= p);
        lemma_digit_value((x % 10) as int);
        assert(d.last() == digit_char((x % 10) as int));
        assert((x / 10) * 10 + x % 10 == x);
        assert(digits_value(d) == digits_value(p) * 10 + char_value(d.last()));
        assert(d[0] == p[0]);
        assert forall|k: int| 0 <= k < d.len() implies 0 <= #[trigger] char_value(d[k]) <= 9 by {
            if k < p.len() {
                assert(d[k] == p[k]);
            }
        }
    } else {
        lemma_digit_value(x as int);
        let d = decimal(x);
        assert(d.drop_last() =~= Seq::<char>::empty());
        assert(digits_value(d.drop_last()) == 0);
    }
}

/// The value of the character of a digit is the digit.
proof fn lemma_digit_value(d: int)
    requires
        0 <= d < 10,
    ensures
        char_value(digit_char(d)) == d,
{
}

} // verus!
