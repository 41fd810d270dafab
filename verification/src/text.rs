//! Building the textual parts of errors and roll traces: appending single
//! characters to a `String` and rendering unsigned integers in decimal.

use vstd::prelude::*;

verus! {

/// The decimal digit character for a value below ten.
pub open spec fn digit_char(d: nat) -> char {
    if d == 0 {
        '0'
    } else if d == 1 {
        '1'
    } else if d == 2 {
        '2'
    } else if d == 3 {
        '3'
    } else if d == 4 {
        '4'
    } else if d == 5 {
        '5'
    } else if d == 6 {
        '6'
    } else if d == 7 {
        '7'
    } else if d == 8 {
        '8'
    } else {
        '9'
    }
}

/// The decimal rendering of a natural number, without leading zeros (except
/// for the single digit of zero itself).
pub open spec fn dec_str(n: nat) -> Seq<char>
    decreases n,
{
    if n < 10 {
        seq![digit_char(n)]
    } else {
        dec_str(n / 10).push(digit_char(n % 10))
    }
}

/// Relies on `String::push`: appends exactly the given character.
#[verifier::external_body]
pub(crate) fn push_char(s: &mut String, c: char)
    ensures
        final(s)@ == old(s)@ + seq![c],
{
    s.push(c);
}

/// The digit character for a value below ten, as executable code.
fn digit_char_exec(d: u64) -> (c: char)
    requires
        d < 10,
    ensures
        c == digit_char(d as nat),
{
    if d == 0 {
        '0'
    } else if d == 1 {
        '1'
    } else if d == 2 {
        '2'
    } else if d == 3 {
        '3'
    } else if d == 4 {
        '4'
    } else if d == 5 {
        '5'
    } else if d == 6 {
        '6'
    } else if d == 7 {
        '7'
    } else if d == 8 {
        '8'
    } else {
        '9'
    }
}

/// The characters of the extracted digits, least significant first, read back
/// most significant first.
spec fn rev_digit_chars(ds: Seq<u64>) -> Seq<char> {
    Seq::new(ds.len(), |i: int| digit_char(ds[ds.len() - 1 - i] as nat))
}

/// Appends the decimal rendering of `n` to `out`.
pub fn append_u64(out: &mut String, n: u64)
    ensures
        final(out)@ == old(out)@ + dec_str(n as nat),
{
    let mut digits: Vec<u64> = Vec::new();
    let mut m: u64 = n;
    proof {
        assert(rev_digit_chars(Seq::empty()) =~= Seq::empty());
    }
    while m != 0
        invariant
            forall|i: int| 0 <= i < digits@.len() ==> digits@[i] < 10,
            m > 0 ==> dec_str(n as nat) == dec_str(m as nat) + rev_digit_chars(digits@),
            m == 0 && n > 0 ==> dec_str(n as nat) == rev_digit_chars(digits@),
            m > 0 || digits@.len() > 0 || n == 0,
            n == 0 ==> m == 0 && digits@.len() == 0,
        decreases m,
    {
        let d: u64 = m % 10;
        let m2: u64 = m / 10;
        proof {
            let ghost ds0 = digits@;
            if m2 > 0 {
                assert(dec_str(m as nat) == dec_str(m2 as nat).push(digit_char(d as nat)));
            } else {
                assert(dec_str(m as nat) == seq![digit_char(d as nat)]);
            }
            assert(rev_digit_chars(ds0.push(d)) =~= seq![digit_char(d as nat)] + rev_digit_chars(
                ds0,
            ));
        }
        digits.push(d);
        m = m2;
    }
    if digits.len() == 0 {
        push_char(out, '0');
        proof {
            assert(dec_str(0) =~= seq!['0']);
        }
        return ;
    }
    let ghost target = rev_digit_chars(digits@);
    let mut j: usize = 0;
    while j < digits.len()
        invariant
            forall|i: int| 0 <= i < digits@.len() ==> digits@[i] < 10,
            j <= digits@.len(),
            dec_str(n as nat) == target,
            target == rev_digit_chars(digits@),
            out@ == old(out)@ + target.take(j as int),
        decreases digits@.len() - j,
    {
        let idx: usize = digits.len() - 1 - j;
        let c = digit_char_exec(digits[idx]);
        proof {
            assert(target[j as int] == c);
            assert(target.take(j as int + 1) =~= target.take(j as int).push(c));
        }
        push_char(out, c);
        j += 1;
    }
    proof {
        assert(target.take(digits@.len() as int) =~= target);
    }
}

} // verus!
