//! Decimal rendering of counters for the export: a number as its ASCII
//! digits, without sign or padding.

use vstd::prelude::*;

verus! {

/// The ASCII decimal digits of `n`, most significant first.
pub open spec fn dec_digits(n: nat) -> Seq<u8>
    decreases n,
{
    if n < 10 {
        seq![(48 + n) as u8]
    } else {
        dec_digits(n / 10).push((48 + n % 10) as u8)
    }
}

/// Render a number as its decimal digits.
pub fn u64_to_dec(n: u64) -> (r: Vec<u8>)
    ensures
        r@ == dec_digits(n as nat),
{
    let mut digits: Vec<u8> = Vec::new();
    let mut m: u64 = n;
    digits.push((m % 10) as u8 + 48);
    proof {
        assert(digits@.reverse() =~= seq![(48 + (n as nat) % 10) as u8]);
    }
    m = m / 10;
    while m > 0
        invariant
            m == 0 ==> dec_digits(n as nat) == digits@.reverse(),
            m > 0 ==> dec_digits(n as nat) == dec_digits(m as nat) + digits@.reverse(),
        decreases m,
    {
        let ghost before = digits@;
        let d: u8 = (m % 10) as u8 + 48;
        digits.push(d);
        proof {
            assert(digits@.reverse() =~= seq![d] + before.reverse());
        }
        m = m / 10;
        proof {
            if m == 0 {
                assert(dec_digits(n as nat) =~= digits@.reverse());
            } else {
                assert(dec_digits(n as nat) =~= dec_digits(m as nat) + digits@.reverse());
            }
        }
    }
    let mut r: Vec<u8> = Vec::new();
    let mut i: usize = digits.len();
    while i > 0
        invariant
            i <= digits@.len(),
            r@ =~= digits@.reverse().subrange(0, (digits@.len() - i) as int),
        decreases i,
    {
        i = i - 1;
        r.push(digits[i]);
        proof {
            assert(r@ =~= digits@.reverse().subrange(0, (digits@.len() - i) as int));
        }
    }
    proof {
        assert(r@ =~= digits@.reverse());
    }
    r
}

} // verus!
