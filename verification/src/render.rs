//! Rendering match offsets for display: each offset in decimal, joined with
//! a comma and a space, as in `16, 27`.  The presentation layer only turns
//! the resulting bytes into text.

use vstd::prelude::*;

verus! {

/// The decimal digits of `n`, most significant first.
pub open spec fn dec_digits(n: nat) -> Seq<u8>
    decreases n,
{
    if n < 10 {
        seq![(48 + n) as u8]
    } else {
        dec_digits(n / 10).push((48 + n % 10) as u8)
    }
}

/// The offsets in decimal, separated by a comma and a space; empty for an
/// empty offset list.
pub open spec fn concatenated_indexes(offsets: Seq<usize>) -> Seq<u8>
    decreases offsets.len(),
{
    if offsets.len() == 0 {
        Seq::empty()
    } else if offsets.len() == 1 {
        dec_digits(offsets[0] as nat)
    } else {
        concatenated_indexes(offsets.drop_last()) + seq![44u8, 32u8] + dec_digits(
            offsets.last() as nat,
        )
    }
}

/// Append the decimal digits of `n` to `out`.
fn push_dec_digits(n: usize, out: &mut Vec<u8>)
    ensures
        final(out)@ == old(out)@ + dec_digits(n as nat),
    decreases n,
{
    if n < 10 {
        out.push(48 + n as u8);
        proof {
            assert(out@ =~= old(out)@ + dec_digits(n as nat));
        }
    } else {
        push_dec_digits(n / 10, out);
        out.push(48 + (n % 10) as u8);
        proof {
            assert(out@ =~= old(out)@ + dec_digits(n as nat));
        }
    }
}

/// Render the offsets in decimal, separated by `, `.
pub fn render_indexes(offsets: &Vec<usize>) -> (r: Vec<u8>)
    ensures
        r@ == concatenated_indexes(offsets@),
{
    let mut r: Vec<u8> = Vec::new();
    let mut i: usize = 0;
    while i < offsets.len()
        invariant
            i <= offsets@.len(),
            r@ == concatenated_indexes(offsets@.take(i as int)),
        decreases offsets@.len() - i,
    {
        if i > 0 {
            r.push(44);
            r.push(32);
        }
        push_dec_digits(offsets[i], &mut r);
        i = i + 1;
        proof {
            assert(offsets@.take(i as int).drop_last() =~= offsets@.take(i - 1));
            assert(offsets@.take(i as int).last() == offsets@[i - 1]);
            if i > 1 {
                assert(r@ =~= concatenated_indexes(offsets@.take(i - 1)) + seq![44u8, 32u8]
                    + dec_digits(offsets@[i - 1] as nat));
            } else {
                assert(r@ =~= dec_digits(offsets@[i - 1] as nat));
            }
        }
    }
    proof {
        assert(offsets@.take(offsets@.len() as int) =~= offsets@);
    }
    r
}

} // verus!
