//! The arbitrary-precision input path.
//!
//! A non-negative integer of any size enters as little-endian 32-bit
//! limbs: entry `i` carries the weight 2^(32·i). `limbs_to_compa` turns
//! such an integer into its canonical numeral by long division: each
//! round divides the whole limb sequence by the radix and collects the
//! remainder as the next digit, least significant first. No fixed-width
//! ceiling applies; only this direction is offered.

use vstd::prelude::*;
use vstd::arithmetic::div_mod::{
    lemma_basic_div_specific_divisor, lemma_div_decreases, lemma_div_non_zero,
    lemma_fundamental_div_mod_converse, lemma_mod_division_less_than_divisor, lemma_small_mod,
    lemma_multiply_divide_lt,
};
use crate::compadecimal::{vals_to_numeral, CompaDecimal};
use crate::model::{all_below_base, lemma_repr, repr, repr_vals};
use crate::utils::symbol_of;

verus! {

/// The integer a little-endian sequence of 32-bit limbs denotes: entry
/// `i` carries the weight 2^(32·i).
pub open spec fn limbs_val(l: Seq<u32>) -> nat
    decreases l.len(),
{
    if l.len() == 0 {
        0
    } else {
        (l.first() as nat) + 0x1_0000_0000 * limbs_val(l.drop_first())
    }
}

/// A limb sequence denotes zero exactly when every limb is zero.
proof fn lemma_limbs_val_zero(l: Seq<u32>)
    ensures
        limbs_val(l) == 0 <==> (forall|i: int| 0 <= i < l.len() ==> #[trigger] l[i] == 0),
    decreases l.len(),
{
    if l.len() > 0 {
        let lt = l.drop_first();
        lemma_limbs_val_zero(lt);
        assert(forall|i: int| 0 <= i < lt.len() ==> lt[i] == #[trigger] l[i + 1]);
        if limbs_val(l) == 0 {
            assert(l.first() == 0 && limbs_val(lt) == 0);
            assert(forall|i: int| 0 <= i < l.len() ==> #[trigger] l[i] == 0) by {
                assert(forall|i: int| 1 <= i < l.len() ==> #[trigger] l[i] == lt[i - 1]);
            }
        }
    }
}

/// Whether every limb is zero, so the denoted integer is zero.
fn limbs_all_zero(l: &Vec<u32>) -> (b: bool)
    ensures
        b <==> limbs_val(l@) == 0,
{
    let n = l.len();
    let mut i: usize = 0;
    let mut all_zero = true;
    while i < n
        invariant
            n == l@.len(),
            i <= n,
            all_zero <==> (forall|j: int| 0 <= j < i as int ==> #[trigger] l@[j] == 0),
        decreases n - i,
    {
        if l[i] != 0 {
            all_zero = false;
        }
        i = i + 1;
    }
    proof {
        lemma_limbs_val_zero(l@);
    }
    all_zero
}

/// One round of long division: divide the limb sequence by the radix in
/// place, most significant limb first, and return the remainder.
fn div_limbs_by_base(l: &mut Vec<u32>) -> (rem: u8)
    ensures
        final(l)@.len() == old(l)@.len(),
        limbs_val(final(l)@) == limbs_val(old(l)@) / 94,
        rem as nat == limbs_val(old(l)@) % 94,
        rem < 94,
{
    let ghost l0 = l@;
    let n = l.len();
    let mut i: usize = n;
    let mut r: u64 = 0;
    proof {
        assert(l0.skip(n as int) =~= Seq::<u32>::empty());
        assert(l@.skip(n as int) =~= Seq::<u32>::empty());
    }
    while i > 0
        invariant
            n == l@.len(),
            n == l0.len(),
            i <= n,
            r < 94,
            forall|j: int| 0 <= j < i as int ==> #[trigger] l@[j] == l0[j],
            limbs_val(l0.skip(i as int)) == 94 * limbs_val(l@.skip(i as int)) + r,
        decreases i,
    {
        i = i - 1;
        let ghost lpre = l@;
        let ghost rpre = r;
        let cur: u64 = r * 0x1_0000_0000 + (l[i] as u64);
        let q = cur / 94;
        r = cur % 94;
        proof {
            assert(cur < 94 * 0x1_0000_0000) by (nonlinear_arith)
                requires
                    rpre < 94,
                    cur == rpre * 0x1_0000_0000 + (lpre[i as int] as u64),
                    lpre[i as int] < 0x1_0000_0000,
            ;
            lemma_multiply_divide_lt(cur as int, 94, 0x1_0000_0000);
            lemma_mod_division_less_than_divisor(cur as int, 94);
        }
        l[i] = q as u32;
        proof {
            assert(l@.skip(i as int).drop_first() =~= l@.skip(i as int + 1));
            assert(l@.skip(i as int + 1) =~= lpre.skip(i as int + 1));
            assert(l0.skip(i as int).drop_first() =~= l0.skip(i as int + 1));
            assert(l@.skip(i as int).first() == q as u32);
            assert((q as u32) as u64 == q);
            assert(l0.skip(i as int).first() == l0[i as int]);
            let hi_old = limbs_val(l0.skip(i as int + 1));
            let hi_new = limbs_val(l@.skip(i as int + 1));
            assert(hi_old == 94 * hi_new + rpre);
            assert(cur == 94 * (q as nat) + r);
            assert((l0[i as int] as nat) + 0x1_0000_0000 * (94 * hi_new + rpre) == 94 * ((
            q as nat) + 0x1_0000_0000 * hi_new) + r) by (nonlinear_arith)
                requires
                    cur == 94 * (q as nat) + r,
                    cur == (rpre as nat) * 0x1_0000_0000 + l0[i as int],
            ;
        }
    }
    proof {
        assert(l0.skip(0) =~= l0);
        assert(l@.skip(0) =~= l@);
        lemma_fundamental_div_mod_converse(
            limbs_val(l0) as int,
            94,
            limbs_val(l@) as int,
            r as int,
        );
    }
    r as u8
}

/// The numeral of an arbitrary-precision unsigned integer given as
/// little-endian 32-bit limbs: its canonical digit string.
pub fn limbs_to_compa(limbs: Vec<u32>) -> (r: CompaDecimal)
    ensures
        r@ == repr(limbs_val(limbs@)),
{
    let ghost n0 = limbs_val(limbs@);
    let mut work = limbs;
    if limbs_all_zero(&work) {
        let u = CompaDecimal::new();
        proof {
            assert(repr_vals(0nat) =~= seq![0u8]);
            assert(repr(0nat) =~= seq!['0']);
        }
        return u;
    }
    let mut out: Vec<u8> = Vec::new();
    let mut done = limbs_all_zero(&work);
    while !done
        invariant
            all_below_base(out@),
            n0 > 0,
            done <==> limbs_val(work@) == 0,
            limbs_val(work@) > 0 ==> repr_vals(n0) =~= repr_vals(limbs_val(work@)) + out@,
            limbs_val(work@) == 0 ==> out@.len() >= 1 && repr_vals(n0) =~= out@,
        decreases limbs_val(work@),
    {
        let ghost npre = limbs_val(work@);
        let ghost outpre = out@;
        let dgt = div_limbs_by_base(&mut work);
        out.insert(0, dgt);
        done = limbs_all_zero(&work);
        proof {
            assert(out@ =~= seq![dgt] + outpre);
            lemma_mod_division_less_than_divisor(npre as int, 94);
            if limbs_val(work@) > 0 {
                assert(npre >= 94) by {
                    lemma_basic_div_specific_divisor(94);
                }
                assert(repr_vals(npre) =~= repr_vals(npre / 94).push((npre % 94) as u8));
                assert(repr_vals(npre / 94) + out@ =~= (repr_vals(npre / 94).push(dgt)) + outpre);
            } else {
                assert(npre < 94) by {
                    if npre >= 94 {
                        lemma_div_non_zero(npre as int, 94);
                    }
                }
                lemma_small_mod(npre, 94);
                assert(repr_vals(npre) =~= seq![npre as u8]);
                assert(dgt == npre as u8);
            }
            lemma_div_decreases(npre as int, 94);
        }
    }
    let u = vals_to_numeral(out);
    proof {
        lemma_repr(n0);
        assert forall|j: int| 0 <= j < u@.len() implies #[trigger] u@[j] == repr(n0)[j] by {
            assert(u@[j] == symbol_of(repr_vals(n0)[j] as int));
        }
        assert(u@ =~= repr(n0));
    }
    u
}

} // verus!
