//! Comparison of secrets without data-dependent timing.

use vstd::prelude::*;

verus! {

/// Folding a byte difference into the accumulator keeps it at zero exactly
/// when it was zero before and the two bytes agree.
proof fn lemma_fold_difference(x: u8, a: u8, b: u8)
    ensures
        ((x | (a ^ b)) == 0u8) <==> (x == 0u8 && a == b),
{
    assert(((x | (a ^ b)) == 0u8) <==> (x == 0u8 && a == b)) by (bit_vector);
}

/// Constant time byte slice equality.
///
/// Every byte of both slices is read whenever the lengths agree; the answer
/// is `true` exactly when the two slices hold the same bytes.
pub fn secure_eq(a: &[u8], b: &[u8]) -> (equal: bool)
    ensures
        equal == (a@ == b@),
{
    if a.len() == b.len() {
        let mut x: u8 = 0u8;
        let mut i: usize = 0;
        proof {
            assert(a@.take(0) =~= b@.take(0));
        }
        while i < a.len()
            invariant
                a.len() == b.len(),
                0 <= i <= a.len(),
                (x == 0u8) <==> (a@.take(i as int) == b@.take(i as int)),
            decreases a.len() - i,
        {
            proof {
                lemma_fold_difference(x, a[i as int], b[i as int]);
                assert(a@.take(i + 1) =~= a@.take(i as int).push(a[i as int]));
                assert(b@.take(i + 1) =~= b@.take(i as int).push(b[i as int]));
                if a@.take(i + 1) == b@.take(i + 1) {
                    assert(a@.take(i as int) =~= a@.take(i + 1).drop_last());
                    assert(b@.take(i as int) =~= b@.take(i + 1).drop_last());
                    assert(a[i as int] == a@.take(i + 1).last());
                    assert(b[i as int] == b@.take(i + 1).last());
                }
            }
            x = x | (a[i] ^ b[i]);
            i = i + 1;
        }
        proof {
            assert(a@.take(i as int) =~= a@);
            assert(b@.take(i as int) =~= b@);
        }
        x == 0
    } else {
        false
    }
}

} // verus!
