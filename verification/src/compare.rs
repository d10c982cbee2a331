use vstd::prelude::*;

verus! {

/// Equality of two byte strings, scanning every byte unconditionally.
///
/// When the lengths agree, the loop accumulates the bitwise difference of
/// every position with no data-dependent branch or early exit, so the
/// running time does not depend on where the operands first differ; only
/// the lengths, which are not secret, influence it.  The verified meaning
/// is plain equality of the contents.
pub fn ct_eq(a: &[u8], b: &[u8]) -> (r: bool)
    ensures
        r == (a@ == b@),
{
    if a.len() != b.len() {
        proof {
            assert(a@.len() != b@.len());
        }
        return false;
    }
    let n = a.len();
    let mut diff: u8 = 0;
    let mut i: usize = 0;
    while i < n
        invariant
            0 <= i <= n,
            n == a@.len(),
            n == b@.len(),
            (diff == 0) <==> (forall|j: int| 0 <= j < i ==> a@[j] == b@[j]),
        decreases n - i,
    {
        let x = a[i];
        let y = b[i];
        let d = x ^ y;
        let ghost old_diff = diff;
        let ghost old_ok = forall|j: int| 0 <= j < i ==> a@[j] == b@[j];
        proof {
            assert((x ^ y) == 0 <==> x == y) by (bit_vector);
            assert((old_diff | d) == 0 <==> old_diff == 0 && d == 0) by (bit_vector);
        }
        diff = diff | d;
        i = i + 1;
        proof {
            if old_ok && x == y {
                assert forall|j: int| 0 <= j < i implies a@[j] == b@[j] by {
                    if j < i - 1 {
                    } else {
                        assert(a@[j] == x && b@[j] == y);
                    }
                }
            }
            if !old_ok {
                let jj = choose|j: int| 0 <= j < i - 1 && a@[j] != b@[j];
                assert(0 <= jj < i && a@[jj] != b@[jj]);
                assert(!(forall|j: int| 0 <= j < i ==> a@[j] == b@[j]));
            }
            if x != y {
                assert(a@[i - 1] != b@[i - 1]);
                assert(!(forall|j: int| 0 <= j < i ==> a@[j] == b@[j]));
            }
        }
    }
    proof {
        if diff == 0 {
            assert(a@ =~= b@);
        } else {
            let jj = choose|j: int| 0 <= j < n && a@[j] != b@[j];
            assert(a@[jj] != b@[jj]);
        }
    }
    diff == 0
}

} // verus!
