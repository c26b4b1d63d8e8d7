//! Helpers over coordinate vectors.

use vstd::prelude::*;

verus! {

/// Element-wise equality of two coordinate vectors.
fn coord_eq(a: &Vec<u64>, b: &Vec<u64>) -> (r: bool)
    ensures
        r == (a@ == b@),
{
    if a.len() != b.len() {
        proof {
            assert(a@ != b@);
        }
        return false;
    }
    let n = a.len();
    let mut i: usize = 0;
    while i < n
        invariant
            n == a@.len() == b@.len(),
            i <= n,
            forall|j: int| 0 <= j < i ==> a@[j] == b@[j],
        decreases n - i,
    {
        if a[i] != b[i] {
            return false;
        }
        i = i + 1;
    }
    proof {
        assert(a@ =~= b@);
    }
    true
}

/// Check if the coordinate system is unique: no two nodes share a
/// coordinate vector.
pub fn is_coord_unique(coords: &Vec<Vec<u64>>) -> (r: bool)
    ensures
        r == (forall|i: int, j: int|
            0 <= i < j < coords@.len() ==> (#[trigger] coords@[i])@ != (#[trigger] coords@[j])@),
{
    let n = coords.len();
    let mut i: usize = 0;
    while i < n
        invariant
            n == coords@.len(),
            i <= n,
            forall|a: int, b: int|
                0 <= a < b < i ==> (#[trigger] coords@[a])@ != (#[trigger] coords@[b])@,
        decreases n - i,
    {
        let mut j: usize = 0;
        while j < i
            invariant
                n == coords@.len(),
                j <= i < n,
                forall|b: int| 0 <= b < j ==> (#[trigger] coords@[b])@ != coords@[i as int]@,
            decreases i - j,
        {
            if coord_eq(&coords[j], &coords[i]) {
                return false;
            }
            j = j + 1;
        }
        i = i + 1;
    }
    true
}

} // verus!
