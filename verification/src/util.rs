use vstd::prelude::*;

verus! {

use std::sync::Arc;
use vstd::string::StrSliceExecFns;

/// Relies on std's `Arc::clone`: the result is a new handle to the same
/// allocation, so as a value it equals the original.
#[verifier::external_body]
pub(crate) fn arc_clone<M>(m: &Arc<M>) -> (r: Arc<M>)
    ensures
        r == *m,
{
    Arc::clone(m)
}

/// Copies an ordered middleware chain, handle by handle.
pub(crate) fn clone_chain<M>(v: &Vec<Arc<M>>) -> (r: Vec<Arc<M>>)
    ensures
        r@ == v@,
{
    let mut r: Vec<Arc<M>> = Vec::new();
    let mut i: usize = 0;
    while i < v.len()
        invariant
            i <= v.len(),
            r@ =~= v@.take(i as int),
        decreases v.len() - i,
    {
        r.push(arc_clone(&v[i]));
        proof {
            assert(r@ =~= v@.take(i + 1 as int));
        }
        i += 1;
    }
    proof {
        assert(v@.take(v@.len() as int) =~= v@);
    }
    r
}

/// Compares two string slices character by character.
pub(crate) fn str_eq(a: &str, b: &str) -> (r: bool)
    ensures
        r == (a@ == b@),
{
    let n = a.unicode_len();
    if n != b.unicode_len() {
        return false;
    }
    let mut i: usize = 0;
    while i < n
        invariant
            i <= n,
            n == a@.len(),
            n == b@.len(),
            forall|k: int| 0 <= k < i ==> a@[k] == b@[k],
        decreases n - i,
    {
        if a.get_char(i) != b.get_char(i) {
            return false;
        }
        i += 1;
    }
    proof {
        assert(a@ =~= b@);
    }
    true
}

} // verus!
