//! Bit sets within one tile: strictly increasing lists of bit indices.
use vstd::prelude::*;

verus! {

/// A bit set is canonical when its indices are strictly increasing.
pub open spec fn is_bitset(s: Seq<usize>) -> bool {
    forall|i: int, j: int| 0 <= i < j < s.len() ==> s[i] < s[j]
}

/// The indices below `n` at which `a` and `b` disagree, in increasing order.
pub open spec fn diff_upto(a: Seq<bool>, b: Seq<bool>, n: int) -> Seq<usize>
    decreases n,
{
    if n <= 0 {
        Seq::empty()
    } else {
        let p = diff_upto(a, b, n - 1);
        if a[n - 1] != b[n - 1] {
            p.push((n - 1) as usize)
        } else {
            p
        }
    }
}

/// The bit set of positions where two equally sized bit vectors differ.
pub open spec fn diff_bits(a: Seq<bool>, b: Seq<bool>) -> Seq<usize> {
    diff_upto(a, b, a.len() as int)
}

/// Two bit sets share at least one index.
pub open spec fn overlaps(x: Seq<usize>, y: Seq<usize>) -> bool {
    exists|i: int, j: int| 0 <= i < x.len() && 0 <= j < y.len() && x[i] == y[j]
}

/// Sharing an index does not depend on the order of the two sets.
pub proof fn lemma_overlaps_symmetric(x: Seq<usize>, y: Seq<usize>)
    ensures
        overlaps(x, y) == overlaps(y, x),
{
    if overlaps(x, y) {
        let (i, j) = choose|i: int, j: int| 0 <= i < x.len() && 0 <= j < y.len() && x[i] == y[j];
        assert(0 <= j < y.len() && 0 <= i < x.len() && y[j] == x[i]);
    }
    if overlaps(y, x) {
        let (j, i) = choose|j: int, i: int| 0 <= j < y.len() && 0 <= i < x.len() && y[j] == x[i];
        assert(0 <= i < x.len() && 0 <= j < y.len() && x[i] == y[j]);
    }
}

/// A difference set is canonical, holds only indices below `n` at which the
/// vectors disagree, and holds every such index.
pub proof fn lemma_diff_upto(a: Seq<bool>, b: Seq<bool>, n: int)
    requires
        0 <= n <= a.len(),
        n <= usize::MAX,
        a.len() == b.len(),
    ensures
        is_bitset(diff_upto(a, b, n)),
        forall|i: int| #![trigger diff_upto(a, b, n)[i]]
            0 <= i < diff_upto(a, b, n).len() ==> diff_upto(a, b, n)[i] < n
                && a[diff_upto(a, b, n)[i] as int] != b[diff_upto(a, b, n)[i] as int],
        forall|k: int| 0 <= k < n && a[k] != b[k] ==> diff_upto(a, b, n).contains(k as usize),
    decreases n,
{
    if n > 0 {
        lemma_diff_upto(a, b, n - 1);
        let p = diff_upto(a, b, n - 1);
        let d = diff_upto(a, b, n);
        assert forall|i: int| #![trigger d[i]] 0 <= i < d.len() implies d[i] < n
            && a[d[i] as int] != b[d[i] as int] by {
            if i < p.len() {
                assert(d[i] == p[i]);
            }
        }
        assert forall|k: int| 0 <= k < n && a[k] != b[k] implies d.contains(k as usize) by {
            if k < n - 1 {
                let i = choose|i: int| 0 <= i < p.len() && p[i] == k as usize;
                assert(d[i] == k as usize);
            } else {
                assert(d[p.len() as int] == k as usize);
            }
        }
    }
}

/// Positions at which two equally sized bit vectors differ.
pub fn diff(a: &Vec<bool>, b: &Vec<bool>) -> (r: Vec<usize>)
    requires
        a@.len() == b@.len(),
    ensures
        r@ == diff_bits(a@, b@),
{
    let mut r: Vec<usize> = Vec::new();
    let mut i: usize = 0;
    while i < a.len()
        invariant
            a@.len() == b@.len(),
            i <= a@.len(),
            r@ == diff_upto(a@, b@, i as int),
        decreases a@.len() - i,
    {
        if a[i] != b[i] {
            r.push(i);
        }
        i += 1;
    }
    r
}

/// Whether two bit sets are the same list of indices.
pub fn same_bits(x: &Vec<usize>, y: &Vec<usize>) -> (r: bool)
    ensures
        r == (x@ == y@),
{
    if x.len() != y.len() {
        return false;
    }
    let mut i: usize = 0;
    while i < x.len()
        invariant
            x@.len() == y@.len(),
            i <= x@.len(),
            forall|k: int| 0 <= k < i ==> x@[k] == y@[k],
        decreases x@.len() - i,
    {
        if x[i] != y[i] {
            return false;
        }
        i += 1;
    }
    assert(x@ =~= y@);
    true
}

/// Whether two bit sets share an index.
pub fn bits_overlap(x: &Vec<usize>, y: &Vec<usize>) -> (r: bool)
    ensures
        r == overlaps(x@, y@),
{
    let mut i: usize = 0;
    while i < x.len()
        invariant
            i <= x@.len(),
            forall|a: int, b: int| 0 <= a < i && 0 <= b < y@.len() ==> x@[a] != y@[b],
        decreases x@.len() - i,
    {
        let mut j: usize = 0;
        while j < y.len()
            invariant
                i < x@.len(),
                j <= y@.len(),
                forall|a: int, b: int| 0 <= a < i && 0 <= b < y@.len() ==> x@[a] != y@[b],
                forall|b: int| 0 <= b < j ==> x@[i as int] != y@[b],
            decreases y@.len() - j,
        {
            if x[i] == y[j] {
                return true;
            }
            j += 1;
        }
        i += 1;
    }
    false
}

/// Whether a list of indices is a canonical bit set.
pub fn check_bitset(x: &Vec<usize>) -> (r: bool)
    ensures
        r == is_bitset(x@),
{
    let mut i: usize = 1;
    if x.len() == 0 {
        return true;
    }
    while i < x.len()
        invariant
            1 <= i <= x@.len(),
            forall|a: int, b: int| 0 <= a < b < i ==> x@[a] < x@[b],
        decreases x@.len() - i,
    {
        if x[i - 1] >= x[i] {
            return false;
        }
        i += 1;
    }
    true
}

/// A copy of a bit set.
pub fn copy_bits(x: &Vec<usize>) -> (r: Vec<usize>)
    ensures
        r@ == x@,
{
    let mut r: Vec<usize> = Vec::new();
    let mut i: usize = 0;
    while i < x.len()
        invariant
            i <= x@.len(),
            r@ =~= x@.subrange(0, i as int),
        decreases x@.len() - i,
    {
        r.push(x[i]);
        i += 1;
    }
    assert(r@ =~= x@);
    r
}

} // verus!
