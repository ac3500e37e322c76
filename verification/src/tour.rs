use vstd::prelude::*;
use vstd::pervasive::VecAdditionalExecFns;

verus! {

/// A tour over a problem of size `n`: it has length `n`, every entry is a
/// point index below `n`, and no index occurs twice — a permutation of
/// `0 .. n-1`.
pub open spec fn is_tour(t: Seq<usize>, n: nat) -> bool {
    &&& t.len() == n
    &&& forall|i: int| 0 <= i < t.len() ==> (#[trigger] t[i]) < n
    &&& forall|i: int, j: int|
        0 <= i < t.len() && 0 <= j < t.len() && i != j ==> t[i] != t[j]
}

/// Every entry of `t` is a point index below `n`.
pub open spec fn in_range(t: Seq<usize>, n: nat) -> bool {
    forall|i: int| 0 <= i < t.len() ==> (#[trigger] t[i]) < n
}

/// The identity tour `0, 1, ..., n-1`.
pub open spec fn ident(n: nat) -> Seq<usize> {
    Seq::new(n, |i: int| i as usize)
}

pub proof fn lemma_ident_is_tour(n: nat)
    requires
        n <= usize::MAX,
    ensures
        is_tour(ident(n), n),
{
}

/// Builds the identity tour of length `n`.
pub fn identity_tour(n: usize) -> (r: Vec<usize>)
    ensures
        r@ == ident(n as nat),
        is_tour(r@, n as nat),
{
    let mut r: Vec<usize> = Vec::new();
    let mut i: usize = 0;
    while i < n
        invariant
            i <= n,
            r@.len() == i,
            forall|k: int| 0 <= k < i ==> r@[k] == k,
        decreases n - i,
    {
        r.push(i);
        i += 1;
    }
    proof {
        assert(r@ =~= ident(n as nat));
        lemma_ident_is_tour(n as nat);
    }
    r
}

/// Copies a caller-supplied tour, so that optimization never mutates the
/// caller's sequence.
pub fn copy_tour(s: &Vec<usize>) -> (r: Vec<usize>)
    ensures
        r@ == s@,
{
    let mut r: Vec<usize> = Vec::new();
    let mut i: usize = 0;
    while i < s.len()
        invariant
            i <= s@.len(),
            r@ == s@.take(i as int),
        decreases s@.len() - i,
    {
        let v = s[i];
        r.push(v);
        proof {
            assert(r@ =~= s@.take(i + 1));
        }
        i += 1;
    }
    proof {
        assert(s@.take(s@.len() as int) =~= s@);
    }
    r
}

/// Decides whether `s` is a permutation of `0 .. n-1`.
pub fn is_valid_tour(s: &Vec<usize>, n: usize) -> (r: bool)
    ensures
        r == is_tour(s@, n as nat),
{
    if s.len() != n {
        return false;
    }
    let mut seen: Vec<bool> = Vec::new();
    let mut k: usize = 0;
    while k < n
        invariant
            k <= n,
            seen@.len() == k,
            forall|v: int| 0 <= v < k ==> !(#[trigger] seen@[v]),
        decreases n - k,
    {
        seen.push(false);
        k += 1;
    }
    let mut i: usize = 0;
    while i < n
        invariant
            i <= n,
            s@.len() == n,
            seen@.len() == n,
            forall|v: int|
                0 <= v < n ==> ((#[trigger] seen@[v]) <==> exists|j: int|
                    0 <= j < i && s@[j] == v),
            forall|j: int| 0 <= j < i ==> (#[trigger] s@[j]) < n,
            forall|j: int, l: int| 0 <= j < l < i ==> s@[j] != s@[l],
        decreases n - i,
    {
        let v = s[i];
        if v >= n {
            return false;
        }
        if seen[v] {
            proof {
                let j = choose|j: int| 0 <= j < i && s@[j] == v as int;
                assert(s@[j] == s@[i as int]);
            }
            return false;
        }
        seen.set(v, true);
        proof {
            assert forall|w: int| 0 <= w < n implies ((#[trigger] seen@[w]) <==> exists|j: int|
                0 <= j < i + 1 && s@[j] == w) by {
                if w == v as int {
                    assert(s@[i as int] == w);
                } else {
                    if exists|j: int| 0 <= j < i + 1 && s@[j] == w {
                        let j = choose|j: int| 0 <= j < i + 1 && s@[j] == w;
                        assert(j < i);
                    }
                }
            }
        }
        i += 1;
    }
    proof {
        assert forall|j: int, l: int|
            0 <= j < s@.len() && 0 <= l < s@.len() && j != l implies s@[j] != s@[l] by {
            if j < l {
                assert(s@[j] != s@[l]);
            } else {
                assert(s@[l] != s@[j]);
            }
        }
    }
    true
}

} // verus!
