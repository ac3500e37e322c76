use vstd::prelude::*;
use vstd::pervasive::VecAdditionalExecFns;
use crate::tour::{is_tour, in_range};
use crate::cost::{
    matrix_wf, dist_at, nxt, path_sum, tour_cost, lemma_path_sum_concat, lemma_path_sum_reverse,
};

verus! {

/// `t` with the segment at positions `a+1 ..= b` reversed.
pub open spec fn rev_seg(t: Seq<usize>, a: int, b: int) -> Seq<usize> {
    t.subrange(0, a + 1) + t.subrange(a + 1, b + 1).reverse() + t.subrange(b + 1, t.len() as int)
}

/// `t` with the blocks at positions `a+1 ..= b` and `b+1 ..= c` swapped,
/// each block keeping its internal order.
pub open spec fn exch_seg(t: Seq<usize>, a: int, b: int, c: int) -> Seq<usize> {
    t.subrange(0, a + 1) + t.subrange(b + 1, c + 1) + t.subrange(a + 1, b + 1) + t.subrange(
        c + 1,
        t.len() as int,
    )
}

/// The position of `t` that `rev_seg(t, a, b)` reads at position `i`.
pub open spec fn rev_src(a: int, b: int, i: int) -> int {
    if i <= a {
        i
    } else if i <= b {
        a + 1 + b - i
    } else {
        i
    }
}

/// The position of `t` that `exch_seg(t, a, b, c)` reads at position `i`.
pub open spec fn exch_src(a: int, b: int, c: int, i: int) -> int {
    if i <= a {
        i
    } else if i <= a + (c - b) {
        i + (b - a)
    } else if i <= c {
        i - (c - b)
    } else {
        i
    }
}

pub proof fn lemma_rev_seg_points(t: Seq<usize>, a: int, b: int)
    requires
        0 <= a <= b < t.len(),
    ensures
        rev_seg(t, a, b).len() == t.len(),
        forall|i: int| 0 <= i < t.len() ==> rev_seg(t, a, b)[i] == t[#[trigger] rev_src(a, b, i)],
{
    let r = rev_seg(t, a, b);
    let mid = t.subrange(a + 1, b + 1);
    assert forall|i: int| 0 <= i < t.len() implies r[i] == t[#[trigger] rev_src(a, b, i)] by {
        if a < i <= b {
            assert(mid.len() == b - a);
            assert(r[i] == mid.reverse()[i - (a + 1)]);
            assert(mid.reverse()[i - (a + 1)] == mid[b - i]);
            assert(mid[b - i] == t[a + 1 + b - i]);
        }
    }
}

pub proof fn lemma_exch_seg_points(t: Seq<usize>, a: int, b: int, c: int)
    requires
        0 <= a <= b <= c < t.len(),
    ensures
        exch_seg(t, a, b, c).len() == t.len(),
        forall|i: int|
            0 <= i < t.len() ==> exch_seg(t, a, b, c)[i] == t[#[trigger] exch_src(a, b, c, i)],
{
    let r = exch_seg(t, a, b, c);
    assert forall|i: int| 0 <= i < t.len() implies r[i] == t[#[trigger] exch_src(a, b, c, i)] by {
        if a < i <= a + (c - b) {
            assert(r[i] == t.subrange(b + 1, c + 1)[i - (a + 1)]);
        } else if a + (c - b) < i <= c {
            assert(r[i] == t.subrange(a + 1, b + 1)[i - (a + 1) - (c - b)]);
        }
    }
}

pub proof fn lemma_rev_seg_tour(t: Seq<usize>, n: nat, a: int, b: int)
    requires
        is_tour(t, n),
        0 <= a <= b < t.len(),
    ensures
        is_tour(rev_seg(t, a, b), n),
        rev_seg(t, a, b)[0] == t[0],
{
    lemma_rev_seg_points(t, a, b);
    let r = rev_seg(t, a, b);
    assert(r[0] == t[rev_src(a, b, 0)]);
    assert forall|i: int| 0 <= i < r.len() implies (#[trigger] r[i]) < n by {
        assert(r[i] == t[rev_src(a, b, i)]);
    }
    assert forall|i: int, j: int|
        0 <= i < r.len() && 0 <= j < r.len() && i != j implies r[i] != r[j] by {
        let si = rev_src(a, b, i);
        let sj = rev_src(a, b, j);
        assert(r[i] == t[si]);
        assert(r[j] == t[sj]);
        assert(si != sj);
    }
}

pub proof fn lemma_exch_seg_tour(t: Seq<usize>, n: nat, a: int, b: int, c: int)
    requires
        is_tour(t, n),
        0 <= a <= b <= c < t.len(),
    ensures
        is_tour(exch_seg(t, a, b, c), n),
        exch_seg(t, a, b, c)[0] == t[0],
{
    lemma_exch_seg_points(t, a, b, c);
    let r = exch_seg(t, a, b, c);
    assert(r[0] == t[exch_src(a, b, c, 0)]);
    assert forall|i: int| 0 <= i < r.len() implies (#[trigger] r[i]) < n by {
        assert(r[i] == t[exch_src(a, b, c, i)]);
    }
    assert forall|i: int, j: int|
        0 <= i < r.len() && 0 <= j < r.len() && i != j implies r[i] != r[j] by {
        let si = exch_src(a, b, c, i);
        let sj = exch_src(a, b, c, j);
        assert(r[i] == t[si]);
        assert(r[j] == t[sj]);
        assert(si != sj);
    }
}

/// Reversing the segment `a+1 ..= b` replaces the tour edges `(a, a+1)` and
/// `(b, b+1 mod n)` by `(a, b)` and `(a+1, b+1 mod n)`; nothing else changes.
pub proof fn lemma_rev_seg_cost(m: Seq<Seq<u64>>, t: Seq<usize>, a: int, b: int)
    requires
        matrix_wf(m),
        in_range(t, m.len() as nat),
        0 <= a < b < t.len(),
    ensures
        tour_cost(m, rev_seg(t, a, b)) + dist_at(m, t, a, a + 1) + dist_at(
            m,
            t,
            b,
            nxt(t.len() as int, b),
        ) == tour_cost(m, t) + dist_at(m, t, a, b) + dist_at(m, t, a + 1, nxt(t.len() as int, b)),
{
    let n = t.len() as int;
    let p = t.subrange(0, a + 1);
    let mid = t.subrange(a + 1, b + 1);
    let s = t.subrange(b + 1, n);
    let midr = mid.reverse();
    let r = rev_seg(t, a, b);
    assert(in_range(mid, m.len() as nat));
    lemma_path_sum_reverse(m, mid);
    lemma_path_sum_concat(m, mid, s);
    lemma_path_sum_concat(m, p, mid + s);
    lemma_path_sum_concat(m, midr, s);
    lemma_path_sum_concat(m, p, midr + s);
    assert(t =~= p + (mid + s));
    assert(r =~= p + (midr + s));
    assert(p.last() == t[a]);
    assert(mid.len() == b - a);
    assert(mid[0] == t[a + 1]);
    assert(mid.last() == t[b]);
    assert(midr[0] == mid[mid.len() - 1]);
    assert(midr.last() == mid[0]);
    lemma_rev_seg_points(t, a, b);
    assert(r[0] == t[rev_src(a, b, 0)]);
    if b + 1 < n {
        assert(s[0] == t[b + 1]);
        assert((mid + s)[0] == mid[0]);
        assert((midr + s)[0] == midr[0]);
        assert(t.last() == t[n - 1]);
        assert(r.last() == t[rev_src(a, b, n - 1)]);
        assert(path_sum(m, t) == path_sum(m, p) + path_sum(m, mid) + path_sum(m, s) + m[t[a] as int][t[a + 1] as int] + m[t[b] as int][t[b + 1] as int]);
        assert(path_sum(m, r) == path_sum(m, p) + path_sum(m, mid) + path_sum(m, s) + m[t[a] as int][t[b] as int] + m[t[a + 1] as int][t[b + 1] as int]);
        assert(nxt(n, b) == b + 1);
    } else {
        assert(s.len() == 0);
        assert(mid + s =~= mid);
        assert(midr + s =~= midr);
        assert((mid + s)[0] == mid[0]);
        assert((midr + s)[0] == midr[0]);
        assert(path_sum(m, t) == path_sum(m, p) + path_sum(m, mid) + m[t[a] as int][t[a + 1] as int]);
        assert(path_sum(m, r) == path_sum(m, p) + path_sum(m, mid) + m[t[a] as int][t[b] as int]);
        assert(t.last() == t[b]);
        assert(r.last() == t[rev_src(a, b, n - 1)]);
        assert(r.last() == t[a + 1]);
        assert(nxt(n, b) == 0);
    }
}

/// Exchanging the blocks `(a, b]` and `(b, c]` replaces the tour edges
/// `(a, a+1)`, `(b, b+1)` and `(c, c+1 mod n)` by `(a, b+1)`, `(c, a+1)`
/// and `(b, c+1 mod n)`; nothing else changes.
pub proof fn lemma_exch_seg_cost(m: Seq<Seq<u64>>, t: Seq<usize>, a: int, b: int, c: int)
    requires
        matrix_wf(m),
        in_range(t, m.len() as nat),
        0 <= a < b < c < t.len(),
    ensures
        tour_cost(m, exch_seg(t, a, b, c)) + dist_at(m, t, a, a + 1) + dist_at(m, t, b, b + 1)
            + dist_at(m, t, c, nxt(t.len() as int, c)) == tour_cost(m, t) + dist_at(m, t, a, b + 1)
            + dist_at(m, t, c, a + 1) + dist_at(m, t, b, nxt(t.len() as int, c)),
{
    let n = t.len() as int;
    let p = t.subrange(0, a + 1);
    let bb = t.subrange(a + 1, b + 1);
    let cc = t.subrange(b + 1, c + 1);
    let s = t.subrange(c + 1, n);
    let r = exch_seg(t, a, b, c);
    lemma_path_sum_concat(m, cc, s);
    lemma_path_sum_concat(m, bb, cc + s);
    lemma_path_sum_concat(m, p, bb + (cc + s));
    lemma_path_sum_concat(m, bb, s);
    lemma_path_sum_concat(m, cc, bb + s);
    lemma_path_sum_concat(m, p, cc + (bb + s));
    assert(t =~= p + (bb + (cc + s)));
    assert(r =~= p + (cc + (bb + s)));
    assert(p.last() == t[a]);
    assert(bb[0] == t[a + 1]);
    assert(bb.last() == t[b]);
    assert(cc[0] == t[b + 1]);
    assert(cc.last() == t[c]);
    assert((bb + (cc + s))[0] == bb[0]);
    assert((cc + (bb + s))[0] == cc[0]);
    assert((cc + s)[0] == cc[0]);
    assert((bb + s)[0] == bb[0]);
    lemma_exch_seg_points(t, a, b, c);
    assert(r[0] == t[exch_src(a, b, c, 0)]);
    if c + 1 < n {
        assert(s[0] == t[c + 1]);
        assert(t.last() == t[n - 1]);
        assert(r.last() == t[exch_src(a, b, c, n - 1)]);
        assert(path_sum(m, t) == path_sum(m, p) + path_sum(m, bb) + path_sum(m, cc) + path_sum(
            m,
            s,
        ) + m[t[a] as int][t[a + 1] as int] + m[t[b] as int][t[b + 1] as int] + m[t[c] as int][t[c
            + 1] as int]);
        assert(path_sum(m, r) == path_sum(m, p) + path_sum(m, bb) + path_sum(m, cc) + path_sum(
            m,
            s,
        ) + m[t[a] as int][t[b + 1] as int] + m[t[c] as int][t[a + 1] as int] + m[t[b] as int][t[c
            + 1] as int]);
        assert(nxt(n, c) == c + 1);
    } else {
        assert(s.len() == 0);
        assert(cc + s =~= cc);
        assert(bb + s =~= bb);
        assert(path_sum(m, t) == path_sum(m, p) + path_sum(m, bb) + path_sum(m, cc) + m[t[a] as int][t[a + 1] as int] + m[t[b] as int][t[b + 1] as int]);
        assert(path_sum(m, r) == path_sum(m, p) + path_sum(m, bb) + path_sum(m, cc) + m[t[a] as int][t[b + 1] as int] + m[t[c] as int][t[a + 1] as int]);
        assert(t.last() == t[c]);
        assert(r.last() == t[exch_src(a, b, c, n - 1)]);
        assert(r.last() == t[b]);
        assert(nxt(n, c) == 0);
    }
}

/// Reverses the positions `a+1 ..= b` of `path` in place.
pub fn reverse_segment(path: &mut Vec<usize>, a: usize, b: usize)
    requires
        a < b,
        b < old(path).len(),
    ensures
        final(path)@ == rev_seg(old(path)@, a as int, b as int),
{
    let ghost t0 = path@;
    let mut i: usize = a + 1;
    let mut j: usize = b;
    while i < j
        invariant
            path@.len() == t0.len(),
            a + 1 <= i,
            i <= j + 1,
            j <= b,
            b < t0.len(),
            i + j == a + 1 + b,
            forall|k: int| 0 <= k <= a ==> path@[k] == t0[k],
            forall|k: int| b < k < t0.len() ==> path@[k] == t0[k],
            forall|k: int| a < k < i ==> path@[k] == t0[a + 1 + b - k],
            forall|k: int| j < k <= b ==> path@[k] == t0[a + 1 + b - k],
            forall|k: int| i <= k <= j ==> path@[k] == t0[k],
        decreases j + 1 - i,
    {
        let vi = path[i];
        let vj = path[j];
        path.set(i, vj);
        path.set(j, vi);
        i += 1;
        j -= 1;
    }
    proof {
        lemma_rev_seg_points(t0, a as int, b as int);
        assert forall|k: int| 0 <= k < t0.len() implies path@[k] == rev_seg(
            t0,
            a as int,
            b as int,
        )[k] by {
            assert(rev_seg(t0, a as int, b as int)[k] == t0[rev_src(a as int, b as int, k)]);
            if a < k <= b && i <= k && k <= j {
                assert(i == j);
                assert(a + 1 + b - k == k);
            }
        }
        assert(path@ =~= rev_seg(t0, a as int, b as int));
    }
}

/// Exchanges the two consecutive blocks `(a, b]` and `(b, c]` of `path`,
/// by pairwise swaps over the shorter block and recursion on the rest.
/// A no-op when either block is empty.
pub fn exchange(path: &mut Vec<usize>, a: usize, b: usize, c: usize)
    requires
        a <= b,
        b <= c,
        c < old(path).len() || ((a == b || b == c) && c <= old(path).len()),
    ensures
        final(path)@.len() == old(path)@.len(),
        a == b || b == c ==> final(path)@ == old(path)@,
        a < b && b < c ==> final(path)@ == exch_seg(old(path)@, a as int, b as int, c as int),
    decreases c - a,
{
    let ab = b - a;
    let bc = c - b;
    if ab == 0 || bc == 0 {
        return ;
    }
    let k = if ab < bc {
        ab
    } else {
        bc
    };
    let ghost t0 = path@;
    let mut i: usize = 0;
    while i < k
        invariant
            path@.len() == t0.len(),
            i <= k,
            k <= b - a,
            b + k <= c,
            a < b,
            b < c,
            c < t0.len(),
            forall|x: int| 0 <= x <= a ==> path@[x] == t0[x],
            forall|x: int| a + i < x <= b ==> path@[x] == t0[x],
            forall|x: int| b + i < x < t0.len() ==> path@[x] == t0[x],
            forall|x: int| a < x <= a + i ==> path@[x] == t0[x + (b - a)],
            forall|x: int| b < x <= b + i ==> path@[x] == t0[x - (b - a)],
        decreases k - i,
    {
        let vi = path[a + i + 1];
        let vj = path[b + i + 1];
        path.set(a + i + 1, vj);
        path.set(b + i + 1, vi);
        i += 1;
    }
    let ghost t1 = path@;
    if ab < bc {
        let b2 = b + ab;
        exchange(path, b, b2, c);
        proof {
            lemma_exch_seg_points(t1, b as int, b2 as int, c as int);
            lemma_exch_seg_points(t0, a as int, b as int, c as int);
            assert forall|x: int| 0 <= x < t0.len() implies path@[x] == exch_seg(
                t0,
                a as int,
                b as int,
                c as int,
            )[x] by {
                assert(path@[x] == t1[exch_src(b as int, b2 as int, c as int, x)]);
                assert(exch_seg(t0, a as int, b as int, c as int)[x] == t0[exch_src(
                    a as int,
                    b as int,
                    c as int,
                    x,
                )]);
            }
            assert(path@ =~= exch_seg(t0, a as int, b as int, c as int));
        }
    } else if ab > bc {
        let a2 = a + bc;
        exchange(path, a2, b, c);
        proof {
            lemma_exch_seg_points(t1, a2 as int, b as int, c as int);
            lemma_exch_seg_points(t0, a as int, b as int, c as int);
            assert forall|x: int| 0 <= x < t0.len() implies path@[x] == exch_seg(
                t0,
                a as int,
                b as int,
                c as int,
            )[x] by {
                assert(path@[x] == t1[exch_src(a2 as int, b as int, c as int, x)]);
                assert(exch_seg(t0, a as int, b as int, c as int)[x] == t0[exch_src(
                    a as int,
                    b as int,
                    c as int,
                    x,
                )]);
            }
            assert(path@ =~= exch_seg(t0, a as int, b as int, c as int));
        }
    } else {
        proof {
            lemma_exch_seg_points(t0, a as int, b as int, c as int);
            assert forall|x: int| 0 <= x < t0.len() implies path@[x] == exch_seg(
                t0,
                a as int,
                b as int,
                c as int,
            )[x] by {
                assert(exch_seg(t0, a as int, b as int, c as int)[x] == t0[exch_src(
                    a as int,
                    b as int,
                    c as int,
                    x,
                )]);
            }
            assert(path@ =~= exch_seg(t0, a as int, b as int, c as int));
        }
    }
}

/// The block exchange is its own structural inverse: re-applying it at the
/// new boundaries `a, a + (c - b), c` restores the original sequence.
pub proof fn lemma_exchange_involution(t: Seq<usize>, a: int, b: int, c: int)
    requires
        0 <= a <= b <= c < t.len(),
    ensures
        exch_seg(exch_seg(t, a, b, c), a, a + (c - b), c) == t,
{
    let t1 = exch_seg(t, a, b, c);
    let b2 = a + (c - b);
    lemma_exch_seg_points(t, a, b, c);
    lemma_exch_seg_points(t1, a, b2, c);
    assert forall|x: int| 0 <= x < t.len() implies exch_seg(t1, a, b2, c)[x] == t[x] by {
        assert(exch_seg(t1, a, b2, c)[x] == t1[exch_src(a, b2, c, x)]);
        assert(t1[exch_src(a, b2, c, x)] == t[exch_src(a, b, c, exch_src(a, b2, c, x))]);
    }
    assert(exch_seg(t1, a, b2, c) =~= t);
}

/// The block-exchange law: applied to `v1 + v2 + v3 + v4` at the block
/// boundaries, the exchange yields `v1 + v3 + v2 + v4`.
pub proof fn lemma_exchange_blocks(v1: Seq<usize>, v2: Seq<usize>, v3: Seq<usize>, v4: Seq<usize>)
    requires
        v1.len() >= 1,
    ensures
        exch_seg(
            v1 + v2 + v3 + v4,
            v1.len() - 1,
            v1.len() + v2.len() - 1,
            v1.len() + v2.len() + v3.len() - 1,
        ) == v1 + v3 + v2 + v4,
{
    let t = v1 + v2 + v3 + v4;
    let a = v1.len() - 1;
    let b = v1.len() + v2.len() - 1;
    let c = v1.len() + v2.len() + v3.len() - 1;
    assert(t.subrange(0, a + 1) =~= v1);
    assert(t.subrange(a + 1, b + 1) =~= v2);
    assert(t.subrange(b + 1, c + 1) =~= v3);
    assert(t.subrange(c + 1, t.len() as int) =~= v4);
    assert(exch_seg(t, a, b, c) =~= v1 + v3 + v2 + v4);
}

} // verus!
