use vstd::prelude::*;
use crate::TspError;
use crate::matrix::TSP;
use crate::cost::{matrix_wf, dist_at, nxt, tour_cost, lemma_tour_cost_nonneg};
use crate::tour::{is_tour, identity_tour, copy_tour, is_valid_tour};
use crate::segment::{
    rev_seg, exch_seg, rev_src, lemma_rev_seg_points, lemma_rev_seg_tour, lemma_rev_seg_cost,
    lemma_exch_seg_tour, lemma_exch_seg_cost, reverse_segment, exchange,
};
use crate::two_opt::start_of;

verus! {

/// Positions `a < b < c` bound a candidate 3-opt move: the removed edges
/// are `(a, a+1)`, `(b, b+1)` and `(c, c+1 mod n)`.
pub open spec fn three_opt_triple(len: int, a: int, b: int, c: int) -> bool {
    0 <= a && a < b && b < c && c < len
}

/// Summed length of the three removed edges.
pub open spec fn cur3(m: Seq<Seq<u64>>, t: Seq<usize>, a: int, b: int, c: int) -> int {
    dist_at(m, t, a, a + 1) + dist_at(m, t, b, b + 1) + dist_at(m, t, c, nxt(t.len() as int, c))
}

/// Summed length of the three new edges of reconnection `k` of the seven.
pub open spec fn alt3(m: Seq<Seq<u64>>, t: Seq<usize>, a: int, b: int, c: int, k: int) -> int {
    let nc = nxt(t.len() as int, c);
    if k == 0 {
        dist_at(m, t, a, a + 1) + dist_at(m, t, b, c) + dist_at(m, t, b + 1, nc)
    } else if k == 1 {
        dist_at(m, t, a, c) + dist_at(m, t, b + 1, b) + dist_at(m, t, a + 1, nc)
    } else if k == 2 {
        dist_at(m, t, a, b) + dist_at(m, t, a + 1, b + 1) + dist_at(m, t, c, nc)
    } else if k == 3 {
        dist_at(m, t, a, b + 1) + dist_at(m, t, c, b) + dist_at(m, t, a + 1, nc)
    } else if k == 4 {
        dist_at(m, t, a, b) + dist_at(m, t, a + 1, c) + dist_at(m, t, b + 1, nc)
    } else if k == 5 {
        dist_at(m, t, a, c) + dist_at(m, t, b + 1, a + 1) + dist_at(m, t, b, nc)
    } else {
        dist_at(m, t, a, b + 1) + dist_at(m, t, c, a + 1) + dist_at(m, t, b, nc)
    }
}

/// The tour after applying reconnection `k` at `(a, b, c)`.
pub open spec fn apply3(t: Seq<usize>, a: int, b: int, c: int, k: int) -> Seq<usize> {
    if k == 0 {
        rev_seg(t, b, c)
    } else if k == 1 {
        rev_seg(t, a, c)
    } else if k == 2 {
        rev_seg(t, a, b)
    } else if k == 3 {
        exch_seg(rev_seg(t, a, b), a, b, c)
    } else if k == 4 {
        rev_seg(rev_seg(t, a, b), b, c)
    } else if k == 5 {
        exch_seg(rev_seg(t, b, c), a, b, c)
    } else {
        exch_seg(t, a, b, c)
    }
}

/// Some reconnection of the seven is strictly cheaper than the three
/// removed edges.
pub open spec fn improves_3opt(m: Seq<Seq<u64>>, t: Seq<usize>, a: int, b: int, c: int) -> bool {
    exists|k: int| 0 <= k < 7 && #[trigger] alt3(m, t, a, b, c, k) < cur3(m, t, a, b, c)
}

/// No 3-opt move improves `t`: a 3-opt local optimum.
pub open spec fn three_opt_stable(m: Seq<Seq<u64>>, t: Seq<usize>) -> bool {
    forall|a: int, b: int, c: int|
        three_opt_triple(t.len() as int, a, b, c) ==> !(#[trigger] improves_3opt(m, t, a, b, c))
}

/// All triples lexicographically before `(a, b, c)` fail to improve `t`.
pub open spec fn no_improve_3opt_before(
    m: Seq<Seq<u64>>,
    t: Seq<usize>,
    a: int,
    b: int,
    c: int,
) -> bool {
    forall|x: int, y: int, z: int|
        three_opt_triple(t.len() as int, x, y, z) && (x < a || (x == a && (y < b || (y == b && z
            < c)))) ==> !(#[trigger] improves_3opt(m, t, x, y, z))
}

/// Reconnection `k` yields a tour again, keeps the first element in place,
/// and changes the cyclic length by exactly the cost of the three new edges
/// minus the cost of the three removed ones.
pub proof fn lemma_apply3(m: Seq<Seq<u64>>, t: Seq<usize>, a: int, b: int, c: int, k: int)
    requires
        matrix_wf(m),
        is_tour(t, m.len() as nat),
        three_opt_triple(t.len() as int, a, b, c),
        0 <= k < 7,
    ensures
        is_tour(apply3(t, a, b, c, k), m.len() as nat),
        apply3(t, a, b, c, k)[0] == t[0],
        apply3(t, a, b, c, k).len() == t.len(),
        tour_cost(m, apply3(t, a, b, c, k)) + cur3(m, t, a, b, c) == tour_cost(m, t) + alt3(
            m,
            t,
            a,
            b,
            c,
            k,
        ),
{
    let n = t.len() as int;
    let nn = m.len() as nat;
    let nc = nxt(n, c);
    if k == 0 {
        lemma_rev_seg_tour(t, nn, b, c);
        lemma_rev_seg_cost(m, t, b, c);
    } else if k == 1 {
        lemma_rev_seg_tour(t, nn, a, c);
        lemma_rev_seg_cost(m, t, a, c);
        assert(m[t[b + 1] as int][t[b] as int] == m[t[b] as int][t[b + 1] as int]);
    } else if k == 2 {
        lemma_rev_seg_tour(t, nn, a, b);
        lemma_rev_seg_cost(m, t, a, b);
        assert(nxt(n, b) == b + 1);
    } else if k == 3 {
        let t1 = rev_seg(t, a, b);
        lemma_rev_seg_tour(t, nn, a, b);
        lemma_rev_seg_cost(m, t, a, b);
        lemma_rev_seg_points(t, a, b);
        assert(nxt(n, b) == b + 1);
        assert(t1.len() == n);
        assert(t1[a] == t[rev_src(a, b, a)]);
        assert(t1[a + 1] == t[rev_src(a, b, a + 1)]);
        assert(t1[a + 1] == t[b]);
        assert(t1[b] == t[rev_src(a, b, b)]);
        assert(t1[b] == t[a + 1]);
        assert(t1[b + 1] == t[b + 1]);
        assert(t1[c] == t[c]);
        assert(t1[nc] == t[nc]);
        lemma_exch_seg_tour(t1, nn, a, b, c);
        lemma_exch_seg_cost(m, t1, a, b, c);
        assert(nxt(t1.len() as int, c) == nc);
    } else if k == 4 {
        let t1 = rev_seg(t, a, b);
        lemma_rev_seg_tour(t, nn, a, b);
        lemma_rev_seg_cost(m, t, a, b);
        lemma_rev_seg_points(t, a, b);
        assert(nxt(n, b) == b + 1);
        assert(t1.len() == n);
        assert(t1[a + 1] == t[rev_src(a, b, a + 1)]);
        assert(t1[a + 1] == t[b]);
        assert(t1[b] == t[rev_src(a, b, b)]);
        assert(t1[b] == t[a + 1]);
        assert(t1[b + 1] == t[b + 1]);
        assert(t1[c] == t[c]);
        assert(t1[nc] == t[nc]);
        lemma_rev_seg_tour(t1, nn, b, c);
        lemma_rev_seg_cost(m, t1, b, c);
        assert(nxt(t1.len() as int, c) == nc);
    } else if k == 5 {
        let t1 = rev_seg(t, b, c);
        lemma_rev_seg_tour(t, nn, b, c);
        lemma_rev_seg_cost(m, t, b, c);
        lemma_rev_seg_points(t, b, c);
        assert(t1.len() == n);
        assert(t1[a] == t[a]);
        assert(t1[a + 1] == t[a + 1]);
        assert(t1[b] == t[b]);
        assert(t1[b + 1] == t[rev_src(b, c, b + 1)]);
        assert(t1[b + 1] == t[c]);
        assert(t1[c] == t[rev_src(b, c, c)]);
        assert(t1[c] == t[b + 1]);
        assert(t1[nc] == t[nc]);
        lemma_exch_seg_tour(t1, nn, a, b, c);
        lemma_exch_seg_cost(m, t1, a, b, c);
        assert(nxt(t1.len() as int, c) == nc);
    } else {
        lemma_exch_seg_tour(t, nn, a, b, c);
        lemma_exch_seg_cost(m, t, a, b, c);
    }
}

impl TSP {
    /// 3-opt local search. Starting from `start` — the identity tour when
    /// omitted, otherwise a copy of the caller's tour, rejected unless it is
    /// a permutation of `0 .. n-1` — the optimizer sweeps over all triples
    /// `a < b < c`, evaluates the seven reconnections of the three removed
    /// edges, and applies the cheapest one whenever it is strictly cheaper
    /// than the removed edges, until a full sweep finds no improving move.
    /// Returns the exact final length with the final tour, which is a
    /// permutation, starts with the same element as the starting tour, is
    /// no longer than it, and admits no further 3-opt improvement.
    #[verifier::rlimit(100)]
    pub fn do_3opt(&self, start: Option<&Vec<usize>>) -> (res: Result<
        (u128, Vec<usize>),
        TspError,
    >)
        requires
            self.wf(),
        ensures
            ({
                let m = self.mat();
                let n = m.len() as nat;
                let s0 = start_of(start, n);
                match res {
                    Ok(r) => {
                        &&& is_tour(s0, n)
                        &&& is_tour(r.1@, n)
                        &&& r.0 as int == tour_cost(m, r.1@)
                        &&& tour_cost(m, r.1@) <= tour_cost(m, s0)
                        &&& n > 0 ==> r.1@[0] == s0[0]
                        &&& three_opt_stable(m, r.1@)
                        &&& three_opt_stable(m, s0) ==> r.1@ == s0
                    },
                    Err(e) => {
                        &&& e == TspError::InvalidTour
                        &&& !is_tour(s0, n)
                    },
                }
            }),
    {
        let ghost m = self.mat();
        let nm = self.size();
        let mut path: Vec<usize>;
        match start {
            None => {
                path = identity_tour(nm);
            },
            Some(s) => {
                if !is_valid_tour(s, nm) {
                    return Err(TspError::InvalidTour);
                }
                path = copy_tour(s);
            },
        }
        let ghost s0 = path@;
        proof {
            assert(s0 == start_of(start, m.len() as nat));
        }
        let n = path.len();
        let mut stable = false;
        while !stable
            invariant
                self.wf(),
                m == self.mat(),
                n == m.len(),
                n == path@.len(),
                is_tour(path@, n as nat),
                is_tour(s0, n as nat),
                n > 0 ==> path@[0] == s0[0],
                tour_cost(m, path@) <= tour_cost(m, s0),
                stable ==> three_opt_stable(m, path@),
                three_opt_stable(m, s0) ==> path@ == s0,
            decreases tour_cost(m, path@) + if stable {
                0int
            } else {
                1int
            },
        {
            let ghost sw = path@;
            stable = true;
            let mut a: usize = 0;
            while a < n
                invariant
                    self.wf(),
                    m == self.mat(),
                    n == m.len(),
                    n == path@.len(),
                    a <= n,
                    is_tour(path@, n as nat),
                    is_tour(s0, n as nat),
                    n > 0 ==> path@[0] == s0[0],
                    tour_cost(m, path@) <= tour_cost(m, s0),
                    tour_cost(m, sw) <= tour_cost(m, s0),
                    stable ==> path@ == sw && no_improve_3opt_before(m, path@, a as int, 0, 0),
                    !stable ==> tour_cost(m, path@) < tour_cost(m, sw),
                    three_opt_stable(m, s0) ==> path@ == s0,
                decreases n - a,
            {
                if n - a > 2 {
                    let mut b: usize = a + 1;
                    while b < n
                        invariant
                            self.wf(),
                            m == self.mat(),
                            n == m.len(),
                            n == path@.len(),
                            a + 1 <= b,
                            b <= n,
                            a + 2 < n,
                            is_tour(path@, n as nat),
                            is_tour(s0, n as nat),
                            n > 0 ==> path@[0] == s0[0],
                            tour_cost(m, path@) <= tour_cost(m, s0),
                            tour_cost(m, sw) <= tour_cost(m, s0),
                            stable ==> path@ == sw && no_improve_3opt_before(
                                m,
                                path@,
                                a as int,
                                b as int,
                                0,
                            ),
                            !stable ==> tour_cost(m, path@) < tour_cost(m, sw),
                            three_opt_stable(m, s0) ==> path@ == s0,
                        decreases n - b,
                    {
                        if n - b > 1 {
                            let mut c: usize = b + 1;
                            while c < n
                                invariant
                                    self.wf(),
                                    m == self.mat(),
                                    n == m.len(),
                                    n == path@.len(),
                                    a < b,
                                    b + 1 <= c,
                                    c <= n,
                                    b + 1 < n,
                                    is_tour(path@, n as nat),
                                    is_tour(s0, n as nat),
                                    n > 0 ==> path@[0] == s0[0],
                                    tour_cost(m, path@) <= tour_cost(m, s0),
                                    tour_cost(m, sw) <= tour_cost(m, s0),
                                    stable ==> path@ == sw && no_improve_3opt_before(
                                        m,
                                        path@,
                                        a as int,
                                        b as int,
                                        c as int,
                                    ),
                                    !stable ==> tour_cost(m, path@) < tour_cost(m, sw),
                                    three_opt_stable(m, s0) ==> path@ == s0,
                                decreases n - c,
                            {
                                let cn = if c + 1 == n {
                                    0
                                } else {
                                    c + 1
                                };
                                let pa = path[a];
                                let pa1 = path[a + 1];
                                let pb = path[b];
                                let pb1 = path[b + 1];
                                let pc = path[c];
                                let pcn = path[cn];
                                let current = (self.dist(pa, pa1) as u128) + (self.dist(pb, pb1)
                                    as u128) + (self.dist(pc, pcn) as u128);
                                let mut swaps: Vec<u128> = Vec::new();
                                swaps.push(
                                    (self.dist(pa, pa1) as u128) + (self.dist(pb, pc) as u128) + (
                                    self.dist(pb1, pcn) as u128),
                                );
                                swaps.push(
                                    (self.dist(pa, pc) as u128) + (self.dist(pb1, pb) as u128) + (
                                    self.dist(pa1, pcn) as u128),
                                );
                                swaps.push(
                                    (self.dist(pa, pb) as u128) + (self.dist(pa1, pb1) as u128) + (
                                    self.dist(pc, pcn) as u128),
                                );
                                swaps.push(
                                    (self.dist(pa, pb1) as u128) + (self.dist(pc, pb) as u128) + (
                                    self.dist(pa1, pcn) as u128),
                                );
                                swaps.push(
                                    (self.dist(pa, pb) as u128) + (self.dist(pa1, pc) as u128) + (
                                    self.dist(pb1, pcn) as u128),
                                );
                                swaps.push(
                                    (self.dist(pa, pc) as u128) + (self.dist(pb1, pa1) as u128) + (
                                    self.dist(pb, pcn) as u128),
                                );
                                swaps.push(
                                    (self.dist(pa, pb1) as u128) + (self.dist(pc, pa1) as u128) + (
                                    self.dist(pb, pcn) as u128),
                                );
                                proof {
                                    assert(cn as int == nxt(n as int, c as int));
                                    assert(current as int == cur3(
                                        m,
                                        path@,
                                        a as int,
                                        b as int,
                                        c as int,
                                    ));
                                    assert forall|j: int| 0 <= j < 7 implies swaps@[j] as int
                                        == alt3(m, path@, a as int, b as int, c as int, j) by {
                                        if j == 0 {
                                        } else if j == 1 {
                                        } else if j == 2 {
                                        } else if j == 3 {
                                        } else if j == 4 {
                                        } else if j == 5 {
                                        } else {
                                            assert(j == 6);
                                        }
                                    }
                                }
                                let mut min_i: usize = 0;
                                let mut i: usize = 1;
                                while i < 7
                                    invariant
                                        min_i < i,
                                        i <= 7,
                                        swaps@.len() == 7,
                                        forall|j: int|
                                            0 <= j < i ==> swaps@[min_i as int] <= #[trigger] swaps@[j],
                                    decreases 7 - i,
                                {
                                    if swaps[i] < swaps[min_i] {
                                        min_i = i;
                                    }
                                    i += 1;
                                }
                                if swaps[min_i] < current {
                                    proof {
                                        assert(alt3(
                                            m,
                                            path@,
                                            a as int,
                                            b as int,
                                            c as int,
                                            min_i as int,
                                        ) < cur3(m, path@, a as int, b as int, c as int));
                                        assert(improves_3opt(
                                            m,
                                            path@,
                                            a as int,
                                            b as int,
                                            c as int,
                                        ));
                                        if three_opt_stable(m, s0) {
                                            assert(path@ == s0);
                                            assert(three_opt_triple(
                                                n as int,
                                                a as int,
                                                b as int,
                                                c as int,
                                            ));
                                            assert(false);
                                        }
                                    }
                                    let ghost before = path@;
                                    if min_i == 0 {
                                        reverse_segment(&mut path, b, c);
                                    } else if min_i == 1 {
                                        reverse_segment(&mut path, a, c);
                                    } else if min_i == 2 {
                                        reverse_segment(&mut path, a, b);
                                    } else if min_i == 3 {
                                        reverse_segment(&mut path, a, b);
                                        proof {
                                            lemma_rev_seg_points(before, a as int, b as int);
                                        }
                                        exchange(&mut path, a, b, c);
                                    } else if min_i == 4 {
                                        reverse_segment(&mut path, a, b);
                                        proof {
                                            lemma_rev_seg_points(before, a as int, b as int);
                                        }
                                        reverse_segment(&mut path, b, c);
                                    } else if min_i == 5 {
                                        reverse_segment(&mut path, b, c);
                                        proof {
                                            lemma_rev_seg_points(before, b as int, c as int);
                                        }
                                        exchange(&mut path, a, b, c);
                                    } else {
                                        exchange(&mut path, a, b, c);
                                    }
                                    proof {
                                        assert(path@ == apply3(
                                            before,
                                            a as int,
                                            b as int,
                                            c as int,
                                            min_i as int,
                                        ));
                                        lemma_apply3(
                                            m,
                                            before,
                                            a as int,
                                            b as int,
                                            c as int,
                                            min_i as int,
                                        );
                                        assert(tour_cost(m, path@) < tour_cost(m, before));
                                        if stable {
                                            assert(before == sw);
                                        }
                                        assert(tour_cost(m, path@) < tour_cost(m, sw));
                                    }
                                    stable = false;
                                } else {
                                    proof {
                                        if stable {
                                            assert forall|j: int|
                                                0 <= j < 7 implies alt3(
                                                m,
                                                path@,
                                                a as int,
                                                b as int,
                                                c as int,
                                                j,
                                            ) >= cur3(m, path@, a as int, b as int, c as int) by {
                                                assert(swaps@[min_i as int] <= swaps@[j]);
                                            }
                                            assert(!improves_3opt(
                                                m,
                                                path@,
                                                a as int,
                                                b as int,
                                                c as int,
                                            ));
                                            assert forall|x: int, y: int, z: int|
                                                three_opt_triple(n as int, x, y, z) && (x < a as int
                                                    || (x == a as int && (y < b as int || (y
                                                    == b as int && z < c as int + 1)))) implies !(
                                            #[trigger] improves_3opt(m, path@, x, y, z)) by {
                                                if !(x == a as int && y == b as int && z
                                                    == c as int) {
                                                    assert(x < a as int || (x == a as int && (y
                                                        < b as int || (y == b as int && z
                                                        < c as int))));
                                                }
                                            }
                                        }
                                    }
                                }
                                c += 1;
                            }
                            proof {
                                if stable {
                                    assert forall|x: int, y: int, z: int|
                                        three_opt_triple(n as int, x, y, z) && (x < a as int || (x
                                            == a as int && (y < b as int + 1 || (y == b as int + 1
                                            && z < 0)))) implies !(#[trigger] improves_3opt(
                                        m,
                                        path@,
                                        x,
                                        y,
                                        z,
                                    )) by {
                                        if x == a as int && y == b as int {
                                            assert(z < n as int);
                                        }
                                    }
                                }
                            }
                        } else {
                            proof {
                                if stable {
                                    assert forall|x: int, y: int, z: int|
                                        three_opt_triple(n as int, x, y, z) && (x < a as int || (x
                                            == a as int && (y < b as int + 1 || (y == b as int + 1
                                            && z < 0)))) implies !(#[trigger] improves_3opt(
                                        m,
                                        path@,
                                        x,
                                        y,
                                        z,
                                    )) by {
                                        if x == a as int && y == b as int {
                                            assert(z > y && z < n as int);
                                            assert(false);
                                        }
                                    }
                                }
                            }
                        }
                        b += 1;
                    }
                    proof {
                        if stable {
                            assert forall|x: int, y: int, z: int|
                                three_opt_triple(n as int, x, y, z) && (x < a as int + 1 || (x
                                    == a as int + 1 && (y < 0 || (y == 0 && z < 0)))) implies !(
                            #[trigger] improves_3opt(m, path@, x, y, z)) by {
                                if x == a as int {
                                    assert(y < n as int);
                                }
                            }
                        }
                    }
                } else {
                    proof {
                        if stable {
                            assert forall|x: int, y: int, z: int|
                                three_opt_triple(n as int, x, y, z) && (x < a as int + 1 || (x
                                    == a as int + 1 && (y < 0 || (y == 0 && z < 0)))) implies !(
                            #[trigger] improves_3opt(m, path@, x, y, z)) by {
                                if x == a as int {
                                    assert(x < y && y < z && z < n as int);
                                    assert(false);
                                }
                            }
                        }
                    }
                }
                a += 1;
            }
            proof {
                if stable {
                    assert forall|x: int, y: int, z: int|
                        three_opt_triple(n as int, x, y, z) implies !(#[trigger] improves_3opt(
                        m,
                        path@,
                        x,
                        y,
                        z,
                    )) by {
                        assert(x < n as int);
                    }
                }
                lemma_tour_cost_nonneg(m, path@);
            }
        }
        let len = self.tour_length(&path);
        Ok((len, path))
    }
}

} // verus!
