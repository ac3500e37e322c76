use vstd::prelude::*;
use crate::TspError;
use crate::matrix::TSP;
use crate::cost::{dist_at, nxt, tour_cost, lemma_tour_cost_nonneg};
use crate::tour::{is_tour, ident, identity_tour, copy_tour, is_valid_tour};
use crate::segment::{lemma_rev_seg_tour, lemma_rev_seg_cost, reverse_segment};

verus! {

/// The starting tour of an optimizer call: the caller's tour where one is
/// supplied, else the identity tour.
pub open spec fn start_of(start: Option<&Vec<usize>>, n: nat) -> Seq<usize> {
    match start {
        None => ident(n),
        Some(s) => s@,
    }
}

/// Positions `a` and `b` bound a candidate 2-opt move: the removed edges
/// `(a, a+1)` and `(b, b+1 mod n)` are distinct and non-adjacent.
pub open spec fn two_opt_pair(len: int, a: int, b: int) -> bool {
    0 <= a && a + 2 <= b && b < len
}

/// Removing the edges at `(a, a+1)` and `(b, b+1 mod n)` and reconnecting
/// crosswise is strictly cheaper.
pub open spec fn improves_2opt(m: Seq<Seq<u64>>, t: Seq<usize>, a: int, b: int) -> bool {
    dist_at(m, t, a, b) + dist_at(m, t, a + 1, nxt(t.len() as int, b)) < dist_at(m, t, a, a + 1)
        + dist_at(m, t, b, nxt(t.len() as int, b))
}

/// No 2-opt move improves `t`: a 2-opt local optimum.
pub open spec fn two_opt_stable(m: Seq<Seq<u64>>, t: Seq<usize>) -> bool {
    forall|a: int, b: int|
        two_opt_pair(t.len() as int, a, b) ==> !(#[trigger] improves_2opt(m, t, a, b))
}

/// All pairs lexicographically before `(a, b)` fail to improve `t`.
pub open spec fn no_improve_2opt_before(m: Seq<Seq<u64>>, t: Seq<usize>, a: int, b: int) -> bool {
    forall|x: int, y: int|
        two_opt_pair(t.len() as int, x, y) && (x < a || (x == a && y < b)) ==> !(
        #[trigger] improves_2opt(m, t, x, y))
}

impl TSP {
    /// 2-opt local search. Starting from `start` — the identity tour when
    /// omitted, otherwise a copy of the caller's tour, rejected unless it is
    /// a permutation of `0 .. n-1` — the optimizer sweeps over all candidate
    /// pairs and reverses the segment between the two removed edges whenever
    /// the reconnection is strictly cheaper, until a full sweep finds no
    /// improving move. Returns the exact final length with the final tour,
    /// which is a permutation, starts with the same element as the starting
    /// tour, is no longer than it, and admits no further 2-opt improvement.
    pub fn do_2opt(&self, start: Option<&Vec<usize>>) -> (res: Result<
        (u128, Vec<usize>),
        TspError,
    >)
        requires
            self.wf(),
        ensures
            ({
                let m = self.mat();
                let n = m.len() as nat;
                let s0 = start_of(start, n);
                match res {
                    Ok(r) => {
                        &&& is_tour(s0, n)
                        &&& is_tour(r.1@, n)
                        &&& r.0 as int == tour_cost(m, r.1@)
                        &&& tour_cost(m, r.1@) <= tour_cost(m, s0)
                        &&& n > 0 ==> r.1@[0] == s0[0]
                        &&& two_opt_stable(m, r.1@)
                        &&& two_opt_stable(m, s0) ==> r.1@ == s0
                    },
                    Err(e) => {
                        &&& e == TspError::InvalidTour
                        &&& !is_tour(s0, n)
                    },
                }
            }),
    {
        let ghost m = self.mat();
        let nm = self.size();
        let mut path: Vec<usize>;
        match start {
            None => {
                path = identity_tour(nm);
            },
            Some(s) => {
                if !is_valid_tour(s, nm) {
                    return Err(TspError::InvalidTour);
                }
                path = copy_tour(s);
            },
        }
        let ghost s0 = path@;
        proof {
            assert(s0 == start_of(start, m.len() as nat));
        }
        let n = path.len();
        let mut stable = false;
        while !stable
            invariant
                self.wf(),
                m == self.mat(),
                n == m.len(),
                n == path@.len(),
                is_tour(path@, n as nat),
                is_tour(s0, n as nat),
                n > 0 ==> path@[0] == s0[0],
                tour_cost(m, path@) <= tour_cost(m, s0),
                stable ==> two_opt_stable(m, path@),
                two_opt_stable(m, s0) ==> path@ == s0,
            decreases tour_cost(m, path@) + if stable {
                0int
            } else {
                1int
            },
        {
            let ghost sw = path@;
            stable = true;
            let mut a: usize = 0;
            while a < n
                invariant
                    self.wf(),
                    m == self.mat(),
                    n == m.len(),
                    n == path@.len(),
                    a <= n,
                    is_tour(path@, n as nat),
                    is_tour(s0, n as nat),
                    n > 0 ==> path@[0] == s0[0],
                    tour_cost(m, path@) <= tour_cost(m, s0),
                    tour_cost(m, sw) <= tour_cost(m, s0),
                    stable ==> path@ == sw && no_improve_2opt_before(m, path@, a as int, 0),
                    !stable ==> tour_cost(m, path@) < tour_cost(m, sw),
                    two_opt_stable(m, s0) ==> path@ == s0,
                decreases n - a,
            {
                if n - a > 2 {
                    let mut b: usize = a + 2;
                    while b < n
                        invariant
                            self.wf(),
                            m == self.mat(),
                            n == m.len(),
                            n == path@.len(),
                            a + 2 <= b,
                            b <= n,
                            a + 2 < n,
                            is_tour(path@, n as nat),
                            is_tour(s0, n as nat),
                            n > 0 ==> path@[0] == s0[0],
                            tour_cost(m, path@) <= tour_cost(m, s0),
                            tour_cost(m, sw) <= tour_cost(m, s0),
                            stable ==> path@ == sw && no_improve_2opt_before(
                                m,
                                path@,
                                a as int,
                                b as int,
                            ),
                            !stable ==> tour_cost(m, path@) < tour_cost(m, sw),
                            two_opt_stable(m, s0) ==> path@ == s0,
                        decreases n - b,
                    {
                        let bn = if b + 1 == n {
                            0
                        } else {
                            b + 1
                        };
                        let pa = path[a];
                        let pa1 = path[a + 1];
                        let pb = path[b];
                        let pbn = path[bn];
                        let d_new = (self.dist(pa, pb) as u128) + (self.dist(pa1, pbn) as u128);
                        let d_old = (self.dist(pa, pa1) as u128) + (self.dist(pb, pbn) as u128);
                        proof {
                            assert(bn as int == nxt(n as int, b as int));
                            assert(d_new as int == dist_at(m, path@, a as int, b as int) + dist_at(
                                m,
                                path@,
                                a as int + 1,
                                nxt(n as int, b as int),
                            ));
                            assert(d_old as int == dist_at(m, path@, a as int, a as int + 1)
                                + dist_at(m, path@, b as int, nxt(n as int, b as int)));
                        }
                        if d_new < d_old {
                            proof {
                                assert(improves_2opt(m, path@, a as int, b as int));
                                if two_opt_stable(m, s0) {
                                    assert(path@ == s0);
                                    assert(two_opt_pair(n as int, a as int, b as int));
                                    assert(false);
                                }
                            }
                            let ghost before = path@;
                            reverse_segment(&mut path, a, b);
                            proof {
                                lemma_rev_seg_tour(before, n as nat, a as int, b as int);
                                lemma_rev_seg_cost(m, before, a as int, b as int);
                                assert(tour_cost(m, path@) < tour_cost(m, before));
                                if stable {
                                    assert(before == sw);
                                }
                                assert(tour_cost(m, path@) < tour_cost(m, sw));
                            }
                            stable = false;
                        } else {
                            proof {
                                if stable {
                                    assert(!improves_2opt(m, path@, a as int, b as int));
                                    assert forall|x: int, y: int|
                                        two_opt_pair(n as int, x, y) && (x < a as int || (x
                                            == a as int && y < b as int + 1)) implies !(
                                    #[trigger] improves_2opt(m, path@, x, y)) by {
                                        if !(x == a as int && y == b as int) {
                                            assert(x < a as int || (x == a as int && y
                                                < b as int));
                                        }
                                    }
                                }
                            }
                        }
                        b += 1;
                    }
                    proof {
                        if stable {
                            assert forall|x: int, y: int|
                                two_opt_pair(n as int, x, y) && (x < a as int + 1 || (x == a as int
                                    + 1 && y < 0)) implies !(#[trigger] improves_2opt(
                                m,
                                path@,
                                x,
                                y,
                            )) by {
                                if x == a as int {
                                    assert(y < n as int);
                                }
                            }
                        }
                    }
                } else {
                    proof {
                        if stable {
                            assert forall|x: int, y: int|
                                two_opt_pair(n as int, x, y) && (x < a as int + 1 || (x == a as int
                                    + 1 && y < 0)) implies !(#[trigger] improves_2opt(
                                m,
                                path@,
                                x,
                                y,
                            )) by {
                                if x == a as int {
                                    assert(y >= x + 2);
                                    assert(false);
                                }
                            }
                        }
                    }
                }
                a += 1;
            }
            proof {
                if stable {
                    assert forall|x: int, y: int|
                        two_opt_pair(n as int, x, y) implies !(#[trigger] improves_2opt(
                        m,
                        path@,
                        x,
                        y,
                    )) by {
                        assert(x < n as int);
                    }
                }
                lemma_tour_cost_nonneg(m, path@);
            }
        }
        let len = self.tour_length(&path);
        Ok((len, path))
    }
}

} // verus!
