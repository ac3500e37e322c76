use vstd::prelude::*;
use crate::cost::{matrix_wf, path_sum, tour_cost, lemma_path_sum_push};
use crate::tour::in_range;

verus! {

/// A travelling-salesman problem: an immutable symmetric table of pairwise
/// point distances, held as plain `u64` values. Callers working in real
/// coordinates scale them to a fixed-point grid (the Euclidean constructors
/// take such scaled integer coordinates and round each distance down).
pub struct TSP {
    distances: Vec<Vec<u64>>,
}

/// Bound on the coordinates the Euclidean constructors accept, so that no
/// squared distance can overflow the machine arithmetic.
pub const COORD_LIMIT: i64 = 1_000_000_000;

pub open spec fn coord_ok(x: i64) -> bool {
    -COORD_LIMIT <= x <= COORD_LIMIT
}

pub open spec fn point2_ok(p: (i64, i64)) -> bool {
    coord_ok(p.0) && coord_ok(p.1)
}

pub open spec fn point3_ok(p: (i64, i64, i64)) -> bool {
    coord_ok(p.0) && coord_ok(p.1) && coord_ok(p.2)
}

/// Squared Euclidean distance between two 2D points.
pub open spec fn sq_dist2(p: (i64, i64), q: (i64, i64)) -> int {
    (p.0 - q.0) * (p.0 - q.0) + (p.1 - q.1) * (p.1 - q.1)
}

/// Squared Euclidean distance between two 3D points.
pub open spec fn sq_dist3(p: (i64, i64, i64), q: (i64, i64, i64)) -> int {
    (p.0 - q.0) * (p.0 - q.0) + (p.1 - q.1) * (p.1 - q.1) + (p.2 - q.2) * (p.2 - q.2)
}

/// `r` is the integer square root of `x`, rounded down.
pub open spec fn is_floor_sqrt(x: int, r: int) -> bool {
    r * r <= x < (r + 1) * (r + 1)
}

pub proof fn lemma_floor_sqrt_unique(x: int, r1: int, r2: int)
    requires
        r1 >= 0,
        r2 >= 0,
        is_floor_sqrt(x, r1),
        is_floor_sqrt(x, r2),
    ensures
        r1 == r2,
{
    if r1 < r2 {
        assert((r1 + 1) * (r1 + 1) <= r2 * r2) by (nonlinear_arith)
            requires
                0 <= r1 + 1 <= r2,
        ;
    }
    if r2 < r1 {
        assert((r2 + 1) * (r2 + 1) <= r1 * r1) by (nonlinear_arith)
            requires
                0 <= r2 + 1 <= r1,
        ;
    }
}

/// Integer square root by binary search: the greatest `r` with `r * r <= x`.
pub fn isqrt(x: u128) -> (r: u64)
    ensures
        is_floor_sqrt(x as int, r as int),
{
    let mut lo: u64 = 0;
    let mut hi: u64 = u64::MAX;
    proof {
        assert((hi as int + 1) * (hi as int + 1) > x as int) by (nonlinear_arith)
            requires
                hi == u64::MAX,
                x <= u128::MAX,
        ;
    }
    while lo < hi
        invariant
            (lo as int) * (lo as int) <= x as int,
            (x as int) < ((hi as int) + 1) * ((hi as int) + 1),
            lo <= hi,
        decreases hi - lo,
    {
        let mid = lo + (hi - lo) / 2;
        let m1 = (mid as u128) + 1;
        proof {
            assert(m1 * m1 <= u128::MAX) by (nonlinear_arith)
                requires
                    m1 <= 0xffff_ffff_ffff_ffffu128,
            ;
        }
        let sq = m1 * m1;
        if sq <= x {
            lo = mid + 1;
        } else {
            hi = mid;
        }
    }
    lo
}

impl TSP {
    /// The distance table as a mathematical sequence of rows.
    pub closed spec fn mat(self) -> Seq<Seq<u64>> {
        self.distances@.map_values(|v: Vec<u64>| v@)
    }

    /// The table is square, symmetric, and zero on the diagonal.
    pub open spec fn wf(self) -> bool {
        matrix_wf(self.mat())
    }

    /// Number of points of the problem.
    pub fn size(&self) -> (n: usize)
        ensures
            n == self.mat().len(),
    {
        self.distances.len()
    }

    /// The distance between points `i` and `j`.
    pub fn dist(&self, i: usize, j: usize) -> (r: u64)
        requires
            self.wf(),
            i < self.mat().len(),
            j < self.mat().len(),
        ensures
            r as int == self.mat()[i as int][j as int],
    {
        let row: &Vec<u64> = &self.distances[i];
        proof {
            assert(self.mat()[i as int] == row@);
            assert(self.mat()[i as int].len() == self.mat().len());
        }
        row[j]
    }

    /// Builds a problem from an explicit distance table, accepting it only
    /// if the table is square, symmetric and zero on the diagonal.
    pub fn from_distances(distances: Vec<Vec<u64>>) -> (r: Option<TSP>)
        ensures
            ({
                let mm = distances@.map_values(|v: Vec<u64>| v@);
                match r {
                    Some(t) => t.mat() == mm && matrix_wf(mm),
                    None => !matrix_wf(mm),
                }
            }),
    {
        let ghost mm = distances@.map_values(|v: Vec<u64>| v@);
        let n = distances.len();
        let mut i: usize = 0;
        while i < n
            invariant
                i <= n,
                n == distances@.len(),
                mm == distances@.map_values(|v: Vec<u64>| v@),
                forall|x: int| 0 <= x < i ==> (#[trigger] mm[x]).len() == n,
            decreases n - i,
        {
            let row: &Vec<u64> = &distances[i];
            if row.len() != n {
                proof {
                    assert(mm[i as int].len() != n);
                }
                return None;
            }
            i += 1;
        }
        let mut a: usize = 0;
        while a < n
            invariant
                a <= n,
                n == distances@.len(),
                mm == distances@.map_values(|v: Vec<u64>| v@),
                forall|x: int| 0 <= x < n ==> (#[trigger] mm[x]).len() == n,
                forall|x: int| 0 <= x < a ==> #[trigger] mm[x][x] == 0,
                forall|x: int, y: int| 0 <= x < a && 0 <= y < n ==> #[trigger] mm[x][y] == mm[y][x],
            decreases n - a,
        {
            let row_a: &Vec<u64> = &distances[a];
            proof {
                assert(row_a@ == mm[a as int]);
                assert(row_a@.len() == n);
            }
            if row_a[a] != 0 {
                proof {
                    assert(mm[a as int][a as int] != 0);
                }
                return None;
            }
            let mut b: usize = 0;
            while b < n
                invariant
                    b <= n,
                    a < n,
                    n == distances@.len(),
                    mm == distances@.map_values(|v: Vec<u64>| v@),
                    forall|x: int| 0 <= x < n ==> (#[trigger] mm[x]).len() == n,
                    forall|y: int| 0 <= y < b ==> #[trigger] mm[a as int][y] == mm[y][a as int],
                decreases n - b,
            {
                let row_a2: &Vec<u64> = &distances[a];
                let row_b: &Vec<u64> = &distances[b];
                proof {
                    assert(row_a2@ == mm[a as int]);
                    assert(row_b@ == mm[b as int]);
                    assert(row_a2@.len() == n);
                    assert(row_b@.len() == n);
                }
                if row_a2[b] != row_b[a] {
                    proof {
                        assert(mm[a as int][b as int] != mm[b as int][a as int]);
                    }
                    return None;
                }
                b += 1;
            }
            a += 1;
        }
        let t = TSP { distances };
        proof {
            assert(t.mat() == mm);
        }
        Some(t)
    }

    /// The exact cyclic length of `path` under this distance table.
    pub fn tour_length(&self, path: &Vec<usize>) -> (r: u128)
        requires
            self.wf(),
            in_range(path@, self.mat().len() as nat),
        ensures
            r as int == tour_cost(self.mat(), path@),
    {
        let ghost m = self.mat();
        let n = path.len();
        if n == 0 {
            return 0;
        }
        let mut acc: u128 = 0;
        let mut i: usize = 0;
        while i < n
            invariant
                self.wf(),
                m == self.mat(),
                in_range(path@, m.len() as nat),
                n == path@.len(),
                0 < n,
                i <= n,
                acc as int <= (i as int) * 0xffff_ffff_ffff_ffff,
                i < n ==> acc as int == path_sum(m, path@.take(i as int + 1)),
                i == n ==> acc as int == tour_cost(m, path@),
            decreases n - i,
        {
            let j = if i + 1 == n {
                0
            } else {
                i + 1
            };
            let pi = path[i];
            let pj = path[j];
            let d = self.dist(pi, pj);
            proof {
                assert((i as int + 1) * 0xffff_ffff_ffff_ffff <= 0xffff_ffff_ffff_ffff
                    * 0xffff_ffff_ffff_ffff) by (nonlinear_arith)
                    requires
                        0 <= i as int + 1 <= 0xffff_ffff_ffff_ffff,
                ;
                assert(0xffff_ffff_ffff_ffff * 0xffff_ffff_ffff_ffff < u128::MAX) by (nonlinear_arith);
                if i + 1 < n {
                    assert(path@.take(i as int + 2) =~= path@.take(i as int + 1).push(
                        path@[i as int + 1],
                    ));
                    lemma_path_sum_push(m, path@.take(i as int + 1), path@[i as int + 1]);
                    assert(path@.take(i as int + 1).last() == path@[i as int]);
                } else {
                    assert(path@.take(i as int + 1) =~= path@);
                    assert(path@.last() == path@[i as int]);
                }
            }
            acc = acc + (d as u128);
            i += 1;
        }
        acc
    }

    /// Builds a problem from 2D integer coordinates: each table entry is the
    /// Euclidean distance between the two points, rounded down.
    pub fn new_euc2d(vertices: &Vec<(i64, i64)>) -> (t: TSP)
        requires
            forall|i: int| 0 <= i < vertices@.len() ==> point2_ok(#[trigger] vertices@[i]),
        ensures
            t.wf(),
            t.mat().len() == vertices@.len(),
            forall|i: int, j: int|
                0 <= i < vertices@.len() && 0 <= j < vertices@.len() ==> is_floor_sqrt(
                    sq_dist2(vertices@[i], vertices@[j]),
                    #[trigger] t.mat()[i][j] as int,
                ),
    {
        let n = vertices.len();
        let mut distances: Vec<Vec<u64>> = Vec::new();
        let mut i: usize = 0;
        while i < n
            invariant
                i <= n,
                n == vertices@.len(),
                forall|x: int| 0 <= x < n ==> point2_ok(#[trigger] vertices@[x]),
                distances@.len() == i,
                forall|x: int| 0 <= x < i ==> (#[trigger] distances@[x])@.len() == n,
                forall|x: int, y: int|
                    0 <= x < i && 0 <= y < n ==> is_floor_sqrt(
                        sq_dist2(vertices@[x], vertices@[y]),
                        #[trigger] distances@[x]@[y] as int,
                    ),
            decreases n - i,
        {
            let mut row: Vec<u64> = Vec::new();
            let mut j: usize = 0;
            while j < n
                invariant
                    j <= n,
                    i < n,
                    n == vertices@.len(),
                    forall|x: int| 0 <= x < n ==> point2_ok(#[trigger] vertices@[x]),
                    row@.len() == j,
                    forall|y: int|
                        0 <= y < j ==> is_floor_sqrt(
                            sq_dist2(vertices@[i as int], vertices@[y]),
                            #[trigger] row@[y] as int,
                        ),
                decreases n - j,
            {
                let d = euc2d(vertices[i], vertices[j]);
                row.push(d);
                j += 1;
            }
            distances.push(row);
            i += 1;
        }
        let t = TSP { distances };
        proof {
            lemma_euclidean_table_wf2(t, vertices@);
        }
        t
    }

    /// Builds a problem from 3D integer coordinates, as `new_euc2d` does.
    pub fn new_euc3d(vertices: &Vec<(i64, i64, i64)>) -> (t: TSP)
        requires
            forall|i: int| 0 <= i < vertices@.len() ==> point3_ok(#[trigger] vertices@[i]),
        ensures
            t.wf(),
            t.mat().len() == vertices@.len(),
            forall|i: int, j: int|
                0 <= i < vertices@.len() && 0 <= j < vertices@.len() ==> is_floor_sqrt(
                    sq_dist3(vertices@[i], vertices@[j]),
                    #[trigger] t.mat()[i][j] as int,
                ),
    {
        let n = vertices.len();
        let mut distances: Vec<Vec<u64>> = Vec::new();
        let mut i: usize = 0;
        while i < n
            invariant
                i <= n,
                n == vertices@.len(),
                forall|x: int| 0 <= x < n ==> point3_ok(#[trigger] vertices@[x]),
                distances@.len() == i,
                forall|x: int| 0 <= x < i ==> (#[trigger] distances@[x])@.len() == n,
                forall|x: int, y: int|
                    0 <= x < i && 0 <= y < n ==> is_floor_sqrt(
                        sq_dist3(vertices@[x], vertices@[y]),
                        #[trigger] distances@[x]@[y] as int,
                    ),
            decreases n - i,
        {
            let mut row: Vec<u64> = Vec::new();
            let mut j: usize = 0;
            while j < n
                invariant
                    j <= n,
                    i < n,
                    n == vertices@.len(),
                    forall|x: int| 0 <= x < n ==> point3_ok(#[trigger] vertices@[x]),
                    row@.len() == j,
                    forall|y: int|
                        0 <= y < j ==> is_floor_sqrt(
                            sq_dist3(vertices@[i as int], vertices@[y]),
                            #[trigger] row@[y] as int,
                        ),
                decreases n - j,
            {
                let d = euc3d(vertices[i], vertices[j]);
                row.push(d);
                j += 1;
            }
            distances.push(row);
            i += 1;
        }
        let t = TSP { distances };
        proof {
            lemma_euclidean_table_wf3(t, vertices@);
        }
        t
    }
}

/// Euclidean distance of two 2D points, rounded down to an integer.
fn euc2d(p: (i64, i64), q: (i64, i64)) -> (r: u64)
    requires
        point2_ok(p),
        point2_ok(q),
    ensures
        is_floor_sqrt(sq_dist2(p, q), r as int),
{
    let dx = p.0 - q.0;
    let dy = p.1 - q.1;
    proof {
        lemma_square_bounds(dx as int);
        lemma_square_bounds(dy as int);
    }
    let sx = (dx as i128) * (dx as i128);
    let sy = (dy as i128) * (dy as i128);
    let s = (sx as u128) + (sy as u128);
    isqrt(s)
}

/// Euclidean distance of two 3D points, rounded down to an integer.
fn euc3d(p: (i64, i64, i64), q: (i64, i64, i64)) -> (r: u64)
    requires
        point3_ok(p),
        point3_ok(q),
    ensures
        is_floor_sqrt(sq_dist3(p, q), r as int),
{
    let dx = p.0 - q.0;
    let dy = p.1 - q.1;
    let dz = p.2 - q.2;
    proof {
        lemma_square_bounds(dx as int);
        lemma_square_bounds(dy as int);
        lemma_square_bounds(dz as int);
    }
    let sx = (dx as i128) * (dx as i128);
    let sy = (dy as i128) * (dy as i128);
    let sz = (dz as i128) * (dz as i128);
    let s = (sx as u128) + (sy as u128) + (sz as u128);
    isqrt(s)
}

proof fn lemma_square_bounds(d: int)
    requires
        -2_000_000_001 <= d <= 2_000_000_001,
    ensures
        0 <= d * d <= 0x8000_0000_0000_0000_0000,
{
    assert(0 <= d * d <= 0x8000_0000_0000_0000_0000) by (nonlinear_arith)
        requires
            -2_000_000_001 <= d <= 2_000_000_001,
    ;
}

proof fn lemma_sq_sym(x: int, y: int)
    ensures
        (x - y) * (x - y) == (y - x) * (y - x),
{
    assert((x - y) * (x - y) == (y - x) * (y - x)) by (nonlinear_arith);
}

proof fn lemma_floor_sqrt_of_zero(r: int)
    requires
        r >= 0,
        is_floor_sqrt(0, r),
    ensures
        r == 0,
{
    if r >= 1 {
        assert(r * r >= 1) by (nonlinear_arith)
            requires
                r >= 1,
        ;
    }
}

proof fn lemma_euclidean_table_wf2(t: TSP, vs: Seq<(i64, i64)>)
    requires
        t.mat().len() == vs.len(),
        forall|i: int| 0 <= i < t.mat().len() ==> (#[trigger] t.mat()[i]).len() == t.mat().len(),
        forall|i: int, j: int|
            0 <= i < vs.len() && 0 <= j < vs.len() ==> is_floor_sqrt(
                sq_dist2(vs[i], vs[j]),
                #[trigger] t.mat()[i][j] as int,
            ),
    ensures
        t.wf(),
{
    let m = t.mat();
    assert forall|i: int, j: int|
        0 <= i < m.len() && 0 <= j < m.len() implies #[trigger] m[i][j] == m[j][i] by {
        lemma_sq_sym(vs[i].0 as int, vs[j].0 as int);
        lemma_sq_sym(vs[i].1 as int, vs[j].1 as int);
        lemma_floor_sqrt_unique(sq_dist2(vs[i], vs[j]), m[i][j] as int, m[j][i] as int);
    }
    assert forall|i: int| 0 <= i < m.len() implies #[trigger] m[i][i] == 0 by {
        assert(sq_dist2(vs[i], vs[i]) == 0) by (nonlinear_arith);
        lemma_floor_sqrt_of_zero(m[i][i] as int);
    }
}

proof fn lemma_euclidean_table_wf3(t: TSP, vs: Seq<(i64, i64, i64)>)
    requires
        t.mat().len() == vs.len(),
        forall|i: int| 0 <= i < t.mat().len() ==> (#[trigger] t.mat()[i]).len() == t.mat().len(),
        forall|i: int, j: int|
            0 <= i < vs.len() && 0 <= j < vs.len() ==> is_floor_sqrt(
                sq_dist3(vs[i], vs[j]),
                #[trigger] t.mat()[i][j] as int,
            ),
    ensures
        t.wf(),
{
    let m = t.mat();
    assert forall|i: int, j: int|
        0 <= i < m.len() && 0 <= j < m.len() implies #[trigger] m[i][j] == m[j][i] by {
        lemma_sq_sym(vs[i].0 as int, vs[j].0 as int);
        lemma_sq_sym(vs[i].1 as int, vs[j].1 as int);
        lemma_sq_sym(vs[i].2 as int, vs[j].2 as int);
        lemma_floor_sqrt_unique(sq_dist3(vs[i], vs[j]), m[i][j] as int, m[j][i] as int);
    }
    assert forall|i: int| 0 <= i < m.len() implies #[trigger] m[i][i] == 0 by {
        assert(sq_dist3(vs[i], vs[i]) == 0) by (nonlinear_arith);
        lemma_floor_sqrt_of_zero(m[i][i] as int);
    }
}

} // verus!
