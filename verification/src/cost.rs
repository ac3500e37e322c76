use vstd::prelude::*;
use crate::tour::in_range;

verus! {

/// The distance table is square, symmetric, and zero on the diagonal.
pub open spec fn matrix_wf(m: Seq<Seq<u64>>) -> bool {
    &&& forall|i: int| 0 <= i < m.len() ==> (#[trigger] m[i]).len() == m.len()
    &&& forall|i: int, j: int|
        0 <= i < m.len() && 0 <= j < m.len() ==> #[trigger] m[i][j] == m[j][i]
    &&& forall|i: int| 0 <= i < m.len() ==> #[trigger] m[i][i] == 0
}

/// The table entry between the points at positions `i` and `j` of `t`.
pub open spec fn dist_at(m: Seq<Seq<u64>>, t: Seq<usize>, i: int, j: int) -> int {
    m[t[i] as int][t[j] as int] as int
}

/// The cyclic successor of position `i` in a tour of length `len`.
pub open spec fn nxt(len: int, i: int) -> int {
    if i + 1 < len {
        i + 1
    } else {
        0
    }
}

/// Sum of the distances along consecutive elements of `t` (no closing edge).
pub open spec fn path_sum(m: Seq<Seq<u64>>, t: Seq<usize>) -> int
    decreases t.len(),
{
    if t.len() <= 1 {
        0
    } else {
        m[t[0] as int][t[1] as int] + path_sum(m, t.drop_first())
    }
}

/// Total cyclic length of tour `t`: the consecutive edges plus the edge
/// closing the cycle from the last element back to the first.
pub open spec fn tour_cost(m: Seq<Seq<u64>>, t: Seq<usize>) -> int {
    if t.len() == 0 {
        0
    } else {
        path_sum(m, t) + m[t.last() as int][t[0] as int]
    }
}

pub proof fn lemma_path_sum_nonneg(m: Seq<Seq<u64>>, t: Seq<usize>)
    ensures
        path_sum(m, t) >= 0,
    decreases t.len(),
{
    if t.len() > 1 {
        lemma_path_sum_nonneg(m, t.drop_first());
    }
}

pub proof fn lemma_tour_cost_nonneg(m: Seq<Seq<u64>>, t: Seq<usize>)
    ensures
        tour_cost(m, t) >= 0,
{
    lemma_path_sum_nonneg(m, t);
}

/// Appending one element extends the path sum by one edge.
pub proof fn lemma_path_sum_push(m: Seq<Seq<u64>>, s: Seq<usize>, x: usize)
    ensures
        path_sum(m, s.push(x)) == path_sum(m, s) + if s.len() > 0 {
            m[s.last() as int][x as int] as int
        } else {
            0
        },
    decreases s.len(),
{
    if s.len() == 0 {
        assert(s.push(x).len() == 1);
    } else {
        assert(s.push(x).drop_first() =~= s.drop_first().push(x));
        lemma_path_sum_push(m, s.drop_first(), x);
        if s.len() == 1 {
            assert(path_sum(m, s.drop_first().push(x)) == 0);
        }
    }
}

/// Path sums add over concatenation, with one bridging edge where both
/// parts are nonempty.
pub proof fn lemma_path_sum_concat(m: Seq<Seq<u64>>, s: Seq<usize>, u: Seq<usize>)
    ensures
        path_sum(m, s + u) == path_sum(m, s) + path_sum(m, u) + if s.len() > 0 && u.len() > 0 {
            m[s.last() as int][u[0] as int] as int
        } else {
            0
        },
    decreases s.len(),
{
    if s.len() == 0 {
        assert(s + u =~= u);
    } else if u.len() == 0 {
        assert(s + u =~= s);
    } else if s.len() == 1 {
        assert((s + u).drop_first() =~= u);
        assert((s + u)[0] == s[0]);
        assert((s + u)[1] == u[0]);
    } else {
        assert((s + u).drop_first() =~= s.drop_first() + u);
        lemma_path_sum_concat(m, s.drop_first(), u);
        assert(s.drop_first().last() == s.last());
        assert((s + u)[0] == s[0]);
        assert((s + u)[1] == s[1]);
    }
}

/// With a symmetric table, reversing a path leaves its sum unchanged.
pub proof fn lemma_path_sum_reverse(m: Seq<Seq<u64>>, s: Seq<usize>)
    requires
        matrix_wf(m),
        in_range(s, m.len() as nat),
    ensures
        path_sum(m, s.reverse()) == path_sum(m, s),
    decreases s.len(),
{
    if s.len() <= 1 {
        if s.len() == 0 {
            assert(s.reverse() =~= s);
        } else {
            assert(s.reverse() =~= s);
        }
    } else {
        let r = s.reverse();
        let d = s.drop_last();
        assert(r.drop_first() =~= d.reverse());
        assert(in_range(d, m.len() as nat));
        lemma_path_sum_reverse(m, d);
        assert(s =~= d.push(s.last()));
        lemma_path_sum_push(m, d, s.last());
        assert(r[0] == s[s.len() - 1]);
        assert(r[1] == s[s.len() - 2]);
        assert(d.last() == s[s.len() - 2]);
        assert(m[s[s.len() - 1] as int][s[s.len() - 2] as int] == m[s[s.len() - 2] as int][s[
            s.len() - 1
        ] as int]);
    }
}

} // verus!
