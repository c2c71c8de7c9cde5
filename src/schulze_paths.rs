//! What the strongest-path matrix means: entry `(j, l)` is the strength of
//! the strongest path from `j` to `l` in the graph of majorities, and the
//! Schulze ranking it gives puts a Condorcet winner first.
use crate::condorcet_voting::{
    beats_all, direct_margin, is_schulze_ranking, lists, strongest_path, win_count, wins,
    BallotChoice,
};
use crate::matrix::is_square;
use vstd::math::{max, min};
use vstd::prelude::*;

verus! {

/// The strength of a path of candidates: its weakest edge.
pub open spec fn path_strength(m: Seq<Seq<u32>>, path: Seq<int>) -> int
    decreases path.len(),
{
    if path.len() <= 2 {
        direct_margin(m, path[0], path[1])
    } else {
        min(direct_margin(m, path[0], path[1]), path_strength(m, path.drop_first()))
    }
}

/// `path` leads from `j` to `l` over candidates below `n`, and each candidate
/// it passes through on the way is below `k`.
pub open spec fn is_path(path: Seq<int>, n: int, k: int, j: int, l: int) -> bool {
    &&& path.len() >= 2
    &&& path[0] == j
    &&& path.last() == l
    &&& forall|t: int| 0 <= t < path.len() ==> 0 <= #[trigger] path[t] < n
    &&& forall|t: int| 0 < t < path.len() - 1 ==> #[trigger] path[t] < k
}

/// A path followed by another that starts where the first ends is as strong
/// as the weaker of the two.
proof fn lemma_strength_concat(m: Seq<Seq<u32>>, a: Seq<int>, b: Seq<int>)
    requires
        a.len() >= 2,
        b.len() >= 2,
        a.last() == b[0],
    ensures
        path_strength(m, a + b.drop_first()) == min(path_strength(m, a), path_strength(m, b)),
    decreases a.len(),
{
    let c = a + b.drop_first();
    if a.len() == 2 {
        assert(c.drop_first() =~= b);
    } else {
        assert(c.drop_first() =~= a.drop_first() + b.drop_first());
        lemma_strength_concat(m, a.drop_first(), b);
    }
}

/// Joining a path from `j` to `i` and one from `i` to `l`.
proof fn lemma_join_paths(n: int, k: int, a: Seq<int>, b: Seq<int>, j: int, i: int, l: int)
    requires
        is_path(a, n, k, j, i),
        is_path(b, n, k, i, l),
        i < k,
    ensures
        is_path(a + b.drop_first(), n, k, j, l),
{
    let c = a + b.drop_first();
    assert forall|t: int| 0 <= t < c.len() implies 0 <= #[trigger] c[t] < n by {
        if t >= a.len() {
            assert(c[t] == b[t - a.len() + 1]);
        }
    }
    assert forall|t: int| 0 < t < c.len() - 1 implies #[trigger] c[t] < k by {
        if t >= a.len() {
            assert(c[t] == b[t - a.len() + 1]);
        }
    }
}

/// Some path from `j` to `l` through candidates below `k` is at least as
/// strong as `strongest_path(m, k, j, l)`.
pub proof fn lemma_path_attains(m: Seq<Seq<u32>>, n: nat, k: nat, j: int, l: int) -> (path: Seq<int>)
    requires
        is_square(m, n),
        k <= n,
        0 <= j < n,
        0 <= l < n,
        j != l,
    ensures
        is_path(path, n as int, k as int, j, l),
        path_strength(m, path) >= strongest_path(m, k, j, l),
    decreases k,
{
    if k == 0 {
        seq![j, l]
    } else {
        let i = k - 1;
        let prev = lemma_path_attains(m, n, (k - 1) as nat, j, l);
        if i == j || i == l || strongest_path(m, (k - 1) as nat, j, l) >= min(
            strongest_path(m, (k - 1) as nat, j, i),
            strongest_path(m, (k - 1) as nat, i, l),
        ) {
            prev
        } else {
            let first = lemma_path_attains(m, n, (k - 1) as nat, j, i);
            let second = lemma_path_attains(m, n, (k - 1) as nat, i, l);
            lemma_strength_concat(m, first, second);
            lemma_join_paths(n as int, k as int, first, second, j, i, l);
            first + second.drop_first()
        }
    }
}

/// No path from `j` to `l` through candidates below `k` is stronger than
/// `strongest_path(m, k, j, l)`.
pub proof fn lemma_no_stronger_path(m: Seq<Seq<u32>>, n: nat, k: nat, j: int, l: int, path: Seq<int>)
    requires
        is_square(m, n),
        k <= n,
        j != l,
        is_path(path, n as int, k as int, j, l),
    ensures
        path_strength(m, path) <= strongest_path(m, k, j, l),
    decreases k, path.len(),
{
    if k == 0 {
        if path.len() > 2 {
            assert(path[1] < 0);
        }
    } else {
        let i = k - 1;
        if exists|t: int| 0 < t < path.len() - 1 && path[t] == i {
            let t = choose|t: int| 0 < t < path.len() - 1 && path[t] == i;
            let prefix = path.subrange(0, t + 1);
            let suffix = path.subrange(t, path.len() as int);
            assert(path =~= prefix + suffix.drop_first());
            lemma_strength_concat(m, prefix, suffix);
            assert(is_path(suffix, n as int, k as int, i, l)) by {
                assert forall|s: int| 0 < s < suffix.len() - 1 implies #[trigger] suffix[s] < k by {
                    assert(suffix[s] == path[s + t]);
                }
            }
            assert(is_path(prefix, n as int, k as int, j, i));
            if j == i {
                lemma_no_stronger_path(m, n, k, i, l, suffix);
            } else if l == i {
                lemma_no_stronger_path(m, n, k, j, i, prefix);
            } else {
                lemma_no_stronger_path(m, n, k, i, l, suffix);
                lemma_no_stronger_path(m, n, k, j, i, prefix);
            }
        } else {
            assert(is_path(path, n as int, (k - 1) as int, j, l));
            lemma_no_stronger_path(m, n, (k - 1) as nat, j, l, path);
        }
    }
}

/// The strongest-path matrix satisfies `p[j][l] >= min(p[j][i], p[i][l])`
/// for every three distinct candidates `i`, `j` and `l`.
pub proof fn lemma_path_matrix_fixpoint(m: Seq<Seq<u32>>, p: Seq<Seq<u32>>, i: int, j: int, l: int)
    requires
        is_square(m, m.len()),
        is_square(p, m.len()),
        forall|a: int, b: int|
            0 <= a < m.len() && 0 <= b < m.len() ==> #[trigger] p[a][b] == strongest_path(
                m,
                m.len(),
                a,
                b,
            ),
        0 <= i < m.len(),
        0 <= j < m.len(),
        0 <= l < m.len(),
        i != j,
        j != l,
        i != l,
    ensures
        p[j][l] >= min(p[j][i] as int, p[i][l] as int),
{
    let n = m.len();
    let first = lemma_path_attains(m, n, n, j, i);
    let second = lemma_path_attains(m, n, n, i, l);
    lemma_strength_concat(m, first, second);
    lemma_join_paths(n as int, n as int, first, second, j, i, l);
    lemma_no_stronger_path(m, n, n, j, l, first + second.drop_first());
}

/// A path never weakens the direct edge.
proof fn lemma_at_least_direct(m: Seq<Seq<u32>>, k: nat, j: int, l: int)
    ensures
        strongest_path(m, k, j, l) >= direct_margin(m, j, l),
    decreases k,
{
    if k > 0 {
        lemma_at_least_direct(m, (k - 1) as nat, j, l);
    }
}

/// Every path into a Condorcet winner has strength 0.
proof fn lemma_no_path_into_winner(m: Seq<Seq<u32>>, k: nat, j: int, w: int)
    requires
        is_square(m, m.len()),
        0 <= j < m.len(),
        0 <= w < m.len(),
        k <= m.len(),
        j != w,
        beats_all(m, w),
    ensures
        strongest_path(m, k, j, w) == 0,
    decreases k,
{
    if k == 0 {
        assert(m[w][j] > m[j][w]);
    } else {
        let i = k - 1;
        lemma_no_path_into_winner(m, (k - 1) as nat, j, w);
        if i != j && i != w {
            lemma_no_path_into_winner(m, (k - 1) as nat, i, w);
        }
    }
}

proof fn lemma_win_count_all(p: Seq<Seq<u32>>, w: int, k: int)
    requires
        0 <= k <= p.len(),
        forall|o: int| 0 <= o < p.len() && o != w ==> #[trigger] p[w][o] > p[o][w],
    ensures
        win_count(p, w, k) == k - (if 0 <= w < k { 1int } else { 0int }),
    decreases k,
{
    if k > 0 {
        lemma_win_count_all(p, w, k - 1);
    }
}

proof fn lemma_win_count_misses(p: Seq<Seq<u32>>, c: int, w: int, k: int)
    requires
        0 <= k,
        c != w,
        !(p[c][w] > p[w][c]),
    ensures
        win_count(p, c, k) <= k - (if 0 <= c < k { 1int } else { 0int }) - (if 0 <= w < k {
            1int
        } else {
            0int
        }),
    decreases k,
{
    if k > 0 {
        lemma_win_count_misses(p, c, w, k - 1);
    }
}

/// Where a candidate beats every other one head to head, the Schulze
/// ranking of the same aggregate matrix puts that candidate first, with
/// strictly more wins than any other.
pub proof fn lemma_schulze_elects_condorcet_winner(
    m: Seq<Seq<u32>>,
    p: Seq<Seq<u32>>,
    ranking: Seq<(BallotChoice, u32)>,
    w: int,
)
    requires
        is_square(m, m.len()),
        is_square(p, m.len()),
        forall|a: int, b: int|
            0 <= a < m.len() && 0 <= b < m.len() ==> #[trigger] p[a][b] == strongest_path(
                m,
                m.len(),
                a,
                b,
            ),
        is_schulze_ranking(ranking, p),
        0 <= w < m.len(),
        beats_all(m, w),
    ensures
        forall|c: int| 0 <= c < m.len() && c != w ==> #[trigger] wins(p, c) < wins(p, w),
        ranking.len() > 0,
        ranking[0].0 == w,
{
    let n = m.len();
    assert forall|o: int| 0 <= o < n && o != w implies #[trigger] p[w][o] > p[o][w] by {
        lemma_no_path_into_winner(m, n, o, w);
        lemma_at_least_direct(m, n, w, o);
        assert(m[w][o] > m[o][w]);
    }
    lemma_win_count_all(p, w, n as int);
    assert forall|c: int| 0 <= c < n && c != w implies #[trigger] wins(p, c) < wins(p, w) by {
        assert(p[w][c] > p[c][w]);
        lemma_win_count_misses(p, c, w, n as int);
    }
    assert(lists(ranking, w));
    let kw = choose|k: int| 0 <= k < ranking.len() && #[trigger] ranking[k].0 == w;
    if ranking[0].0 != w {
        let c = ranking[0].0 as int;
        assert(0 < kw);
        assert(ranking[0].1 == wins(p, c));
        assert(ranking[kw].1 == wins(p, w));
        assert(wins(p, c) < wins(p, w));
    }
}

} // verus!
