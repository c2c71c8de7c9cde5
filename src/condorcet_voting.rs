//! Condorcet voting over ranked ballots, with the Schulze method as the
//! fallback when no candidate beats every other one head to head.
use crate::matrix::{is_square, SquareMatrix};
use vstd::math::{max, min};
use vstd::prelude::*;

verus! {

/// A candidate, numbered from 0.
pub type BallotChoice = u32;

/// A ranking of all candidates, most preferred first.
pub type Ballot = Vec<BallotChoice>;

/// Position `p` of ballot `b` is out of range or repeats an earlier entry.
pub open spec fn fault_at(b: Seq<u32>, p: int) -> bool {
    b[p] >= b.len() || exists|q: int| 0 <= q < p && b[q] == b[p]
}

/// `b` ranks each of `0 .. b.len()` exactly once.
pub open spec fn is_permutation(b: Seq<u32>) -> bool {
    forall|p: int| 0 <= p < b.len() ==> !#[trigger] fault_at(b, p)
}

/// Ballot `b` places candidate `i` ahead of candidate `j`.
pub open spec fn outranks(b: Seq<u32>, i: int, j: int) -> bool {
    exists|p: int, q: int| 0 <= p < q < b.len() && b[p] == i && b[q] == j
}

/// 1 where ballot `b` places `i` ahead of `j`, else 0.
pub open spec fn preference(b: Seq<u32>, i: int, j: int) -> int {
    if outranks(b, i, j) {
        1
    } else {
        0
    }
}

/// `m` is the outranking matrix of ballot `b`.
pub open spec fn is_outranking_of(m: Seq<Seq<u32>>, b: Seq<u32>) -> bool {
    &&& is_square(m, b.len())
    &&& forall|i: int, j: int|
        0 <= i < b.len() && 0 <= j < b.len() ==> #[trigger] m[i][j] == preference(b, i, j)
}

/// What is wrong with a ballot.
#[derive(Debug, Clone, Copy, PartialEq, Eq)]
pub enum FaultKind {
    /// A candidate number is not below the number of candidates.
    OutOfRange,
    /// A candidate is ranked twice.
    Duplicate,
}

/// The first position of a ballot at which it stops being a permutation.
#[derive(Debug, Clone, Copy, PartialEq, Eq)]
pub struct BallotFault {
    pub kind: FaultKind,
    pub position: usize,
}

/// `f` names the first faulty position of `b`.
pub open spec fn is_first_fault(b: Seq<u32>, f: BallotFault) -> bool {
    &&& f.position < b.len()
    &&& fault_at(b, f.position as int)
    &&& forall|p: int| 0 <= p < f.position ==> !#[trigger] fault_at(b, p)
    &&& (f.kind == FaultKind::OutOfRange <==> b[f.position as int] >= b.len())
}

/// Every candidate below `b.len()` stands somewhere on a permutation `b`.
pub proof fn lemma_permutation_ranks_all(b: Seq<u32>, c: int)
    requires
        is_permutation(b),
        0 <= c < b.len(),
    ensures
        exists|p: int| 0 <= p < b.len() && b[p] == c,
{
    let bi = b.map_values(|x: u32| x as int);
    assert forall|p: int, q: int| 0 <= p < bi.len() && 0 <= q < bi.len() && p != q implies bi[p]
        != bi[q] by {
        if p < q {
            assert(!fault_at(b, q));
        } else {
            assert(!fault_at(b, p));
        }
    }
    assert(bi.no_duplicates());
    bi.unique_seq_to_set();
    let range = vstd::set_lib::set_int_range(0, b.len() as int);
    vstd::set_lib::lemma_int_range(0, b.len() as int);
    assert forall|x: int| bi.to_set().contains(x) implies range.contains(x) by {
        let p = choose|p: int| 0 <= p < bi.len() && bi[p] == x;
        assert(!fault_at(b, p));
    }
    vstd::set_lib::lemma_subset_equality(bi.to_set(), range);
    assert(range.contains(c));
    assert(bi.to_set().contains(c));
    let p = choose|p: int| 0 <= p < bi.len() && bi[p] == c;
    assert(b[p] == c);
}

/// Encodes one ballot as its outranking matrix: entry `(i, j)` is 1 where
/// the ballot ranks `i` ahead of `j`, else 0. A ballot that is not a
/// permutation of `0 .. ballot.len()` is refused, with its first faulty
/// position.
pub fn ballot_to_outranking_matrix(ballot: &Ballot) -> (r: Result<SquareMatrix, BallotFault>)
    ensures
        r is Ok <==> is_permutation(ballot@),
        r matches Ok(m) ==> is_outranking_of(m@, ballot@),
        r matches Err(f) ==> is_first_fault(ballot@, f),
{
    let n = ballot.len();
    let mut position: Vec<usize> = Vec::new();
    let mut c: usize = 0;
    while c < n
        invariant
            c <= n,
            position@.len() == c,
            forall|k: int| 0 <= k < c ==> position@[k] == n,
        decreases n - c,
    {
        position.push(n);
        c = c + 1;
    }
    let mut rank: usize = 0;
    while rank < n
        invariant
            n == ballot@.len(),
            rank <= n,
            position@.len() == n,
            forall|p: int| 0 <= p < rank ==> !#[trigger] fault_at(ballot@, p),
            forall|k: int|
                0 <= k < n ==> {
                    ||| (#[trigger] position@[k] < rank && ballot@[position@[k] as int] == k)
                    ||| (position@[k] == n && forall|q: int| 0 <= q < rank ==> ballot@[q] != k)
                },
        decreases n - rank,
    {
        let candidate = ballot[rank];
        if candidate as usize >= n {
            assert(fault_at(ballot@, rank as int));
            return Err(BallotFault { kind: FaultKind::OutOfRange, position: rank });
        }
        if position[candidate as usize] != n {
            let earlier = position[candidate as usize];
            assert(ballot@[earlier as int] == ballot@[rank as int]);
            assert(fault_at(ballot@, rank as int));
            return Err(BallotFault { kind: FaultKind::Duplicate, position: rank });
        }
        assert(!fault_at(ballot@, rank as int));
        position.set(candidate as usize, rank);
        rank = rank + 1;
    }
    assert forall|k: int| 0 <= k < n implies #[trigger] position@[k] < n && ballot@[
        position@[k] as int] == k by {
        lemma_permutation_ranks_all(ballot@, k);
    }
    let mut m = SquareMatrix::zeros(n);
    let mut runner: usize = 0;
    while runner < n
        invariant
            n == ballot@.len(),
            is_permutation(ballot@),
            runner <= n,
            position@.len() == n,
            forall|k: int| 0 <= k < n ==> #[trigger] position@[k] < n && ballot@[position@[k] as int] == k,
            is_square(m@, n as nat),
            forall|i: int, j: int|
                0 <= i < runner && 0 <= j < n ==> #[trigger] m@[i][j] == preference(ballot@, i, j),
            forall|i: int, j: int| runner <= i < n && 0 <= j < n ==> #[trigger] m@[i][j] == 0,
        decreases n - runner,
    {
        let mut opponent: usize = 0;
        while opponent < n
            invariant
                n == ballot@.len(),
                is_permutation(ballot@),
                runner < n,
                opponent <= n,
                position@.len() == n,
                forall|k: int|
                    0 <= k < n ==> #[trigger] position@[k] < n && ballot@[position@[k] as int] == k,
                is_square(m@, n as nat),
                forall|i: int, j: int|
                    0 <= i < runner && 0 <= j < n ==> #[trigger] m@[i][j] == preference(ballot@, i, j),
                forall|j: int| 0 <= j < opponent ==> #[trigger] m@[runner as int][j] == preference(ballot@, runner as int, j),
                forall|i: int, j: int|
                    runner <= i < n && 0 <= j < n && !(i == runner && j < opponent) ==> #[trigger] m@[i][j] == 0,
            decreases n - opponent,
        {
            let pr = position[runner];
            let po = position[opponent];
            proof {
                let b = ballot@;
                let (i, j) = (runner as int, opponent as int);
                if outranks(b, i, j) {
                    let (p, q) = choose|p: int, q: int| 0 <= p < q < b.len() && b[p] == i && b[q] == j;
                    if p != pr as int {
                        if p < pr { assert(!fault_at(b, pr as int)); } else { assert(!fault_at(b, p)); }
                    }
                    if q != po as int {
                        if q < po { assert(!fault_at(b, po as int)); } else { assert(!fault_at(b, q)); }
                    }
                } else if pr < po {
                    assert(b[pr as int] == i && b[po as int] == j);
                }
            }
            if pr < po {
                m.set(runner, opponent, 1);
            }
            opponent = opponent + 1;
        }
        runner = runner + 1;
    }
    Ok(m)
}

/// The views of a sequence of matrices.
pub open spec fn matrix_views(ms: Seq<SquareMatrix>) -> Seq<Seq<Seq<u32>>> {
    ms.map_values(|m: SquareMatrix| m@)
}

/// Entry `(i, j)` summed over the matrices `ms`.
pub open spec fn entry_total(ms: Seq<Seq<Seq<u32>>>, i: int, j: int) -> int
    decreases ms.len(),
{
    if ms.len() == 0 {
        0
    } else {
        entry_total(ms.drop_last(), i, j) + ms.last()[i][j]
    }
}

/// The number of ballots that rank `i` ahead of `j`.
pub open spec fn tally(ballots: Seq<Seq<u32>>, i: int, j: int) -> int
    decreases ballots.len(),
{
    if ballots.len() == 0 {
        0
    } else {
        tally(ballots.drop_last(), i, j) + preference(ballots.last(), i, j)
    }
}

/// A sum over a prefix of the matrices is at most the sum over all of them.
proof fn lemma_entry_total_prefix(ms: Seq<Seq<Seq<u32>>>, k: int, i: int, j: int)
    requires
        0 <= k <= ms.len(),
    ensures
        entry_total(ms.take(k), i, j) <= entry_total(ms, i, j),
    decreases ms.len(),
{
    if k == ms.len() {
        assert(ms.take(k) =~= ms);
    } else {
        assert(ms.drop_last().take(k) =~= ms.take(k));
        lemma_entry_total_prefix(ms.drop_last(), k, i, j);
    }
}

/// Sums the matrices entry by entry: the aggregate outranking matrix of a
/// round, when each of `matrices` is the outranking matrix of one ballot.
pub fn aggregate_outranking(matrices: &Vec<SquareMatrix>, n: usize) -> (r: SquareMatrix)
    requires
        forall|k: int| 0 <= k < matrices@.len() ==> is_square(#[trigger] matrices@[k]@, n as nat),
        forall|i: int, j: int|
            0 <= i < n && 0 <= j < n ==> #[trigger] entry_total(matrix_views(matrices@), i, j)
                <= u32::MAX,
    ensures
        is_square(r@, n as nat),
        forall|i: int, j: int|
            0 <= i < n && 0 <= j < n ==> #[trigger] r@[i][j] == entry_total(
                matrix_views(matrices@),
                i,
                j,
            ),
{
    let ghost views = matrix_views(matrices@);
    let mut total = SquareMatrix::zeros(n);
    let mut k: usize = 0;
    while k < matrices.len()
        invariant
            views == matrix_views(matrices@),
            k <= matrices@.len(),
            forall|t: int| 0 <= t < matrices@.len() ==> is_square(#[trigger] matrices@[t]@, n as nat),
            forall|i: int, j: int|
                0 <= i < n && 0 <= j < n ==> #[trigger] entry_total(views, i, j) <= u32::MAX,
            is_square(total@, n as nat),
            forall|i: int, j: int|
                0 <= i < n && 0 <= j < n ==> #[trigger] total@[i][j] == entry_total(
                    views.take(k as int),
                    i,
                    j,
                ),
        decreases matrices@.len() - k,
    {
        proof {
            assert(views.take(k + 1).drop_last() =~= views.take(k as int));
            assert(is_square(matrices@[k as int]@, n as nat));
            assert forall|i: int, j: int| 0 <= i < n && 0 <= j < n implies #[trigger] total@[i][j]
                + matrices@[k as int]@[i][j] <= u32::MAX && entry_total(views.take(k + 1), i, j)
                == total@[i][j] + matrices@[k as int]@[i][j] by {
                lemma_entry_total_prefix(views, k + 1, i, j);
            }
        }
        total = total.sum(&matrices[k], n);
        k = k + 1;
    }
    assert(views.take(k as int) =~= views);
    total
}

/// Candidate `r` has more votes than each other candidate, head to head.
pub open spec fn beats_all(m: Seq<Seq<u32>>, r: int) -> bool {
    forall|o: int| 0 <= o < m.len() && o != r ==> #[trigger] m[r][o] > m[o][r]
}

/// Finds the candidate that beats every other one head to head in the
/// aggregate matrix, if there is one.
pub fn condorcet_winner(overall_matrix: &SquareMatrix) -> (r: Option<BallotChoice>)
    requires
        is_square(overall_matrix@, overall_matrix@.len()),
        overall_matrix@.len() <= u32::MAX,
    ensures
        r matches Some(w) ==> w < overall_matrix@.len() && beats_all(overall_matrix@, w as int),
        r is None ==> forall|x: int|
            0 <= x < overall_matrix@.len() ==> !#[trigger] beats_all(overall_matrix@, x),
{
    let ghost m = overall_matrix@;
    let num_candidates = overall_matrix.nrows();
    let mut runner: usize = 0;
    while runner < num_candidates
        invariant
            m == overall_matrix@,
            num_candidates == m.len(),
            is_square(m, m.len()),
            m.len() <= u32::MAX,
            runner <= num_candidates,
            forall|x: int| 0 <= x < runner ==> !#[trigger] beats_all(m, x),
        decreases num_candidates - runner,
    {
        let mut runner_failed = false;
        let mut opponent: usize = 0;
        while opponent < num_candidates
            invariant
                m == overall_matrix@,
                num_candidates == m.len(),
                is_square(m, m.len()),
                runner < num_candidates,
                opponent <= num_candidates,
                runner_failed ==> !beats_all(m, runner as int),
                !runner_failed ==> forall|o: int|
                    0 <= o < opponent && o != runner ==> #[trigger] m[runner as int][o] > m[o][runner as int],
            decreases num_candidates - opponent,
        {
            if runner != opponent && overall_matrix.get(runner, opponent) <= overall_matrix.get(
                opponent,
                runner,
            ) {
                runner_failed = true;
            }
            opponent = opponent + 1;
        }
        if !runner_failed {
            return Some(runner as u32);
        }
        runner = runner + 1;
    }
    None
}

/// The weight of the edge from `i` to `j`: the votes for `i` over `j` where
/// they are the majority, else 0.
pub open spec fn direct_margin(m: Seq<Seq<u32>>, i: int, j: int) -> int {
    if m[i][j] > m[j][i] {
        m[i][j] as int
    } else {
        0
    }
}

/// Strength of the strongest path from `j` to `l` whose intermediate
/// candidates are all below `k`; a path's strength is its weakest edge.
/// The diagonal stays 0.
pub open spec fn strongest_path(m: Seq<Seq<u32>>, k: nat, j: int, l: int) -> int
    decreases k,
{
    if k == 0 {
        direct_margin(m, j, l)
    } else {
        let i = k - 1;
        let prev = strongest_path(m, (k - 1) as nat, j, l);
        if i == j || i == l || j == l {
            prev
        } else {
            max(
                prev,
                min(strongest_path(m, (k - 1) as nat, j, i), strongest_path(m, (k - 1) as nat, i, l)),
            )
        }
    }
}

/// Computes the strongest-path matrix of the aggregate matrix: entry
/// `(j, l)` is the strength of the strongest path from `j` to `l`.
pub fn schulze_path_matrix(overall_matrix: &SquareMatrix) -> (p: SquareMatrix)
    requires
        is_square(overall_matrix@, overall_matrix@.len()),
    ensures
        is_square(p@, overall_matrix@.len()),
        forall|j: int, l: int|
            0 <= j < overall_matrix@.len() && 0 <= l < overall_matrix@.len() ==> #[trigger] p@[j][l]
                == strongest_path(overall_matrix@, overall_matrix@.len(), j, l),
{
    let ghost m = overall_matrix@;
    let n = overall_matrix.nrows();
    let mut p = SquareMatrix::zeros(n);
    let mut runner: usize = 0;
    while runner < n
        invariant
            m == overall_matrix@,
            n == m.len(),
            is_square(m, n as nat),
            is_square(p@, n as nat),
            runner <= n,
            forall|j: int, l: int|
                0 <= j < runner && 0 <= l < n ==> #[trigger] p@[j][l] == direct_margin(m, j, l),
            forall|j: int, l: int| runner <= j < n && 0 <= l < n ==> #[trigger] p@[j][l] == 0,
        decreases n - runner,
    {
        let mut opponent: usize = 0;
        while opponent < n
            invariant
                m == overall_matrix@,
                n == m.len(),
                is_square(m, n as nat),
                is_square(p@, n as nat),
                runner < n,
                opponent <= n,
                forall|j: int, l: int|
                    0 <= j < runner && 0 <= l < n ==> #[trigger] p@[j][l] == direct_margin(m, j, l),
                forall|l: int|
                    0 <= l < opponent ==> #[trigger] p@[runner as int][l] == direct_margin(
                        m,
                        runner as int,
                        l,
                    ),
                forall|j: int, l: int|
                    runner <= j < n && 0 <= l < n && !(j == runner && l < opponent) ==> #[trigger] p@[j][l]
                        == 0,
            decreases n - opponent,
        {
            let forward = overall_matrix.get(runner, opponent);
            let backward = overall_matrix.get(opponent, runner);
            if forward > backward {
                p.set(runner, opponent, forward);
            }
            opponent = opponent + 1;
        }
        runner = runner + 1;
    }
    let mut i: usize = 0;
    while i < n
        invariant
            m == overall_matrix@,
            n == m.len(),
            is_square(m, n as nat),
            is_square(p@, n as nat),
            i <= n,
            forall|j: int, l: int|
                0 <= j < n && 0 <= l < n ==> #[trigger] p@[j][l] == strongest_path(m, i as nat, j, l),
        decreases n - i,
    {
        let mut j: usize = 0;
        while j < n
            invariant
                m == overall_matrix@,
                n == m.len(),
                is_square(m, n as nat),
                is_square(p@, n as nat),
                i < n,
                j <= n,
                forall|a: int, b: int|
                    0 <= a < n && 0 <= b < n ==> #[trigger] p@[a][b] == if a < j {
                        strongest_path(m, (i + 1) as nat, a, b)
                    } else {
                        strongest_path(m, i as nat, a, b)
                    },
            decreases n - j,
        {
            if i != j {
                let mut k: usize = 0;
                while k < n
                    invariant
                        m == overall_matrix@,
                        n == m.len(),
                        is_square(m, n as nat),
                        is_square(p@, n as nat),
                        i < n,
                        j < n,
                        i != j,
                        k <= n,
                        forall|a: int, b: int|
                            0 <= a < n && 0 <= b < n ==> #[trigger] p@[a][b] == if a < j || (a == j
                                && b < k) {
                                strongest_path(m, (i + 1) as nat, a, b)
                            } else {
                                strongest_path(m, i as nat, a, b)
                            },
                    decreases n - k,
                {
                    if i != k && j != k {
                        let current = p.get(j, k);
                        let first = p.get(j, i);
                        let second = p.get(i, k);
                        let via = if first < second {
                            first
                        } else {
                            second
                        };
                        let widest = if current > via {
                            current
                        } else {
                            via
                        };
                        p.set(j, k, widest);
                    }
                    proof {
                        assert(strongest_path(m, (i + 1) as nat, j as int, k as int) == if i == k
                            || j == k {
                            strongest_path(m, i as nat, j as int, k as int)
                        } else {
                            max(
                                strongest_path(m, i as nat, j as int, k as int),
                                min(
                                    strongest_path(m, i as nat, j as int, i as int),
                                    strongest_path(m, i as nat, i as int, k as int),
                                ),
                            )
                        });
                    }
                    k = k + 1;
                }
            }
            j = j + 1;
        }
        i = i + 1;
    }
    p
}

/// The number of candidates `o` below `k`, other than `r`, whose strongest
/// path from `r` is stronger than the one back.
pub open spec fn win_count(p: Seq<Seq<u32>>, r: int, k: int) -> int
    decreases k,
{
    if k <= 0 {
        0
    } else {
        win_count(p, r, k - 1) + if k - 1 != r && p[r][k - 1] > p[k - 1][r] {
            1int
        } else {
            0int
        }
    }
}

/// How many opponents candidate `r` beats on strongest paths.
pub open spec fn wins(p: Seq<Seq<u32>>, r: int) -> int {
    win_count(p, r, p.len() as int)
}

proof fn lemma_win_count_bound(p: Seq<Seq<u32>>, r: int, k: int)
    requires
        0 <= k,
    ensures
        0 <= win_count(p, r, k) <= k - (if 0 <= r < k { 1int } else { 0int }),
    decreases k,
{
    if k > 0 {
        lemma_win_count_bound(p, r, k - 1);
    }
}

/// Candidate `c` stands somewhere in `ranking`.
pub open spec fn lists(ranking: Seq<(BallotChoice, u32)>, c: int) -> bool {
    exists|k: int| 0 <= k < ranking.len() && #[trigger] ranking[k].0 == c
}

/// `ranking` lists every candidate of the path matrix `p` once, each with its
/// number of wins, by wins from most to fewest, and by candidate number
/// where the wins are equal.
pub open spec fn is_schulze_ranking(ranking: Seq<(BallotChoice, u32)>, p: Seq<Seq<u32>>) -> bool {
    &&& forall|k: int|
        0 <= k < ranking.len() ==> (#[trigger] ranking[k]).0 < p.len() && ranking[k].1 == wins(
            p,
            ranking[k].0 as int,
        )
    &&& forall|c: int| 0 <= c < p.len() ==> #[trigger] lists(ranking, c)
    &&& forall|a: int, b: int|
        0 <= a < b < ranking.len() ==> (#[trigger] ranking[a]).1 > (#[trigger] ranking[b]).1 || (
        ranking[a].1 == ranking[b].1 && ranking[a].0 < ranking[b].0)
}

/// Ranks the candidates by the Schulze method: computes the strongest-path
/// matrix, counts each candidate's wins on it, and orders the candidates by
/// wins, most first, the lower number first where the wins are equal.
/// Returns the ranking and the path matrix.
pub fn schulze_ranking(overall_matrix: &SquareMatrix) -> (r: (Vec<(BallotChoice, u32)>, SquareMatrix))
    requires
        is_square(overall_matrix@, overall_matrix@.len()),
        overall_matrix@.len() <= u32::MAX,
    ensures
        is_square(r.1@, overall_matrix@.len()),
        forall|j: int, l: int|
            0 <= j < overall_matrix@.len() && 0 <= l < overall_matrix@.len() ==> #[trigger] r.1@[j][l]
                == strongest_path(overall_matrix@, overall_matrix@.len(), j, l),
        is_schulze_ranking(r.0@, r.1@),
{
    let path_matrix = schulze_path_matrix(overall_matrix);
    let ghost p = path_matrix@;
    let num_candidates = path_matrix.nrows();
    let mut win_counts: Vec<u32> = Vec::new();
    let mut runner: usize = 0;
    while runner < num_candidates
        invariant
            p == path_matrix@,
            num_candidates == p.len(),
            is_square(p, p.len()),
            p.len() <= u32::MAX,
            runner <= num_candidates,
            win_counts@.len() == runner,
            forall|c: int| 0 <= c < runner ==> #[trigger] win_counts@[c] == wins(p, c),
        decreases num_candidates - runner,
    {
        let mut runner_wins: u32 = 0;
        let mut opponent: usize = 0;
        while opponent < num_candidates
            invariant
                p == path_matrix@,
                num_candidates == p.len(),
                is_square(p, p.len()),
                p.len() <= u32::MAX,
                runner < num_candidates,
                opponent <= num_candidates,
                runner_wins == win_count(p, runner as int, opponent as int),
            decreases num_candidates - opponent,
        {
            proof {
                lemma_win_count_bound(p, runner as int, opponent as int);
            }
            if runner != opponent && path_matrix.get(runner, opponent) > path_matrix.get(
                opponent,
                runner,
            ) {
                runner_wins = runner_wins + 1;
            }
            opponent = opponent + 1;
        }
        win_counts.push(runner_wins);
        runner = runner + 1;
    }
    proof {
        assert forall|c: int| 0 <= c < num_candidates implies #[trigger] wins(p, c)
            < num_candidates by {
            lemma_win_count_bound(p, c, num_candidates as int);
        }
    }
    let mut ranking: Vec<(BallotChoice, u32)> = Vec::new();
    let mut bucket: usize = num_candidates;
    while bucket > 0
        invariant
            p == path_matrix@,
            num_candidates == p.len(),
            p.len() <= u32::MAX,
            bucket <= num_candidates,
            win_counts@.len() == num_candidates,
            forall|c: int| 0 <= c < num_candidates ==> #[trigger] win_counts@[c] == wins(p, c),
            forall|c: int| 0 <= c < num_candidates ==> #[trigger] wins(p, c) < num_candidates,
            forall|k: int|
                0 <= k < ranking@.len() ==> (#[trigger] ranking@[k]).0 < p.len() && ranking@[k].1
                    == wins(p, ranking@[k].0 as int) && ranking@[k].1 >= bucket,
            forall|c: int|
                0 <= c < p.len() && wins(p, c) >= bucket ==> #[trigger] lists(ranking@, c),
            forall|a: int, b: int|
                0 <= a < b < ranking@.len() ==> (#[trigger] ranking@[a]).1 > (
                #[trigger] ranking@[b]).1 || (ranking@[a].1 == ranking@[b].1 && ranking@[a].0
                    < ranking@[b].0),
        decreases bucket,
    {
        bucket = bucket - 1;
        let mut candidate: usize = 0;
        while candidate < num_candidates
            invariant
                p == path_matrix@,
                num_candidates == p.len(),
                p.len() <= u32::MAX,
                bucket < num_candidates,
                candidate <= num_candidates,
                win_counts@.len() == num_candidates,
                forall|c: int| 0 <= c < num_candidates ==> #[trigger] win_counts@[c] == wins(p, c),
                forall|k: int|
                    0 <= k < ranking@.len() ==> (#[trigger] ranking@[k]).0 < p.len() && ranking@[k].1
                        == wins(p, ranking@[k].0 as int) && ranking@[k].1 >= bucket,
                forall|k: int|
                    0 <= k < ranking@.len() && (#[trigger] ranking@[k]).1 == bucket ==> ranking@[k].0
                        < candidate,
                forall|c: int|
                    0 <= c < p.len() && (wins(p, c) > bucket || (wins(p, c) == bucket && c
                        < candidate)) ==> #[trigger] lists(ranking@, c),
                forall|a: int, b: int|
                    0 <= a < b < ranking@.len() ==> (#[trigger] ranking@[a]).1 > (
                    #[trigger] ranking@[b]).1 || (ranking@[a].1 == ranking@[b].1 && ranking@[a].0
                        < ranking@[b].0),
            decreases num_candidates - candidate,
        {
            if win_counts[candidate] == bucket as u32 {
                let ghost before = ranking@;
                ranking.push((candidate as u32, bucket as u32));
                proof {
                    assert(before.len() + 1 == ranking@.len());
                    assert forall|c: int|
                        0 <= c < p.len() && (wins(p, c) > bucket || (wins(p, c) == bucket && c
                            < candidate + 1)) implies #[trigger] lists(ranking@, c) by {
                        if c == candidate {
                            assert(ranking@[before.len() as int].0 == c);
                        } else {
                            assert(lists(before, c));
                            let k = choose|k: int| 0 <= k < before.len() && #[trigger] before[k].0 == c;
                            assert(ranking@[k].0 == c);
                        }
                    }
                }
            }
            candidate = candidate + 1;
        }
    }
    proof {
        assert forall|k: int| 0 <= k < ranking@.len() implies (#[trigger] ranking@[k]).0 < p.len()
            && ranking@[k].1 == wins(p, ranking@[k].0 as int) by {}
        assert forall|c: int| 0 <= c < p.len() implies #[trigger] lists(ranking@, c) by {
            lemma_win_count_bound(p, c, num_candidates as int);
        }
    }
    (ranking, path_matrix)
}

/// On a permutation, a candidate stands at one position only.
proof fn lemma_position_unique(b: Seq<u32>, p: int, q: int)
    requires
        is_permutation(b),
        0 <= p < b.len(),
        0 <= q < b.len(),
        b[p] == b[q],
    ensures
        p == q,
{
    if p < q {
        assert(fault_at(b, q));
    } else if q < p {
        assert(fault_at(b, p));
    }
}

/// Of two distinct candidates, a ballot ranks exactly one ahead of the
/// other, and no candidate ahead of itself.
pub proof fn lemma_preference_antisymmetric(b: Seq<u32>, i: int, j: int)
    requires
        is_permutation(b),
        0 <= i < b.len(),
        0 <= j < b.len(),
    ensures
        i != j ==> preference(b, i, j) + preference(b, j, i) == 1,
        preference(b, i, i) == 0,
{
    if outranks(b, i, i) {
        let (p, q) = choose|p: int, q: int| 0 <= p < q < b.len() && b[p] == i && b[q] == i;
        lemma_position_unique(b, p, q);
    }
    if i != j {
        lemma_permutation_ranks_all(b, i);
        lemma_permutation_ranks_all(b, j);
        let pi = choose|p: int| 0 <= p < b.len() && b[p] == i;
        let pj = choose|p: int| 0 <= p < b.len() && b[p] == j;
        if outranks(b, i, j) && outranks(b, j, i) {
            let (p, q) = choose|p: int, q: int| 0 <= p < q < b.len() && b[p] == i && b[q] == j;
            let (rp, rq) = choose|p: int, q: int| 0 <= p < q < b.len() && b[p] == j && b[q] == i;
            lemma_position_unique(b, p, rq);
            lemma_position_unique(b, q, rp);
        }
        if pi < pj {
            assert(outranks(b, i, j));
        } else {
            assert(outranks(b, j, i));
        }
    }
}

/// The outranking matrix of a valid ballot holds only 0 and 1, has a zero
/// diagonal, and holds 1 at exactly one of `(i, j)` and `(j, i)` for each
/// pair of distinct candidates.
pub proof fn lemma_outranking_antisymmetric(m: Seq<Seq<u32>>, b: Seq<u32>, i: int, j: int)
    requires
        is_permutation(b),
        is_outranking_of(m, b),
        0 <= i < b.len(),
        0 <= j < b.len(),
    ensures
        m[i][j] == 0 || m[i][j] == 1,
        m[i][i] == 0,
        i != j ==> m[i][j] + m[j][i] == 1,
{
    lemma_preference_antisymmetric(b, i, j);
}

/// For distinct candidates `i` and `j`, the votes for `i` over `j` and for
/// `j` over `i` add up to the number of ballots.
pub proof fn lemma_tally_conservation(ballots: Seq<Seq<u32>>, n: int, i: int, j: int)
    requires
        all_valid(ballots, n),
        0 <= i < n,
        0 <= j < n,
        i != j,
    ensures
        tally(ballots, i, j) + tally(ballots, j, i) == ballots.len(),
    decreases ballots.len(),
{
    if ballots.len() > 0 {
        let last = ballots.len() - 1;
        assert(ballots[last].len() == n && is_permutation(ballots[last]));
        lemma_preference_antisymmetric(ballots.last(), i, j);
        assert forall|k: int| 0 <= k < ballots.drop_last().len() implies (#[trigger] ballots.drop_last()[k]).len() == n
            && is_permutation(ballots.drop_last()[k]) by {
            assert(ballots.drop_last()[k] == ballots[k]);
        }
        lemma_tally_conservation(ballots.drop_last(), n, i, j);
    }
}

/// No two candidates can both beat every other candidate head to head.
pub proof fn lemma_at_most_one_condorcet_winner(m: Seq<Seq<u32>>, a: int, b: int)
    requires
        0 <= a < m.len(),
        0 <= b < m.len(),
        beats_all(m, a),
        beats_all(m, b),
    ensures
        a == b,
{
    if a != b {
        assert(m[a][b] > m[b][a]);
        assert(m[b][a] > m[a][b]);
    }
}

/// With one ballot, the aggregate matrix is that ballot's outranking matrix,
/// and the candidate the ballot ranks first, and no other, beats every other
/// candidate head to head.
pub proof fn lemma_single_ballot(b: Seq<u32>, m: Seq<Seq<u32>>, w: int)
    requires
        is_permutation(b),
        b.len() >= 1,
        is_square(m, b.len()),
        forall|i: int, j: int|
            0 <= i < b.len() && 0 <= j < b.len() ==> #[trigger] m[i][j] == tally(seq![b], i, j),
    ensures
        forall|i: int, j: int|
            0 <= i < b.len() && 0 <= j < b.len() ==> #[trigger] m[i][j] == preference(b, i, j),
        beats_all(m, b[0] as int),
        0 <= w < b.len() && beats_all(m, w) ==> w == b[0],
{
    assert(seq![b].drop_last() =~= Seq::<Seq<u32>>::empty());
    assert(seq![b].last() == b);
    assert forall|i: int, j: int| 0 <= i < b.len() && 0 <= j < b.len() implies #[trigger] m[i][j]
        == preference(b, i, j) by {
        assert(tally(Seq::<Seq<u32>>::empty(), i, j) == 0);
    }
    assert(!fault_at(b, 0));
    let top = b[0] as int;
    assert forall|o: int| 0 <= o < m.len() && o != top implies #[trigger] m[top][o] > m[o][top] by {
        lemma_permutation_ranks_all(b, o);
        let q = choose|q: int| 0 <= q < b.len() && b[q] == o;
        assert(q != 0);
        assert(outranks(b, top, o));
        lemma_preference_antisymmetric(b, top, o);
    }
    if 0 <= w < b.len() && beats_all(m, w) {
        lemma_at_most_one_condorcet_winner(m, w, top);
    }
}

/// Removing the matrix at `k` takes its entries off the sum.
proof fn lemma_entry_total_remove(ms: Seq<Seq<Seq<u32>>>, k: int, i: int, j: int)
    requires
        0 <= k < ms.len(),
    ensures
        entry_total(ms, i, j) == entry_total(ms.remove(k), i, j) + ms[k][i][j],
    decreases ms.len(),
{
    if k == ms.len() - 1 {
        assert(ms.remove(k) =~= ms.drop_last());
    } else {
        assert(ms.remove(k).drop_last() =~= ms.drop_last().remove(k));
        assert(ms.remove(k).last() == ms.last());
        lemma_entry_total_remove(ms.drop_last(), k, i, j);
    }
}

/// Summing the same matrices in any order gives the same aggregate.
pub proof fn lemma_aggregate_order_irrelevant(
    ms1: Seq<Seq<Seq<u32>>>,
    ms2: Seq<Seq<Seq<u32>>>,
    i: int,
    j: int,
)
    requires
        ms1.to_multiset() == ms2.to_multiset(),
    ensures
        entry_total(ms1, i, j) == entry_total(ms2, i, j),
    decreases ms1.len(),
{
    broadcast use vstd::seq_lib::group_to_multiset_ensures;

    if ms1.len() == 0 {
        assert(ms2.to_multiset().len() == 0);
    } else {
        let x = ms1.last();
        assert(ms1.drop_last().push(x) =~= ms1);
        assert(ms1.to_multiset() == ms1.drop_last().to_multiset().insert(x));
        assert(ms2.to_multiset().count(x) > 0);
        assert(ms2.contains(x));
        let k = choose|k: int| 0 <= k < ms2.len() && ms2[k] == x;
        assert(ms2.remove(k).to_multiset() == ms2.to_multiset().remove(x));
        assert(ms1.drop_last().to_multiset() =~= ms2.remove(k).to_multiset());
        lemma_aggregate_order_irrelevant(ms1.drop_last(), ms2.remove(k), i, j);
        lemma_entry_total_remove(ms2, k, i, j);
    }
}

/// How the winner of a round was found.
#[derive(Debug, Clone, Copy, PartialEq, Eq)]
pub enum WinType {
    /// The winner beats every other candidate head to head.
    CondorcetWinner,
    /// No candidate does; the winner heads the Schulze ranking.
    SchulzeRanking,
}

/// The outcome of a round, with what it was computed from.
#[derive(Debug, PartialEq)]
pub struct VoteBreakdown {
    pub winner: Option<BallotChoice>,
    pub win_type: Option<WinType>,
    pub ballots: Vec<Ballot>,
    pub ballot_outranking: Vec<SquareMatrix>,
    pub final_outranking: SquareMatrix,
    pub schulze_result: Option<(Vec<(BallotChoice, u32)>, SquareMatrix)>,
}

/// Why a round could not be counted.
#[derive(Debug, PartialEq, Eq)]
pub enum VoteError {
    /// There was no ballot.
    NoBallots,
    /// The ballot at `ballot_index` does not rank as many candidates as the
    /// round has.
    WrongLength { ballot_index: usize, ballot: Ballot },
    /// The ballot at `ballot_index` is not a permutation of the candidates.
    InvalidBallot { ballot_index: usize, ballot: Ballot, fault: BallotFault },
}

/// The views of a sequence of ballots.
pub open spec fn ballot_views(ballots: Seq<Ballot>) -> Seq<Seq<u32>> {
    ballots.map_values(|b: Ballot| b@)
}

/// Ballot `i` is the first whose length is not `n`.
pub open spec fn is_first_wrong_length(ballots: Seq<Seq<u32>>, n: int, i: int) -> bool {
    &&& 0 <= i < ballots.len()
    &&& ballots[i].len() != n
    &&& forall|k: int| 0 <= k < i ==> (#[trigger] ballots[k]).len() == n
}

/// Ballot `i` is the first that is not a permutation, all being of length `n`.
pub open spec fn is_first_invalid(ballots: Seq<Seq<u32>>, n: int, i: int) -> bool {
    &&& 0 <= i < ballots.len()
    &&& forall|k: int| 0 <= k < ballots.len() ==> (#[trigger] ballots[k]).len() == n
    &&& !is_permutation(ballots[i])
    &&& forall|k: int| 0 <= k < i ==> is_permutation(#[trigger] ballots[k])
}

/// Every ballot is a permutation of `0 .. n`.
pub open spec fn all_valid(ballots: Seq<Seq<u32>>, n: int) -> bool {
    forall|k: int|
        0 <= k < ballots.len() ==> (#[trigger] ballots[k]).len() == n && is_permutation(ballots[k])
}

proof fn lemma_tally_bound(ballots: Seq<Seq<u32>>, i: int, j: int)
    ensures
        0 <= tally(ballots, i, j) <= ballots.len(),
    decreases ballots.len(),
{
    if ballots.len() > 0 {
        lemma_tally_bound(ballots.drop_last(), i, j);
    }
}

/// Summing the outranking matrices of the ballots counts, for each pair, the
/// ballots that rank the first ahead of the second.
proof fn lemma_entry_total_is_tally(views: Seq<Seq<Seq<u32>>>, ballots: Seq<Seq<u32>>, n: int, i: int, j: int)
    requires
        views.len() == ballots.len(),
        forall|k: int| 0 <= k < ballots.len() ==> (#[trigger] ballots[k]).len() == n,
        forall|k: int| 0 <= k < views.len() ==> is_outranking_of(#[trigger] views[k], ballots[k]),
        0 <= i < n,
        0 <= j < n,
    ensures
        entry_total(views, i, j) == tally(ballots, i, j),
    decreases views.len(),
{
    if views.len() > 0 {
        let last = views.len() - 1;
        assert(is_outranking_of(views[last], ballots[last]));
        assert(ballots[last].len() == n);
        lemma_entry_total_is_tally(views.drop_last(), ballots.drop_last(), n, i, j);
    }
}

/// `v` counts the round of valid ballots `bs` over `n` candidates: it holds
/// each ballot's outranking matrix and their sum; where a candidate beats
/// every other one head to head, that candidate wins; else the Schulze
/// ranking and path matrix are given, and the head of the ranking wins.
pub open spec fn is_round_count(v: VoteBreakdown, bs: Seq<Seq<u32>>, n: int) -> bool {
    &&& v.ballot_outranking@.len() == bs.len()
    &&& forall|k: int|
        0 <= k < bs.len() ==> is_outranking_of((#[trigger] v.ballot_outranking@[k])@, bs[k])
    &&& is_square(v.final_outranking@, n as nat)
    &&& forall|i: int, j: int|
        0 <= i < n && 0 <= j < n ==> #[trigger] v.final_outranking@[i][j] == tally(bs, i, j)
    &&& v.win_type is Some
    &&& (v.win_type == Some(WinType::CondorcetWinner) <==> exists|w: int|
        0 <= w < n && #[trigger] beats_all(v.final_outranking@, w))
    &&& (v.win_type == Some(WinType::CondorcetWinner) ==> {
        &&& v.winner matches Some(w)
        &&& w < n && beats_all(v.final_outranking@, w as int)
        &&& v.schulze_result is None
    })
    &&& (v.win_type == Some(WinType::SchulzeRanking) ==> {
        &&& v.schulze_result matches Some(sr)
        &&& is_square(sr.1@, n as nat)
        &&& forall|j: int, l: int|
            0 <= j < n && 0 <= l < n ==> #[trigger] sr.1@[j][l] == strongest_path(
                v.final_outranking@,
                n as nat,
                j,
                l,
            )
        &&& is_schulze_ranking(sr.0@, sr.1@)
        &&& v.winner == if n > 0 {
            Some(sr.0@[0].0)
        } else {
            None
        }
    })
}

/// A round of one valid ballot is won, head to head, by the candidate that
/// ballot ranks first, and its aggregate matrix is that ballot's outranking
/// matrix.
pub proof fn lemma_single_ballot_round(b: Seq<u32>, v: VoteBreakdown)
    requires
        is_permutation(b),
        b.len() >= 1,
        is_round_count(v, seq![b], b.len() as int),
    ensures
        v.win_type == Some(WinType::CondorcetWinner),
        v.winner == Some(b[0]),
        forall|i: int, j: int|
            0 <= i < b.len() && 0 <= j < b.len() ==> #[trigger] v.final_outranking@[i][j]
                == preference(b, i, j),
{
    let m = v.final_outranking@;
    lemma_single_ballot(b, m, 0);
    assert(!fault_at(b, 0));
    assert(beats_all(m, b[0] as int));
    let w = v.winner->Some_0;
    lemma_single_ballot(b, m, w as int);
}

/// Counts a round: checks that there is a ballot and that each ranks
/// `num_choices` candidates, encodes each ballot, and sums them. The
/// candidate that beats every other one head to head wins; where there is
/// none, the head of the Schulze ranking wins.
#[verifier::spinoff_prover]
#[verifier::rlimit(30)]
pub fn vote(num_choices: u32, ballots: Vec<Ballot>) -> (r: Result<VoteBreakdown, VoteError>)
    requires
        ballots@.len() <= u32::MAX,
    ensures
        ({
            let bs = ballot_views(ballots@);
            let n = num_choices as int;
            &&& (r matches Err(VoteError::NoBallots) <==> bs.len() == 0)
            &&& (r matches Err(VoteError::WrongLength { ballot_index, ballot }) ==> {
                &&& is_first_wrong_length(bs, n, ballot_index as int)
                &&& ballot@ == bs[ballot_index as int]
            })
            &&& (bs.len() > 0 && exists|i: int| #[trigger] is_first_wrong_length(bs, n, i))
                ==> r is Err && r->Err_0 is WrongLength
            &&& (r matches Err(VoteError::InvalidBallot { ballot_index, ballot, fault }) ==> {
                &&& is_first_invalid(bs, n, ballot_index as int)
                &&& ballot@ == bs[ballot_index as int]
                &&& is_first_fault(bs[ballot_index as int], fault)
            })
            &&& (r is Ok <==> bs.len() > 0 && all_valid(bs, n))
            &&& (r matches Ok(v) ==> v.ballots@ == ballots@ && is_round_count(v, bs, n))
        }),
{
    let ghost bs = ballot_views(ballots@);
    if ballots.len() == 0 {
        return Err(VoteError::NoBallots);
    }
    let n = num_choices as usize;
    let mut i: usize = 0;
    while i < ballots.len()
        invariant
            bs == ballot_views(ballots@),
            n == num_choices,
            i <= ballots@.len(),
            forall|k: int| 0 <= k < i ==> (#[trigger] bs[k]).len() == n,
        decreases ballots@.len() - i,
    {
        if ballots[i].len() != n {
            let ballot = ballots[i].clone();
            proof {
                assert(ballot@ =~= bs[i as int]);
                assert forall|x: int| #[trigger] is_first_wrong_length(bs, n as int, x) implies x
                    == i by {
                    if x < i {
                    } else if x > i {
                        assert(bs[i as int].len() == n);
                    }
                }
                assert(!all_valid(bs, n as int));
            }
            return Err(VoteError::WrongLength { ballot_index: i, ballot });
        }
        i = i + 1;
    }
    assert(forall|x: int| !#[trigger] is_first_wrong_length(bs, n as int, x));
    let mut matrices: Vec<SquareMatrix> = Vec::new();
    let mut i: usize = 0;
    while i < ballots.len()
        invariant
            bs == ballot_views(ballots@),
            n == num_choices,
            bs.len() > 0,
            i <= ballots@.len(),
            forall|k: int| 0 <= k < bs.len() ==> (#[trigger] bs[k]).len() == n,
            forall|k: int| 0 <= k < i ==> is_permutation(#[trigger] bs[k]),
            matrices@.len() == i,
            forall|k: int| 0 <= k < i ==> is_outranking_of((#[trigger] matrices@[k])@, bs[k]),
        decreases ballots@.len() - i,
    {
        match ballot_to_outranking_matrix(&ballots[i]) {
            Ok(m) => {
                matrices.push(m);
            },
            Err(fault) => {
                let ballot = ballots[i].clone();
                proof {
                    assert(ballot@ =~= bs[i as int]);
                    assert(is_first_invalid(bs, n as int, i as int));
                    assert(!all_valid(bs, n as int));
                }
                return Err(VoteError::InvalidBallot { ballot_index: i, ballot, fault });
            },
        }
        i = i + 1;
    }
    let ghost views = matrix_views(matrices@);
    proof {
        assert forall|k: int| 0 <= k < matrices@.len() implies is_square(
            #[trigger] matrices@[k]@,
            n as nat,
        ) by {
            assert(is_outranking_of(matrices@[k]@, bs[k]));
        }
        assert forall|a: int, b: int| 0 <= a < n && 0 <= b < n implies #[trigger] entry_total(
            views,
            a,
            b,
        ) == tally(bs, a, b) && tally(bs, a, b) <= u32::MAX by {
            assert forall|k: int| 0 <= k < views.len() implies is_outranking_of(
                #[trigger] views[k],
                bs[k],
            ) by {
                assert(is_outranking_of(matrices@[k]@, bs[k]));
            }
            lemma_entry_total_is_tally(views, bs, n as int, a, b);
            lemma_tally_bound(bs, a, b);
        }
    }
    let overall_matrix = aggregate_outranking(&matrices, n);
    proof {
        assert(all_valid(bs, n as int));
    }
    if let Some(winner) = condorcet_winner(&overall_matrix) {
        let breakdown = VoteBreakdown {
            winner: Some(winner),
            win_type: Some(WinType::CondorcetWinner),
            ballots,
            ballot_outranking: matrices,
            final_outranking: overall_matrix,
            schulze_result: None,
        };
        proof {
            assert(beats_all(breakdown.final_outranking@, winner as int));
            assert(exists|w: int| 0 <= w < n && #[trigger] beats_all(breakdown.final_outranking@, w));
        }
        return Ok(breakdown);
    }
    let schulze_result = schulze_ranking(&overall_matrix);
    let winner = if n > 0 {
        proof {
            assert(lists(schulze_result.0@, 0));
        }
        Some(schulze_result.0[0].0)
    } else {
        None
    };
    Ok(
        VoteBreakdown {
            winner,
            win_type: Some(WinType::SchulzeRanking),
            ballots,
            ballot_outranking: matrices,
            final_outranking: overall_matrix,
            schulze_result: Some(schulze_result),
        },
    )
}

} // verus!
