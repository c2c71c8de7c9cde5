//! Quadratic voting: each voter spreads votes over choices, and casting `v`
//! votes for a choice costs `v * v` tokens.
use std::collections::BTreeMap;
use vstd::prelude::*;
use vstd::std_specs::btree::spec_btree_map_iter;
use vstd::std_specs::cmp::OrdSpec;
use vstd::std_specs::iter::IteratorSpec;

verus! {

broadcast use {
    vstd::std_specs::btree::group_btree_axioms,
    vstd::std_specs::btree::axiom_spec_btree_map_iter,
    vstd::std_specs::btree::axiom_key_obeys_cmp_spec_meaning,
};

/// A choice on a ballot.
pub type BallotChoice = i64;

/// A number of votes; negative votes count against a choice.
pub type Votes = i64;

/// The votes that one voter casts for each choice.
pub type Ballot = BTreeMap<BallotChoice, Votes>;

/// `s` lists the entries of `m`, each once, by increasing key.
pub open spec fn is_listing(s: Seq<(BallotChoice, Votes)>, m: Map<BallotChoice, Votes>) -> bool {
    &&& forall|i: int, j: int| 0 <= i < j < s.len() ==> (#[trigger] s[i]).0 < (#[trigger] s[j]).0
    &&& forall|i: int| 0 <= i < s.len() ==> m.contains_key((#[trigger] s[i]).0) && m[s[i].0] == s[i].1
    &&& forall|k: BallotChoice| #[trigger] m.contains_key(k) ==> exists|i: int| 0 <= i < s.len() && s[i].0 == k
}

/// The entries of `m` by increasing key.
pub open spec fn listing(m: Map<BallotChoice, Votes>) -> Seq<(BallotChoice, Votes)> {
    choose|s: Seq<(BallotChoice, Votes)>| is_listing(s, m)
}

/// Iterating over a ballot visits its entries by increasing choice.
proof fn lemma_iteration_lists(b: &Ballot, s: Seq<(&BallotChoice, &Votes)>)
    requires
        s == spec_btree_map_iter(b).remaining(),
        vstd::std_specs::btree::increasing_seq(s.map_values(|kv: (&i64, &i64)| *kv.0)),
    ensures
        is_listing(s.map_values(|kv: (&i64, &i64)| (*kv.0, *kv.1)), b@),
{
    broadcast use vstd::std_specs::btree::axiom_increasing_seq_meaning;

    let es = s.map_values(|kv: (&i64, &i64)| (*kv.0, *kv.1));
    let keys = s.map_values(|kv: (&i64, &i64)| *kv.0);
    assert(vstd::laws_cmp::obeys_cmp::<i64>());
    assert forall|i: int, j: int| 0 <= i < j < es.len() implies (#[trigger] es[i]).0 < (
    #[trigger] es[j]).0 by {
        assert(keys[i].cmp_spec(&keys[j]) is Less);
    }
    assert forall|i: int| 0 <= i < es.len() implies b@.contains_key((#[trigger] es[i]).0)
        && b@[es[i].0] == es[i].1 by {
        assert(b@.contains_key(*s[i].0));
    }
    assert forall|k: BallotChoice| #[trigger] b@.contains_key(k) implies exists|i: int|
        0 <= i < es.len() && es[i].0 == k by {
        assert(s.contains((&k, &b@[k])));
        let i = choose|i: int| 0 <= i < s.len() && s[i] == (&k, &b@[k]);
        assert(es[i].0 == k);
    }
}

/// A map has one listing.
proof fn lemma_listing_unique(s: Seq<(BallotChoice, Votes)>, t: Seq<(BallotChoice, Votes)>, m: Map<BallotChoice, Votes>)
    requires
        is_listing(s, m),
        is_listing(t, m),
    ensures
        s == t,
    decreases s.len(),
{
    if s.len() == 0 {
        if t.len() > 0 {
            assert(m.contains_key(t[0].0));
        }
        assert(s =~= t);
    } else {
        assert(m.contains_key(s[0].0));
        let j = choose|j: int| 0 <= j < t.len() && t[j].0 == s[0].0;
        assert(m.contains_key(t[0].0));
        let i = choose|i: int| 0 <= i < s.len() && s[i].0 == t[0].0;
        if j > 0 {
            assert(t[0].0 < t[j].0);
            if i > 0 {
                assert(s[0].0 < s[i].0);
            }
        }
        let k0 = s[0].0;
        let rest = m.remove(k0);
        let s1 = s.drop_first();
        let t1 = t.drop_first();
        assert(is_listing(s1, rest)) by {
            assert forall|x: int| 0 <= x < s1.len() implies rest.contains_key((#[trigger] s1[x]).0)
                && rest[s1[x].0] == s1[x].1 by {
                assert(s[0].0 < s[x + 1].0);
            }
            assert forall|k: BallotChoice| #[trigger] rest.contains_key(k) implies exists|x: int|
                0 <= x < s1.len() && s1[x].0 == k by {
                let x = choose|x: int| 0 <= x < s.len() && s[x].0 == k;
                assert(s1[x - 1].0 == k);
            }
        }
        assert(is_listing(t1, rest)) by {
            assert forall|x: int| 0 <= x < t1.len() implies rest.contains_key((#[trigger] t1[x]).0)
                && rest[t1[x].0] == t1[x].1 by {
                assert(t[0].0 < t[x + 1].0);
            }
            assert forall|k: BallotChoice| #[trigger] rest.contains_key(k) implies exists|x: int|
                0 <= x < t1.len() && t1[x].0 == k by {
                let x = choose|x: int| 0 <= x < t.len() && t[x].0 == k;
                assert(t1[x - 1].0 == k);
            }
        }
        lemma_listing_unique(s1, t1, rest);
        assert(s =~= t) by {
            assert(s[0] == t[0]);
            assert forall|x: int| 0 < x < s.len() implies s[x] == t[x] by {
                assert(s[x] == s1[x - 1]);
            }
        }
    }
}

/// The listing of a ballot is the one its iteration visits.
proof fn lemma_listing_is(s: Seq<(BallotChoice, Votes)>, m: Map<BallotChoice, Votes>)
    requires
        is_listing(s, m),
    ensures
        listing(m) == s,
{
    lemma_listing_unique(listing(m), s, m);
}

/// A prefix of the entries costs at most what all of them cost.
proof fn lemma_squares_prefix(es: Seq<(BallotChoice, Votes)>, k: int)
    requires
        0 <= k <= es.len(),
    ensures
        squares_total(es.take(k)) <= squares_total(es),
        squares_total(es.take(k)) >= 0,
    decreases es.len(),
{
    if k == es.len() {
        assert(es.take(k) =~= es);
        if es.len() > 0 {
            lemma_squares_prefix(es.drop_last(), k - 1);
            assert(es.drop_last().take(k - 1) =~= es.drop_last());
        }
    } else {
        assert(es.drop_last().take(k) =~= es.take(k));
        lemma_squares_prefix(es.drop_last(), k);
    }
    assert(es.last().1 * es.last().1 >= 0) by (nonlinear_arith);
}

/// The tokens that the entries `es` cost: the sum of the squared votes.
pub open spec fn squares_total(es: Seq<(BallotChoice, Votes)>) -> int
    decreases es.len(),
{
    if es.len() == 0 {
        0
    } else {
        squares_total(es.drop_last()) + es.last().1 * es.last().1
    }
}

/// The number of tokens that a ballot spends: the sum over its choices of
/// the square of the votes cast.
pub fn tokens_used(b: &Ballot) -> (r: i64)
    requires
        squares_total(listing(b@)) <= i64::MAX,
        forall|k: int| 0 <= k < listing(b@).len() ==> #[trigger] listing(b@)[k].1 != i64::MIN,
    ensures
        r == squares_total(listing(b@)),
{
    let entries_iter = b.iter();
    let ghost snap = entries_iter;
    let ghost es = snap.remaining().map_values(|kv: (&i64, &i64)| (*kv.0, *kv.1));
    proof {
        lemma_iteration_lists(b, snap.remaining());
        lemma_listing_is(es, b@);
    }
    let mut total: i64 = 0;
    for (choice, votes) in it: entries_iter
        invariant
            it.seq() == snap.remaining(),
            es == snap.remaining().map_values(|kv: (&i64, &i64)| (*kv.0, *kv.1)),
            es == listing(b@),
            squares_total(es) <= i64::MAX,
            forall|k: int| 0 <= k < es.len() ==> #[trigger] es[k].1 != i64::MIN,
            total == squares_total(es.take(it.index())),
    {
        let ghost i = it.index();
        proof {
            assert(es[i].1 == *votes);
            assert(es.take(i + 1).drop_last() =~= es.take(i));
            lemma_squares_prefix(es, i + 1);
            lemma_squares_prefix(es, i);
            assert(es.take(i + 1).last() == es[i]);
            assert(squares_total(es.take(i + 1)) == squares_total(es.take(i)) + es[i].1 * es[i].1);
        }
        let magnitude: i64 = if *votes < 0 { -*votes } else { *votes };
        proof {
            let v = *votes as int;
            let a = magnitude as int;
            assert(a * a == v * v) by (nonlinear_arith)
                requires
                    a == v || a == -v,
            ;
        }
        total = total + magnitude * magnitude;
    }
    proof {
        assert(es.take(es.len() as int) =~= es);
    }
    total
}

/// Whether a ballot spends at most `max_tokens` tokens and votes only for
/// choices below `num_choices`.
pub fn valid_ballot(b: &Ballot, max_tokens: i64, num_choices: i64) -> (r: bool)
    requires
        squares_total(listing(b@)) <= i64::MAX,
        forall|k: int| 0 <= k < listing(b@).len() ==> #[trigger] listing(b@)[k].1 != i64::MIN,
        num_choices > i64::MIN,
    ensures
        r == (squares_total(listing(b@)) <= max_tokens && forall|c: BallotChoice|
            #[trigger] b@.contains_key(c) ==> c < num_choices),
{
    if tokens_used(b) > max_tokens {
        return false;
    }
    let entries_iter = b.iter();
    let ghost snap = entries_iter;
    let ghost es = snap.remaining().map_values(|kv: (&i64, &i64)| (*kv.0, *kv.1));
    proof {
        lemma_iteration_lists(b, snap.remaining());
        lemma_listing_is(es, b@);
    }
    for (choice, _votes) in it: entries_iter
        invariant
            it.seq() == snap.remaining(),
            es == snap.remaining().map_values(|kv: (&i64, &i64)| (*kv.0, *kv.1)),
            is_listing(es, b@),
            num_choices > i64::MIN,
            forall|k: int| 0 <= k < it.index() ==> (#[trigger] es[k]).0 < num_choices,
    {
        let ghost i = it.index();
        assert(es[i].0 == *choice);
        if *choice > num_choices - 1 {
            assert(b@.contains_key(es[i].0));
            return false;
        }
    }
    proof {
        assert forall|c: BallotChoice| #[trigger] b@.contains_key(c) implies c < num_choices by {
            let k = choose|k: int| 0 <= k < es.len() && es[k].0 == c;
        }
    }
    true
}

/// `w` is the top choice among the entries `es`: the first, by increasing
/// choice, of those with the most votes, where some choice has more than 0
/// votes; else 0.
pub open spec fn is_top_choice(es: Seq<(BallotChoice, Votes)>, w: BallotChoice) -> bool {
    if forall|t: int| 0 <= t < es.len() ==> (#[trigger] es[t]).1 <= 0 {
        w == 0
    } else {
        exists|k: int|
            0 <= k < es.len() && es[k].0 == w && es[k].1 > 0 && (forall|t: int|
                0 <= t < es.len() ==> (#[trigger] es[t]).1 <= es[k].1) && (forall|t: int|
                0 <= t < k ==> (#[trigger] es[t]).1 < es[k].1)
    }
}

/// The choice with the most votes; of several with the most, the lowest.
/// Where no choice has more than 0 votes, the result is 0.
pub fn winner(b: &Ballot) -> (r: BallotChoice)
    ensures
        is_top_choice(listing(b@), r),
{
    let entries_iter = b.iter();
    let ghost snap = entries_iter;
    let ghost es = snap.remaining().map_values(|kv: (&i64, &i64)| (*kv.0, *kv.1));
    proof {
        lemma_iteration_lists(b, snap.remaining());
        lemma_listing_is(es, b@);
    }
    let mut winner: BallotChoice = 0;
    let mut winner_votes: Votes = 0;
    let ghost mut top: int = 0;
    for (choice, choice_votes) in it: entries_iter
        invariant
            it.seq() == snap.remaining(),
            es == snap.remaining().map_values(|kv: (&i64, &i64)| (*kv.0, *kv.1)),
            es == listing(b@),
            0 <= it.index() <= es.len(),
            winner_votes >= 0,
            winner_votes == 0 ==> winner == 0 && forall|t: int|
                0 <= t < it.index() ==> (#[trigger] es[t]).1 <= 0,
            winner_votes > 0 ==> {
                &&& 0 <= top < it.index()
                &&& es[top] == (winner, winner_votes)
                &&& forall|t: int| 0 <= t < it.index() ==> (#[trigger] es[t]).1 <= winner_votes
                &&& forall|t: int| 0 <= t < top ==> (#[trigger] es[t]).1 < winner_votes
            },
    {
        let ghost i = it.index();
        assert(es[i] == (*choice, *choice_votes));
        if *choice_votes > winner_votes {
            winner = *choice;
            winner_votes = *choice_votes;
            proof {
                top = i;
            }
        }
    }
    proof {
        if winner_votes > 0 {
            assert(es[top].1 > 0);
        }
    }
    winner
}

/// The votes that ballot `m` casts for choice `c`: 0 where it names none.
pub open spec fn votes_in(m: Map<BallotChoice, Votes>, c: BallotChoice) -> int {
    if m.contains_key(c) {
        m[c] as int
    } else {
        0
    }
}

/// The votes for choice `c` over all the ballots `ms`.
pub open spec fn vote_total(ms: Seq<Map<BallotChoice, Votes>>, c: BallotChoice) -> int
    decreases ms.len(),
{
    if ms.len() == 0 {
        0
    } else {
        vote_total(ms.drop_last(), c) + votes_in(ms.last(), c)
    }
}

/// Some ballot among `ms` names choice `c`.
pub open spec fn cast_for(ms: Seq<Map<BallotChoice, Votes>>, c: BallotChoice) -> bool {
    exists|i: int| 0 <= i < ms.len() && (#[trigger] ms[i]).contains_key(c)
}

/// The maps of a sequence of ballots.
pub open spec fn ballot_maps(ballots: Seq<&Ballot>) -> Seq<Map<BallotChoice, Votes>> {
    ballots.map_values(|b: &Ballot| b@)
}

/// The combined ballot: each choice that some ballot names, with its total
/// votes.
pub open spec fn combined(ms: Seq<Map<BallotChoice, Votes>>) -> Map<BallotChoice, Votes> {
    Map::new(|c: BallotChoice| cast_for(ms, c), |c: BallotChoice| vote_total(ms, c) as i64)
}

/// Totals for every choice fit in `i64` after each ballot.
pub open spec fn totals_fit(ms: Seq<Map<BallotChoice, Votes>>) -> bool {
    forall|p: int, c: BallotChoice|
        0 <= p <= ms.len() ==> i64::MIN <= #[trigger] vote_total(ms.take(p), c) <= i64::MAX
}

proof fn lemma_vote_total_uncast(ms: Seq<Map<BallotChoice, Votes>>, c: BallotChoice)
    requires
        !cast_for(ms, c),
    ensures
        vote_total(ms, c) == 0,
    decreases ms.len(),
{
    if ms.len() > 0 {
        assert(!ms[ms.len() - 1].contains_key(c));
        assert forall|i: int| 0 <= i < ms.drop_last().len() implies !(#[trigger] ms.drop_last()[i]).contains_key(c) by {
            assert(ms.drop_last()[i] == ms[i]);
        }
        lemma_vote_total_uncast(ms.drop_last(), c);
    }
}

/// Adds up the ballots: the result names each choice that some ballot
/// names, with the sum of the votes cast for it.
pub fn aggregate_ballots(ballots: Vec<&Ballot>) -> (r: Ballot)
    requires
        totals_fit(ballot_maps(ballots@)),
    ensures
        r@ == combined(ballot_maps(ballots@)),
{
    let ghost ms = ballot_maps(ballots@);
    let mut result: Ballot = BTreeMap::new();
    let mut i: usize = 0;
    while i < ballots.len()
        invariant
            ms == ballot_maps(ballots@),
            totals_fit(ms),
            i <= ballots@.len(),
            forall|c: BallotChoice| #[trigger] result@.contains_key(c) <==> cast_for(ms.take(i as int), c),
            forall|c: BallotChoice| #[trigger] result@.contains_key(c) ==> result@[c] == vote_total(ms.take(i as int), c),
        decreases ballots@.len() - i,
    {
        let ballot: &Ballot = ballots[i];
        let ghost prev = ms.take(i as int);
        let ghost next = ms.take(i + 1);
        proof {
            assert(next.drop_last() =~= prev);
            assert(next.last() == ballot@);
        }
        let entries_iter = ballot.iter();
        let ghost snap = entries_iter;
        let ghost es = snap.remaining().map_values(|kv: (&i64, &i64)| (*kv.0, *kv.1));
        proof {
            lemma_iteration_lists(ballot, snap.remaining());
        }
        for (choice, ballot_votes) in it: entries_iter
            invariant
                it.seq() == snap.remaining(),
                es == snap.remaining().map_values(|kv: (&i64, &i64)| (*kv.0, *kv.1)),
                is_listing(es, ballot@),
                ms == ballot_maps(ballots@),
                totals_fit(ms),
                i < ballots@.len(),
                prev == ms.take(i as int),
                next == ms.take(i + 1),
                next.drop_last() == prev,
                next.last() == ballot@,
                0 <= it.index() <= es.len(),
                forall|c: BallotChoice| #[trigger] result@.contains_key(c) <==> (cast_for(prev, c) || exists|t: int| 0 <= t < it.index() && es[t].0 == c),
                forall|c: BallotChoice| #[trigger] result@.contains_key(c) ==> result@[c] == vote_total(prev, c) + if exists|t: int| 0 <= t < it.index() && es[t].0 == c {
                    votes_in(ballot@, c)
                } else {
                    0
                },
        {
            let ghost x = it.index();
            let ghost c = *choice;
            proof {
                assert(es[x] == (*choice, *ballot_votes));
                assert(ballot@.contains_key(c) && ballot@[c] == *ballot_votes);
                assert(!exists|t: int| 0 <= t < x && es[t].0 == c) by {
                    if exists|t: int| 0 <= t < x && es[t].0 == c {
                        let t = choose|t: int| 0 <= t < x && es[t].0 == c;
                        assert(es[t].0 < es[x].0);
                    }
                }
                if !cast_for(prev, c) {
                    lemma_vote_total_uncast(prev, c);
                }
                assert(vote_total(next, c) == vote_total(prev, c) + *ballot_votes);
                assert(i64::MIN <= vote_total(ms.take(i + 1), c) <= i64::MAX);
            }
            let current: i64 = match result.get(choice) {
                Some(v) => *v,
                None => 0,
            };
            result.insert(*choice, current + *ballot_votes);
            proof {
                assert forall|d: BallotChoice| #[trigger] result@.contains_key(d) <==> (cast_for(prev, d) || exists|t: int| 0 <= t < x + 1 && es[t].0 == d) by {
                    if d == c {
                        assert(es[x].0 == d);
                    }
                }
                assert forall|d: BallotChoice| #[trigger] result@.contains_key(d) implies result@[d] == vote_total(prev, d) + if exists|t: int| 0 <= t < x + 1 && es[t].0 == d {
                    votes_in(ballot@, d)
                } else {
                    0
                } by {
                    if d == c {
                        assert(es[x].0 == d);
                    } else {
                        assert((exists|t: int| 0 <= t < x + 1 && es[t].0 == d) == (exists|t: int| 0 <= t < x && es[t].0 == d));
                    }
                }
            }
        }
        proof {
            assert forall|c: BallotChoice| #[trigger] result@.contains_key(c) <==> cast_for(next, c) by {
                if cast_for(next, c) && !cast_for(prev, c) {
                    let j = choose|j: int| 0 <= j < next.len() && (#[trigger] next[j]).contains_key(c);
                    if j < i {
                        assert(prev[j] == next[j]);
                    }
                    assert(ballot@.contains_key(c));
                }
                if cast_for(prev, c) {
                    let j = choose|j: int| 0 <= j < prev.len() && (#[trigger] prev[j]).contains_key(c);
                    assert(next[j] == prev[j]);
                }
                if exists|t: int| 0 <= t < es.len() && es[t].0 == c {
                    let t = choose|t: int| 0 <= t < es.len() && es[t].0 == c;
                    assert(ballot@.contains_key(c));
                    assert(next[i as int].contains_key(c));
                }
            }
            assert forall|c: BallotChoice| #[trigger] result@.contains_key(c) implies result@[c] == vote_total(next, c) by {
                if ballot@.contains_key(c) {
                    assert(exists|t: int| 0 <= t < es.len() && es[t].0 == c);
                } else if exists|t: int| 0 <= t < es.len() && es[t].0 == c {
                    let t = choose|t: int| 0 <= t < es.len() && es[t].0 == c;
                }
            }
        }
        i = i + 1;
    }
    proof {
        assert(ms.take(ballots@.len() as int) =~= ms);
        assert(result@ =~= combined(ms)) by {
            assert forall|c: BallotChoice| #[trigger] result@.contains_key(c) implies result@[c] == vote_total(ms, c) as i64 by {
                assert(i64::MIN <= vote_total(ms.take(ms.len() as int), c) <= i64::MAX);
            }
        }
    }
    result
}

/// The outcome of a quadratic vote.
#[derive(Debug, PartialEq)]
pub struct VoteReport {
    pub num_voters: i64,
    pub total_tokens_available: i64,
    pub total_tokens_remaining: i64,
    pub votes: Ballot,
    pub winner: BallotChoice,
}

/// The ballot at `ballot_index` spends more tokens than a voter has, or
/// votes for the largest `i64`, which is no valid choice.
#[derive(Debug, Clone, Copy, PartialEq, Eq)]
pub struct VoteError {
    pub ballot_index: usize,
}

/// Ballot `m` spends at most `tokens` tokens and names no choice at or above
/// `i64::MAX`.
pub open spec fn ballot_ok(m: Map<BallotChoice, Votes>, tokens: i64) -> bool {
    squares_total(listing(m)) <= tokens && forall|c: BallotChoice| #[trigger] m.contains_key(c) ==> c
        < i64::MAX
}

/// The tokens of ballot `m` can be counted in `i64`.
pub open spec fn tokens_fit(m: Map<BallotChoice, Votes>) -> bool {
    &&& squares_total(listing(m)) <= i64::MAX
    &&& forall|k: int| 0 <= k < listing(m).len() ==> #[trigger] listing(m)[k].1 != i64::MIN
}

/// Counts a quadratic vote: each ballot must spend at most
/// `tokens_per_ballot` tokens; the ballots are added up, and the report
/// gives the tokens handed out and left over, and the top choice.
pub fn vote(ballots: Vec<&Ballot>, tokens_per_ballot: i64) -> (r: Result<VoteReport, VoteError>)
    requires
        forall|i: int| 0 <= i < ballots@.len() ==> tokens_fit(#[trigger] ballots@[i]@),
        totals_fit(ballot_maps(ballots@)),
        tokens_fit(combined(ballot_maps(ballots@))),
        ballots@.len() <= i64::MAX,
        ballots@.len() * tokens_per_ballot <= i64::MAX,
        ballots@.len() * tokens_per_ballot >= i64::MIN,
        ballots@.len() * tokens_per_ballot - squares_total(listing(combined(ballot_maps(ballots@))))
            <= i64::MAX,
        ballots@.len() * tokens_per_ballot - squares_total(listing(combined(ballot_maps(ballots@))))
            >= i64::MIN,
    ensures
        r is Ok <==> forall|i: int|
            0 <= i < ballots@.len() ==> ballot_ok(#[trigger] ballots@[i]@, tokens_per_ballot),
        r matches Err(e) ==> {
            &&& e.ballot_index < ballots@.len()
            &&& !ballot_ok(ballots@[e.ballot_index as int]@, tokens_per_ballot)
            &&& forall|i: int| 0 <= i < e.ballot_index ==> ballot_ok(#[trigger] ballots@[i]@, tokens_per_ballot)
        },
        r matches Ok(report) ==> {
            let total = combined(ballot_maps(ballots@));
            &&& report.num_voters == ballots@.len()
            &&& report.total_tokens_available == ballots@.len() * tokens_per_ballot
            &&& report.total_tokens_remaining == report.total_tokens_available - squares_total(listing(total))
            &&& report.votes@ == total
            &&& is_top_choice(listing(total), report.winner)
        },
{
    let mut i: usize = 0;
    while i < ballots.len()
        invariant
            i <= ballots@.len(),
            forall|k: int| 0 <= k < ballots@.len() ==> tokens_fit(#[trigger] ballots@[k]@),
            forall|k: int| 0 <= k < i ==> ballot_ok(#[trigger] ballots@[k]@, tokens_per_ballot),
        decreases ballots@.len() - i,
    {
        let ballot: &Ballot = ballots[i];
        proof {
            assert(tokens_fit(ballots@[i as int]@));
        }
        if !valid_ballot(ballot, tokens_per_ballot, i64::MAX) {
            return Err(VoteError { ballot_index: i });
        }
        i = i + 1;
    }
    let num_voters: i64 = ballots.len() as i64;
    let final_ballot = aggregate_ballots(ballots);
    let tokens_spent = tokens_used(&final_ballot);
    let total_tokens_available = num_voters * tokens_per_ballot;
    let total_tokens_remaining = total_tokens_available - tokens_spent;
    Ok(
        VoteReport {
            num_voters,
            total_tokens_available,
            total_tokens_remaining,
            winner: winner(&final_ballot),
            votes: final_ballot,
        },
    )
}

} // verus!
