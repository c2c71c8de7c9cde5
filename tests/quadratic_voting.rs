use std::collections::BTreeMap;
use voting::quadratic_voting::{
    aggregate_ballots, tokens_used, valid_ballot, vote, winner, Ballot, BallotChoice, VoteError,
};

#[test]
fn testtokensused() {
    struct Case {
        input: Ballot,
        expected: i64,
    }

    let cases = [
        Case {
            input: BTreeMap::from([(0, 10), (1, 2)]),
            expected: 104,
        },
        Case {
            input: BTreeMap::from([(0, 10)]),
            expected: 100,
        },
        Case {
            input: BTreeMap::from([]),
            expected: 0,
        },
        Case {
            input: BTreeMap::from([(0, 10), (1, -2)]),
            expected: 104,
        },
    ];

    for case in cases.iter() {
        let tokens = tokens_used(&case.input);
        assert_eq!(tokens, case.expected);
    }
}

#[test]
fn testvalidballot() {
    struct Case {
        b: Ballot,
        max_tokens: i64,
        num_choices: i64,
        expected: bool,
    }

    let cases = [
        Case {
            b: BTreeMap::from([(0, 10), (1, 2)]),
            max_tokens: 100,
            num_choices: 2,
            expected: false,
        },
        Case {
            b: BTreeMap::from([(0, 10), (1, 2)]),
            max_tokens: 104,
            num_choices: 1,
            expected: false,
        },
        Case {
            b: BTreeMap::from([]),
            max_tokens: 104,
            num_choices: 1,
            expected: true,
        },
        Case {
            b: BTreeMap::from([(0, 10), (1, 1)]),
            max_tokens: 104,
            num_choices: 3,
            expected: true,
        },
    ];

    for case in cases.iter() {
        assert_eq!(
            valid_ballot(&case.b, case.max_tokens, case.num_choices),
            case.expected
        );
    }
}

#[test]
fn testwinner() {
    struct Case {
        b: Ballot,
        expected: BallotChoice,
    }

    let cases = [
        Case {
            b: BTreeMap::from([(0, 10), (1, 2)]),
            expected: 0,
        },
        Case {
            b: BTreeMap::from([(0, 10), (1, 11)]),
            expected: 1,
        },
        Case {
            b: BTreeMap::from([(3, 1)]),
            expected: 3,
        },
    ];

    for case in cases.iter() {
        assert_eq!(winner(&case.b), case.expected);
    }
}

#[test]
fn testaggregate() {
    struct Case {
        ballots: Vec<Ballot>,
        expected: Ballot,
    }

    let cases = [
        Case {
            ballots: Vec::from([BTreeMap::from([(0, 10), (1, 2)])]),
            expected: BTreeMap::from([(0, 10), (1, 2)]),
        },
        Case {
            ballots: Vec::from([BTreeMap::from([(1, 2)])]),
            expected: BTreeMap::from([(1, 2)]),
        },
        Case {
            ballots: Vec::from([BTreeMap::from([])]),
            expected: BTreeMap::from([]),
        },
        Case {
            ballots: Vec::from([
                BTreeMap::from([(1, 2)]),
                BTreeMap::from([(0, 11)]),
                BTreeMap::from([(3, 4)]),
                BTreeMap::from([(1, 3)]),
            ]),
            expected: BTreeMap::from([(1, 5), (0, 11), (3, 4)]),
        },
        Case {
            ballots: Vec::from([
                BTreeMap::from([(0, 2), (1, 4), (2, 8)]),
                BTreeMap::from([(0, 11), (1, 1), (2, 3)]),
                BTreeMap::from([(0, 0), (1, 13), (3, 7)]),
            ]),
            expected: BTreeMap::from([(0, 13), (1, 18), (2, 11), (3, 7)]),
        },
    ];

    for case in cases.iter() {
        assert_eq!(
            aggregate_ballots(case.ballots.iter().collect()),
            case.expected
        );
    }
}

#[test]
fn testvote() {
    struct Case {
        ballots: Vec<Ballot>,
        expected_winner: BallotChoice,
    }

    let cases = [
        Case {
            ballots: Vec::from([BTreeMap::from([(0, 10), (1, 2)])]),
            expected_winner: 0,
        },
        Case {
            ballots: Vec::from([BTreeMap::from([(1, 2)])]),
            expected_winner: 1,
        },
        Case {
            ballots: Vec::from([BTreeMap::from([])]),
            expected_winner: 0,
        },
        Case {
            ballots: Vec::from([
                BTreeMap::from([(1, 2)]),
                BTreeMap::from([(0, 4)]),
                BTreeMap::from([(3, 4)]),
                BTreeMap::from([(1, 3)]),
            ]),
            expected_winner: 1,
        },
        Case {
            ballots: Vec::from([
                BTreeMap::from([(0, 2), (1, 4), (2, 8)]),
                BTreeMap::from([(0, 11), (1, 1), (2, 3)]),
                BTreeMap::from([(0, 0), (1, 13), (3, 7)]),
            ]),
            expected_winner: 1,
        },
    ];

    for case in cases.iter() {
        match vote(case.ballots.iter().collect(), 1004) {
            Ok(result) => assert_eq!(result.winner, case.expected_winner),
            Err(err) => panic!("{:?}", err),
        };
    }
}

#[test]
fn tied_votes_go_to_the_lowest_choice() {
    let b: Ballot = BTreeMap::from([(5, 3), (2, 3), (7, 1)]);
    assert_eq!(winner(&b), 2);
}

#[test]
fn no_positive_votes_means_choice_zero() {
    let b: Ballot = BTreeMap::from([(4, -3), (6, 0)]);
    assert_eq!(winner(&b), 0);
}

#[test]
fn negative_votes_cost_tokens_too() {
    let b: Ballot = BTreeMap::from([(0, -3), (1, 4)]);
    assert_eq!(tokens_used(&b), 25);
}

#[test]
fn choice_out_of_range_is_invalid() {
    let b: Ballot = BTreeMap::from([(3, 1)]);
    assert!(!valid_ballot(&b, 100, 3));
    assert!(valid_ballot(&b, 100, 4));
}

#[test]
fn vote_report_counts_tokens() {
    let b1: Ballot = BTreeMap::from([(0, 3), (1, 1)]);
    let b2: Ballot = BTreeMap::from([(1, 2)]);
    let report = vote(vec![&b1, &b2], 10).unwrap();
    assert_eq!(report.num_voters, 2);
    assert_eq!(report.total_tokens_available, 20);
    assert_eq!(report.votes, BTreeMap::from([(0, 3), (1, 3)]));
    assert_eq!(report.total_tokens_remaining, 20 - 18);
    assert_eq!(report.winner, 0);
}

#[test]
fn vote_rejects_overspending_ballot() {
    let b1: Ballot = BTreeMap::from([(0, 3)]);
    let b2: Ballot = BTreeMap::from([(1, 4)]);
    assert_eq!(vote(vec![&b1, &b2], 10), Err(VoteError { ballot_index: 1 }));
}
