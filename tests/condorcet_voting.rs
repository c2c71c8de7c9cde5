use voting::condorcet_voting::{
    aggregate_outranking, ballot_to_outranking_matrix, condorcet_winner, schulze_path_matrix,
    schulze_ranking, vote, Ballot, BallotChoice, BallotFault, FaultKind, VoteError, WinType,
};
use voting::matrix::SquareMatrix;

fn wiki_aggregate() -> SquareMatrix {
    SquareMatrix::from_row_slice(
        5,
        &[
            0, 20, 26, 30, 22, //
            25, 0, 16, 33, 18, //
            19, 29, 0, 17, 24, //
            15, 12, 28, 0, 14, //
            23, 27, 21, 31, 0, //
        ],
    )
}

fn wiki_path_matrix() -> SquareMatrix {
    SquareMatrix::from_row_slice(
        5,
        &[
            0, 28, 28, 30, 24, //
            25, 0, 28, 33, 24, //
            25, 29, 0, 29, 24, //
            25, 28, 28, 0, 24, //
            25, 28, 28, 31, 0, //
        ],
    )
}

#[test]
fn howdoesindexingwork() {
    let m = SquareMatrix::from_row_slice(
        4,
        &[
            0, 0, 0, 1, //
            1, 0, 1, 1, //
            1, 3, 0, 1, //
            0, 0, 0, 0, //
        ],
    );

    assert_eq!(m.to_rows()[2][1], 3);
}

#[test]
fn test_ballot_to_outranking_matrix() {
    struct Case {
        ballot: Ballot,
        expected: SquareMatrix,
    }

    let cases = [
        Case {
            // B, C, A, D
            ballot: Vec::from([1, 2, 0, 3]),
            expected: SquareMatrix::from_row_slice(
                4,
                &[
                    0, 0, 0, 1, //
                    1, 0, 1, 1, //
                    1, 0, 0, 1, //
                    0, 0, 0, 0, //
                ],
            ),
        },
        Case {
            // C, B, A, D
            ballot: Vec::from([2, 1, 0, 3]),
            expected: SquareMatrix::from_row_slice(
                4,
                &[
                    0, 0, 0, 1, //
                    1, 0, 0, 1, //
                    1, 1, 0, 1, //
                    0, 0, 0, 0, //
                ],
            ),
        },
    ];

    for (i, case) in cases.iter().enumerate() {
        assert_eq!(
            ballot_to_outranking_matrix(&case.ballot).unwrap(),
            case.expected,
            "Case {}",
            i,
        );
    }
}

#[test]
fn test_condorcet_winner() {
    struct Case {
        m: SquareMatrix,
        expected: Option<BallotChoice>,
    }

    let cases = [
        Case {
            m: SquareMatrix::from_row_slice(
                4,
                &[
                    0, 2, 2, 2, //
                    1, 0, 1, 2, //
                    1, 2, 0, 2, //
                    1, 1, 1, 0,
                ],
            ),
            expected: Some(0),
        },
        Case {
            m: wiki_aggregate(),
            expected: None,
        },
    ];

    for case in cases.iter() {
        assert_eq!(condorcet_winner(&case.m), case.expected);
    }
}

#[test]
fn test_schulze_ranking() {
    let result = schulze_ranking(&wiki_aggregate());
    assert_eq!(result.1, wiki_path_matrix());
    assert_eq!(result.0, vec![(4, 4), (0, 3), (2, 2), (1, 1), (3, 0)]);
}

#[test]
fn test_vote() {
    struct Case {
        num_choices: u32,
        ballots: Vec<Ballot>,
        expected_winner: Option<BallotChoice>,
        expected_final_outranking: SquareMatrix,
    }

    let cases = [Case {
        num_choices: 4,
        ballots: vec![
            Ballot::from([1, 2, 0, 3]), // B, C, A, D
            Ballot::from([3, 0, 2, 1]), // D, A, C, B
            Ballot::from([0, 2, 1, 3]), // A, C, B, D
        ],
        expected_winner: Some(0),
        expected_final_outranking: SquareMatrix::from_row_slice(
            4,
            &[
                0, 2, 2, 2, //
                1, 0, 1, 2, //
                1, 2, 0, 2, //
                1, 1, 1, 0, //
            ],
        ),
    }];

    for case in cases.iter() {
        let result = vote(case.num_choices, case.ballots.clone()).unwrap();
        assert_eq!(result.final_outranking, case.expected_final_outranking);
        assert_eq!(result.winner, case.expected_winner,);
    }
}

#[test]
fn from_row_slice_is_row_major() {
    let m = SquareMatrix::from_row_slice(2, &[1, 2, 3, 4]);
    assert_eq!(m.to_rows(), vec![vec![1, 2], vec![3, 4]]);
}

#[test]
fn outranking_matrix_is_antisymmetric() {
    let ballot: Ballot = vec![3, 1, 4, 0, 2];
    let m = ballot_to_outranking_matrix(&ballot).unwrap().to_rows();
    for i in 0..5 {
        assert_eq!(m[i][i], 0);
        for j in 0..5 {
            if i != j {
                assert_eq!(m[i][j] + m[j][i], 1);
            }
        }
    }
    assert_eq!(m[3][0], 1);
    assert_eq!(m[0][3], 0);
}

#[test]
fn aggregate_entries_add_up_to_ballot_count() {
    let ballots: Vec<Ballot> = vec![vec![1, 2, 0, 3], vec![3, 0, 2, 1], vec![0, 2, 1, 3]];
    let m = vote(4, ballots).unwrap().final_outranking.to_rows();
    for i in 0..4 {
        for j in 0..4 {
            if i != j {
                assert_eq!(m[i][j] + m[j][i], 3);
            }
        }
    }
}

#[test]
fn aggregation_ignores_order() {
    let ballots: Vec<Ballot> = vec![vec![1, 2, 0, 3], vec![3, 0, 2, 1], vec![0, 2, 1, 3]];
    let forward: Vec<SquareMatrix> = ballots
        .iter()
        .map(|b| ballot_to_outranking_matrix(b).unwrap())
        .collect();
    let backward: Vec<SquareMatrix> = ballots
        .iter()
        .rev()
        .map(|b| ballot_to_outranking_matrix(b).unwrap())
        .collect();
    let a = aggregate_outranking(&forward, 4);
    let b = aggregate_outranking(&backward, 4);
    assert_eq!(a, b);
    assert_eq!(aggregate_outranking(&forward, 4), a);
    assert_eq!(
        a,
        SquareMatrix::from_row_slice(
            4,
            &[
                0, 2, 2, 2, //
                1, 0, 1, 2, //
                1, 2, 0, 2, //
                1, 1, 1, 0, //
            ],
        )
    );
}

#[test]
fn aggregate_of_nothing_is_zero() {
    let none: Vec<SquareMatrix> = Vec::new();
    assert_eq!(aggregate_outranking(&none, 2), SquareMatrix::from_row_slice(2, &[0; 4]));
}

#[test]
fn no_two_condorcet_winners() {
    let m = SquareMatrix::from_row_slice(3, &[0, 1, 1, 1, 0, 1, 1, 1, 0]);
    assert_eq!(condorcet_winner(&m), None);
    let m = SquareMatrix::from_row_slice(3, &[0, 0, 0, 3, 0, 2, 3, 1, 0]);
    assert_eq!(condorcet_winner(&m), Some(1));
}

#[test]
fn schulze_puts_condorcet_winner_first() {
    let aggregate = SquareMatrix::from_row_slice(
        4,
        &[
            0, 2, 2, 2, //
            1, 0, 1, 2, //
            1, 2, 0, 2, //
            1, 1, 1, 0, //
        ],
    );
    assert_eq!(condorcet_winner(&aggregate), Some(0));
    let (ranking, _) = schulze_ranking(&aggregate);
    assert_eq!(ranking[0], (0, 3));
}

#[test]
fn path_matrix_is_a_fixpoint() {
    let paths = schulze_path_matrix(&wiki_aggregate());
    assert_eq!(paths, wiki_path_matrix());
    let p = paths.to_rows();
    for i in 0..5 {
        for j in 0..5 {
            for k in 0..5 {
                if i != j && j != k && i != k {
                    assert!(p[j][k] >= p[j][i].min(p[i][k]));
                }
            }
        }
    }
}

#[test]
fn single_ballot_elects_its_first_choice() {
    let result = vote(3, vec![vec![2, 0, 1]]).unwrap();
    assert_eq!(result.winner, Some(2));
    assert_eq!(result.win_type, Some(WinType::CondorcetWinner));
    assert_eq!(
        result.final_outranking,
        SquareMatrix::from_row_slice(3, &[0, 1, 0, 0, 0, 0, 1, 1, 0])
    );
    assert!(result.schulze_result.is_none());
}

#[test]
fn scenario_condorcet_winner() {
    let ballots: Vec<Ballot> = vec![vec![1, 2, 0, 3], vec![3, 0, 2, 1], vec![0, 2, 1, 3]];
    let result = vote(4, ballots.clone()).unwrap();
    assert_eq!(result.winner, Some(0));
    assert_eq!(result.win_type, Some(WinType::CondorcetWinner));
    assert_eq!(result.ballots, ballots);
    assert_eq!(result.ballot_outranking.len(), 3);
    assert_eq!(
        result.ballot_outranking[1],
        ballot_to_outranking_matrix(&vec![3, 0, 2, 1]).unwrap()
    );
}

#[test]
fn scenario_schulze_fallback() {
    assert_eq!(condorcet_winner(&wiki_aggregate()), None);
    let (ranking, paths) = schulze_ranking(&wiki_aggregate());
    assert_eq!(ranking, vec![(4, 4), (0, 3), (2, 2), (1, 1), (3, 0)]);
    assert_eq!(paths, wiki_path_matrix());
}

#[test]
fn vote_falls_back_to_schulze_on_a_cycle() {
    // 0 > 1 > 2 > 0, each by one ballot's margin.
    let ballots: Vec<Ballot> = vec![vec![0, 1, 2], vec![1, 2, 0], vec![2, 0, 1]];
    let result = vote(3, ballots).unwrap();
    assert_eq!(result.win_type, Some(WinType::SchulzeRanking));
    assert_eq!(result.winner, Some(0));
    let (ranking, paths) = result.schulze_result.unwrap();
    assert_eq!(ranking, vec![(0, 0), (1, 0), (2, 0)]);
    assert_eq!(paths, SquareMatrix::from_row_slice(3, &[0, 2, 2, 2, 0, 2, 2, 2, 0]));
}

#[test]
fn equal_wins_rank_by_candidate_number() {
    let aggregate = SquareMatrix::from_row_slice(3, &[0, 1, 1, 1, 0, 1, 1, 1, 0]);
    let (ranking, paths) = schulze_ranking(&aggregate);
    assert_eq!(ranking, vec![(0, 0), (1, 0), (2, 0)]);
    assert_eq!(paths, SquareMatrix::from_row_slice(3, &[0; 9]));
}

#[test]
fn empty_matrix_has_empty_ranking() {
    let (ranking, paths) = schulze_ranking(&SquareMatrix::from_row_slice(0, &[]));
    assert!(ranking.is_empty());
    assert!(paths.to_rows().is_empty());
}

#[test]
fn duplicate_candidate_is_rejected() {
    let ballot: Ballot = vec![0, 2, 0];
    assert_eq!(
        ballot_to_outranking_matrix(&ballot),
        Err(BallotFault { kind: FaultKind::Duplicate, position: 2 })
    );
}

#[test]
fn out_of_range_candidate_is_rejected() {
    let ballot: Ballot = vec![0, 3, 1];
    assert_eq!(
        ballot_to_outranking_matrix(&ballot),
        Err(BallotFault { kind: FaultKind::OutOfRange, position: 1 })
    );
}

#[test]
fn vote_without_ballots_fails() {
    assert_eq!(vote(3, Vec::new()), Err(VoteError::NoBallots));
}

#[test]
fn vote_with_short_ballot_fails() {
    let ballots: Vec<Ballot> = vec![vec![0, 1, 2], vec![0, 1]];
    assert_eq!(
        vote(3, ballots),
        Err(VoteError::WrongLength { ballot_index: 1, ballot: vec![0, 1] })
    );
}

#[test]
fn vote_with_invalid_ballot_fails() {
    let ballots: Vec<Ballot> = vec![vec![0, 1, 2], vec![1, 1, 2], vec![5, 1, 2]];
    assert_eq!(
        vote(3, ballots),
        Err(VoteError::InvalidBallot {
            ballot_index: 1,
            ballot: vec![1, 1, 2],
            fault: BallotFault { kind: FaultKind::Duplicate, position: 1 },
        })
    );
}

#[test]
fn vote_with_no_candidates_has_no_winner() {
    let result = vote(0, vec![vec![]]).unwrap();
    assert_eq!(result.winner, None);
    assert_eq!(result.win_type, Some(WinType::SchulzeRanking));
}
