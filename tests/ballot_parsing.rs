use voting::ballot_parsing::{parse_cv_ballot, ParseError};
use voting::condorcet_voting::Ballot;

#[test]
fn test_parse_cv_ballot() {
    struct Case {
        input: String,
        expected: Ballot,
    }

    let cases = [
        Case {
            input: "1 > 3 > 2".to_string(),
            expected: Ballot::from([1, 3, 2]),
        },
        Case {
            input: "  3 > 2 >1  \n".to_string(),
            expected: Ballot::from([3, 2, 1]),
        },
    ];

    for case in cases.iter() {
        assert_eq!(parse_cv_ballot(case.input.clone()).unwrap(), case.expected,);
    }
}

#[test]
fn single_choice_parses() {
    assert_eq!(parse_cv_ballot("7".to_string()), Ok(vec![7]));
}

#[test]
fn leading_plus_is_accepted() {
    assert_eq!(parse_cv_ballot("+0 > +12".to_string()), Ok(vec![0, 12]));
}

#[test]
fn largest_u32_parses() {
    assert_eq!(parse_cv_ballot("4294967295 > 0".to_string()), Ok(vec![4294967295, 0]));
}

#[test]
fn number_over_u32_is_rejected() {
    assert_eq!(
        parse_cv_ballot("0 > 4294967296".to_string()),
        Err(ParseError::NotANumber { choice_index: 1 })
    );
}

#[test]
fn empty_part_is_rejected() {
    assert_eq!(
        parse_cv_ballot("1 >> 2".to_string()),
        Err(ParseError::NotANumber { choice_index: 1 })
    );
    assert_eq!(
        parse_cv_ballot("".to_string()),
        Err(ParseError::NotANumber { choice_index: 0 })
    );
}

#[test]
fn word_is_rejected() {
    assert_eq!(
        parse_cv_ballot("1 > two > 3".to_string()),
        Err(ParseError::NotANumber { choice_index: 1 })
    );
    assert_eq!(
        parse_cv_ballot("-1 > 2".to_string()),
        Err(ParseError::NotANumber { choice_index: 0 })
    );
    assert_eq!(
        parse_cv_ballot("1 2 > 3".to_string()),
        Err(ParseError::NotANumber { choice_index: 0 })
    );
}

#[test]
fn duplicate_is_rejected() {
    assert_eq!(
        parse_cv_ballot("1 > 2 > 1".to_string()),
        Err(ParseError::Duplicates)
    );
}

#[test]
fn unicode_space_is_trimmed() {
    assert_eq!(
        parse_cv_ballot("\u{a0}2\u{3000}>\t0 ".to_string()),
        Ok(vec![2, 0])
    );
}
