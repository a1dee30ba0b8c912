use colony::error::ColonyError;
use colony::input::{read_number, read_numbers, read_tuple};
use colony::scenario::{inspect, verdict_line};

#[test]
fn small_scenarios_end_to_end() {
    assert_eq!(inspect(2, &vec![(1, 2)]), Ok(true));
    assert_eq!(inspect(3, &vec![(1, 2), (2, 3), (3, 1)]), Ok(false));
    assert_eq!(inspect(4, &vec![(1, 2), (2, 3), (3, 4), (4, 1)]), Ok(true));
}

#[test]
fn scenarios_without_interactions_are_suspicious() {
    assert_eq!(inspect(0, &vec![]), Ok(true));
    assert_eq!(inspect(3, &vec![]), Ok(true));
}

#[test]
fn scenarios_count_bugs_from_one() {
    assert_eq!(inspect(2, &vec![(0, 1)]), Err(ColonyError::OutOfRange));
    assert_eq!(inspect(2, &vec![(1, 0)]), Err(ColonyError::OutOfRange));
    assert_eq!(inspect(2, &vec![(2, 3)]), Err(ColonyError::OutOfRange));
    assert_eq!(inspect(2, &vec![(3, 1)]), Err(ColonyError::OutOfRange));
    assert_eq!(inspect(2, &vec![(1, 2), (1, 2), (usize::MAX, 1)]), Err(ColonyError::OutOfRange));
    assert_eq!(inspect(0, &vec![(1, 1)]), Err(ColonyError::OutOfRange));
    assert_eq!(inspect(2, &vec![(2, 2)]), Ok(false));
    assert_eq!(inspect(2, &vec![(2, 1)]), Ok(true));
}

#[test]
fn scenarios_judge_each_component() {
    assert_eq!(inspect(5, &vec![(1, 2), (3, 4), (4, 5), (5, 3)]), Ok(false));
    assert_eq!(inspect(6, &vec![(1, 2), (3, 4), (4, 5), (5, 6), (6, 3)]), Ok(true));
}

#[test]
fn verdicts_have_their_lines() {
    assert_eq!(verdict_line(true), "Suspicious bugs found!");
    assert_eq!(verdict_line(false), "No suspicious bugs found!");
}

#[test]
fn a_pair_is_two_numbers_on_a_line() {
    assert_eq!(read_tuple("3 4"), Ok((3, 4)));
    assert_eq!(read_tuple("3 4\n"), Ok((3, 4)));
    assert_eq!(read_tuple("  12\t 0034 \r\n"), Ok((12, 34)));
    assert_eq!(read_tuple("+5 7"), Ok((5, 7)));
    assert_eq!(read_tuple("0 0"), Ok((0, 0)));
    assert_eq!(read_tuple("1 2 3"), Ok((1, 2)));
    assert_eq!(read_tuple("2000 1000000"), Ok((2000, 1000000)));
}

#[test]
fn a_pair_needs_two_numbers_and_only_numbers() {
    assert_eq!(read_tuple(""), Err(ColonyError::MalformedInput));
    assert_eq!(read_tuple("   \n"), Err(ColonyError::MalformedInput));
    assert_eq!(read_tuple("7"), Err(ColonyError::MalformedInput));
    assert_eq!(read_tuple("7 x"), Err(ColonyError::MalformedInput));
    assert_eq!(read_tuple("x 7"), Err(ColonyError::MalformedInput));
    assert_eq!(read_tuple("1 2 x"), Err(ColonyError::MalformedInput));
    assert_eq!(read_tuple("1,2"), Err(ColonyError::MalformedInput));
    assert_eq!(read_tuple("-1 2"), Err(ColonyError::MalformedInput));
    assert_eq!(read_tuple("1 +"), Err(ColonyError::MalformedInput));
    assert_eq!(read_tuple("1 ++2"), Err(ColonyError::MalformedInput));
    assert_eq!(read_tuple("1 2+"), Err(ColonyError::MalformedInput));
    assert_eq!(read_tuple("1 2.0"), Err(ColonyError::MalformedInput));
    assert_eq!(read_tuple("1 0x10"), Err(ColonyError::MalformedInput));
    assert_eq!(read_tuple("1 \u{e9}"), Err(ColonyError::MalformedInput));
    assert_eq!(read_tuple("1\u{a0}2"), Err(ColonyError::MalformedInput));
}

#[test]
fn numbers_must_fit_the_machine_word() {
    let most = usize::MAX.to_string();
    assert_eq!(read_number(&most), Ok(usize::MAX));
    assert_eq!(read_number(&format!("000{}", most)), Ok(usize::MAX));
    let mut too_much = most.clone();
    too_much.push('0');
    assert_eq!(read_number(&too_much), Err(ColonyError::MalformedInput));
    let mut just_over = most.clone();
    let last = just_over.pop().unwrap();
    just_over.push(char::from_digit(last.to_digit(10).unwrap() + 1, 10).unwrap());
    assert_eq!(read_number(&just_over), Err(ColonyError::MalformedInput));
    assert_eq!(
        read_tuple("1 340282366920938463463374607431768211456"),
        Err(ColonyError::MalformedInput)
    );
}

#[test]
fn a_number_is_alone_on_its_line() {
    assert_eq!(read_number("12"), Ok(12));
    assert_eq!(read_number(" 12 \n"), Ok(12));
    assert_eq!(read_number("+0"), Ok(0));
    assert_eq!(read_number("007"), Ok(7));
    assert_eq!(read_number(""), Err(ColonyError::MalformedInput));
    assert_eq!(read_number("\n"), Err(ColonyError::MalformedInput));
    assert_eq!(read_number("1 2"), Err(ColonyError::MalformedInput));
    assert_eq!(read_number("twelve"), Err(ColonyError::MalformedInput));
    assert_eq!(read_number("+"), Err(ColonyError::MalformedInput));
}

#[test]
fn all_the_numbers_of_a_line_are_read_in_order() {
    assert_eq!(read_numbers(""), Ok(vec![]));
    assert_eq!(read_numbers(" \t "), Ok(vec![]));
    assert_eq!(read_numbers("5"), Ok(vec![5]));
    assert_eq!(read_numbers("3 1 2"), Ok(vec![3, 1, 2]));
    assert_eq!(read_numbers("10\x0b20\x0c30"), Ok(vec![10, 20, 30]));
    assert_eq!(read_numbers("3 one 2"), Err(ColonyError::MalformedInput));
}

#[test]
fn lines_lead_to_verdicts() {
    let lines = ["3 3", "1 2", "2 3", "1 3"];
    let (size, count) = read_tuple(lines[0]).unwrap();
    let mut pairs = Vec::new();
    for line in &lines[1..] {
        pairs.push(read_tuple(line).unwrap());
    }
    assert_eq!(pairs.len(), count);
    let verdict = inspect(size, &pairs).unwrap();
    assert_eq!(verdict_line(verdict), "No suspicious bugs found!");
}
