use puzzles::day_01;
use puzzles::text::SolveError;
use puzzles::day_03;
use puzzles::day_04;
use puzzles::day_06;
use puzzles::day_09;

#[test]
fn day_01_train_problem_1() {
    let input = "1abc2\npqr3stu8vwx\na1b2c3d4e5f\ntreb7uchet".to_string();
    assert_eq!(day_01::problem_1(input), 142);
}

#[test]
fn day_01_train_problem_2() {
    let input = "two1nine\neightwothree\nabcone2threexyz\nxtwone3four\n4nineeightseven2\nzoneight234\n7pqrstsixteen".to_string();
    assert_eq!(day_01::problem_2(input), 281);
}

#[test]
fn day_01_single_digit_counts_twice() {
    assert_eq!(day_01::problem_1("a5b".to_string()), 55);
}

#[test]
fn day_01_overlapping_spelled_digits() {
    // the names may overlap: "twone" reads as two and one
    assert_eq!(day_01::problem_2("twone".to_string()), 21);
}

const SCHEMATIC: &str = "467..114..\n\
...*......\n\
..35..633.\n\
......#...\n\
617*......\n\
.....+.58.\n\
..592.....\n\
......755.\n\
...$.*....\n\
.664.598..";

#[test]
fn day_03_train_problem_1() {
    assert_eq!(day_03::problem_1::solve(SCHEMATIC).unwrap(), 4361);
}

#[test]
fn day_03_train_problem_2() {
    assert_eq!(day_03::problem_2::solve(SCHEMATIC).unwrap(), 467835);
}

#[test]
fn day_03_number_at_line_end_counts() {
    let input = ".....\n..*42\n.....";
    assert_eq!(day_03::problem_1::solve(input).unwrap(), 42);
}

#[test]
fn day_03_no_symbols_no_parts() {
    let input = "12.34\n.....\n56.78";
    assert_eq!(day_03::problem_1::solve(input).unwrap(), 0);
    assert_eq!(day_03::problem_2::solve(input).unwrap(), 0);
}

const CARDS: &str = "Card 1: 41 48 83 86 17 | 83 86  6 31 17  9 48 53\n\
Card 2: 13 32 20 16 61 | 61 30 68 82 17 32 24 19\n\
Card 3:  1 21 53 59 44 | 69 82 63 72 16 21 14  1\n\
Card 4: 41 92 73 84 69 | 59 84 76 51 58  5 54 83\n\
Card 5: 87 83 26 28 32 | 88 30 70 12 93 22 82 36\n\
Card 6: 31 18 13 56 72 | 74 77 10 23 35 67 36 11";

#[test]
fn day_04_train_problem_1() {
    assert_eq!(day_04::problem_1::solve(CARDS).unwrap(), 13);
}

#[test]
fn day_04_train_problem_2() {
    assert_eq!(day_04::problem_2::solve(CARDS).unwrap(), 30);
}

#[test]
fn day_04_malformed_card_fails() {
    assert_eq!(
        day_04::problem_1::solve("Game 1: 1 2 | 3"),
        Err(SolveError::Malformed)
    );
    assert_eq!(
        day_04::problem_1::solve("Card 1: 1 x | 3"),
        Err(SolveError::Malformed)
    );
    assert_eq!(
        day_04::problem_1::solve("Card 1: 1 2 3"),
        Err(SolveError::Malformed)
    );
}

#[test]
fn day_04_duplicates_count_once() {
    // the own numbers form a set: a repeated match scores once
    assert_eq!(day_04::problem_1::solve("Card 1: 5 | 5 5 5").unwrap(), 1);
}

const RACES: &str = "Time:      7  15   30\nDistance:  9  40  200";

#[test]
fn day_06_train_problem_1() {
    assert_eq!(day_06::problem_1::solve(RACES).unwrap(), 288);
}

#[test]
fn day_06_train_problem_2() {
    assert_eq!(day_06::problem_2::solve(RACES).unwrap(), 71503);
}

#[test]
fn day_06_missing_line_fails() {
    assert_eq!(
        day_06::problem_2::solve("Time: 7"),
        Err(SolveError::Malformed)
    );
    assert_eq!(
        day_06::problem_1::solve("Time seven\nDistance: 9"),
        Err(SolveError::Malformed)
    );
}

#[test]
fn day_06_single_race_exact_count() {
    // duration 7, record 9: holds 2..=5 win
    let race = day_06::Race { duration: 7, record: 9 };
    assert_eq!(day_06::find_possible_solutions(race), 4);
}

const HISTORIES: &str = "0 3 6 9 12 15\n1 3 6 10 15 21\n10 13 16 21 30 45";

#[test]
fn day_09_train_problem_1() {
    assert_eq!(day_09::problem_1::solve(HISTORIES).unwrap(), 114);
}

#[test]
fn day_09_train_problem_2() {
    assert_eq!(day_09::problem_2::solve(HISTORIES).unwrap(), 2);
}

#[test]
fn day_09_negative_values() {
    assert_eq!(day_09::problem_1::solve("-3 -6 -9").unwrap(), -12);
}

#[test]
fn day_09_empty_line_fails() {
    assert_eq!(
        day_09::problem_1::solve("1 2 3\n\n4 5 6"),
        Err(SolveError::Malformed)
    );
    assert_eq!(
        day_09::problem_2::solve("1 x 3"),
        Err(SolveError::Malformed)
    );
}
