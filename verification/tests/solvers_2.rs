use puzzles::day_02;
use puzzles::day_05;
use puzzles::day_07;
use puzzles::day_08;
use puzzles::text::SolveError;

const GAMES: &str = "Game 1: 3 blue, 4 red; 1 red, 2 green, 6 blue; 2 green\n\
Game 2: 1 blue, 2 green; 3 green, 4 blue, 1 red; 1 green, 1 blue\n\
Game 3: 8 green, 6 blue, 20 red; 5 blue, 4 red, 13 green; 5 green, 1 red\n\
Game 4: 1 green, 3 red, 6 blue; 3 green, 6 red; 3 green, 15 blue, 14 red\n\
Game 5: 6 red, 1 blue, 3 green; 2 blue, 1 red, 2 green";

#[test]
fn day_02_train_problem_1() {
    assert_eq!(day_02::problem_1::solve(GAMES).unwrap(), 8);
}

#[test]
fn day_02_train_problem_2() {
    assert_eq!(day_02::problem_2::solve(GAMES).unwrap(), 2286);
}

#[test]
fn day_02_last_count_wins_within_round() {
    // a colour named twice in one round keeps its later count
    assert_eq!(day_02::problem_1::solve("Game 7: 20 red, 1 red").unwrap(), 7);
}

#[test]
fn day_02_malformed_game_fails() {
    assert_eq!(
        day_02::problem_1::solve("Play 1: 1 red"),
        Err(SolveError::Malformed)
    );
    assert_eq!(
        day_02::problem_1::solve("Game 1: 1 yellow"),
        Err(SolveError::Malformed)
    );
    assert_eq!(
        day_02::problem_2::solve("Game 1: red 1"),
        Err(SolveError::Malformed)
    );
}

const ALMANAC: &str = "seeds: 79 14 55 13\n\
\n\
seed-to-soil map:\n\
50 98 2\n\
52 50 48\n\
\n\
soil-to-fertilizer map:\n\
0 15 37\n\
37 52 2\n\
39 0 15\n\
\n\
fertilizer-to-water map:\n\
49 53 8\n\
0 11 42\n\
42 0 7\n\
57 7 4\n\
\n\
water-to-light map:\n\
88 18 7\n\
18 25 70\n\
\n\
light-to-temperature map:\n\
45 77 23\n\
81 45 19\n\
68 64 13\n\
\n\
temperature-to-humidity map:\n\
0 69 1\n\
1 0 69\n\
\n\
humidity-to-location map:\n\
60 56 37\n\
56 93 4";

#[test]
fn day_05_train_problem_1() {
    assert_eq!(day_05::problem_1::solve(ALMANAC).unwrap(), 35);
}

#[test]
fn day_05_train_problem_2() {
    assert_eq!(day_05::problem_2::solve(ALMANAC).unwrap(), 46);
}

#[test]
fn day_05_unmapped_seed_passes_through() {
    let input = "seeds: 10\n\n a map:\n100 50 3";
    assert_eq!(day_05::problem_1::solve(input).unwrap(), 10);
}

#[test]
fn day_05_malformed_fails() {
    assert_eq!(
        day_05::problem_1::solve("no colon here"),
        Err(SolveError::Malformed)
    );
    assert_eq!(
        day_05::problem_1::solve("seeds: 1\nnot blank\n"),
        Err(SolveError::Malformed)
    );
    assert_eq!(
        day_05::problem_1::solve("seeds: 1\n\n50 98"),
        Err(SolveError::Malformed)
    );
    // ranges need an even number of seed values
    assert_eq!(
        day_05::problem_2::solve("seeds: 1 2 3\n\n"),
        Err(SolveError::Malformed)
    );
}

const HANDS: &str = "32T3K 765\nT55J5 684\nKK677 28\nKTJJT 220\nQQQJA 483";

#[test]
fn day_07_train_problem_1() {
    assert_eq!(day_07::problem_1::solve(HANDS).unwrap(), 6440);
}

#[test]
fn day_07_train_problem_2() {
    assert_eq!(day_07::problem_2::solve(HANDS).unwrap(), 5905);
}

#[test]
fn day_07_full_house_beats_flush_of_types() {
    // one full house against one three of a kind
    let input = "77788 10\n77789 1";
    // the three of a kind ranks first, the full house second
    assert_eq!(day_07::problem_1::solve(input).unwrap(), 1 + 2 * 10);
}

#[test]
fn day_07_jokers_strengthen_the_type_but_rank_lowest() {
    // JKKK2 loses to QQQQ2: the wild hand's first card is weaker
    let input = "JKKK2 10\nQQQQ2 1";
    assert_eq!(day_07::problem_2::solve(input).unwrap(), 10 + 2 * 1);
}

#[test]
fn day_07_malformed_hand_fails() {
    assert_eq!(
        day_07::problem_1::solve("32T3 765"),
        Err(SolveError::Malformed)
    );
    assert_eq!(
        day_07::problem_1::solve("32T3X 765"),
        Err(SolveError::Malformed)
    );
    assert_eq!(
        day_07::problem_1::solve("32T3K bid"),
        Err(SolveError::Malformed)
    );
}

const NETWORK_1: &str = "RL\n\
\n\
AAA = (BBB, CCC)\n\
BBB = (DDD, EEE)\n\
CCC = (ZZZ, GGG)\n\
DDD = (DDD, DDD)\n\
EEE = (EEE, EEE)\n\
GGG = (GGG, GGG)\n\
ZZZ = (ZZZ, ZZZ)";

const NETWORK_2: &str = "LLR\n\
\n\
AAA = (BBB, BBB)\n\
BBB = (AAA, ZZZ)\n\
ZZZ = (ZZZ, ZZZ)";

const NETWORK_GHOSTS: &str = "LR\n\
\n\
11A = (11B, XXX)\n\
11B = (XXX, 11Z)\n\
11Z = (11B, XXX)\n\
22A = (22B, XXX)\n\
22B = (22C, 22C)\n\
22C = (22Z, 22Z)\n\
22Z = (22B, 22B)\n\
XXX = (XXX, XXX)";

#[test]
fn day_08_train_problem_1_1() {
    let data = day_08::input_generator(NETWORK_1).unwrap();
    assert_eq!(day_08::solve_1(&data).unwrap(), 2);
}

#[test]
fn day_08_train_problem_1_2() {
    let data = day_08::input_generator(NETWORK_2).unwrap();
    assert_eq!(day_08::solve_1(&data).unwrap(), 6);
}

#[test]
fn day_08_train_problem_2() {
    let data = day_08::input_generator(NETWORK_GHOSTS).unwrap();
    assert_eq!(day_08::solve_2(&data).unwrap(), 6);
}

#[test]
fn day_08_unreachable_goal_fails() {
    let data = day_08::input_generator("RL\n\nAAA = (BBB, BBB)\nBBB = (AAA, AAA)").unwrap();
    assert_eq!(day_08::solve_1(&data), Err(SolveError::Unsolvable));
}

#[test]
fn day_08_walk_off_the_network_fails() {
    let data = day_08::input_generator("RL\n\nAAA = (QQQ, QQQ)").unwrap();
    assert_eq!(day_08::solve_1(&data), Err(SolveError::Unsolvable));
}

#[test]
fn day_08_malformed_node_line_fails() {
    assert_eq!(
        day_08::input_generator("RL\n\nAAA -> (BBB, CCC)").err(),
        Some(SolveError::Malformed)
    );
    assert_eq!(
        day_08::input_generator("RX\n\nAAA = (BBB, CCC)").err(),
        Some(SolveError::Malformed)
    );
}

#[test]
fn day_08_gcd_and_lcm() {
    assert_eq!(day_08::gcd(12, 18), 6);
    assert_eq!(day_08::gcd(7, 0), 7);
    assert_eq!(day_08::lcm(4, 6), Some(12));
    assert_eq!(day_08::lcm(0, 5), Some(0));
    assert_eq!(day_08::lcm(usize::MAX, 2), None);
}

#[test]
fn day_04_score_overflow_fails() {
    // 66 distinct matches double the score past the result type
    let mut line = String::from("Card 1:");
    for n in 1..=66 {
        line.push_str(&format!(" {}", n));
    }
    line.push_str(" |");
    for n in 1..=66 {
        line.push_str(&format!(" {}", n));
    }
    assert_eq!(
        puzzles::day_04::problem_1::solve(&line),
        Err(SolveError::Overflow)
    );
}

#[test]
fn day_09_delta_overflow_fails() {
    let input = "-9223372036854775807 9223372036854775807";
    assert_eq!(
        puzzles::day_09::problem_1::solve(input),
        Err(SolveError::Overflow)
    );
}
