use puzzles::day_10::classify_flood;
use puzzles::day_10::classify_parity;
use puzzles::day_10::input_generator;
use puzzles::day_10::solve_1;
use puzzles::day_10::solve_2;
use puzzles::day_10::Dir;
use puzzles::day_10::GridError;
use puzzles::day_10::trace::first_valid_dir;
use puzzles::day_10::trace::trace_loop;

fn grid(lines: &[&str]) -> String {
    lines.join("\n")
}

#[test]
fn day_10_train_problem_1() {
    let input = grid(&["..F7.", ".FJ|.", "SJ.L7", "|F--J", "LJ..."]);
    let parsed = input_generator(&input).unwrap();
    assert_eq!(solve_1(&parsed).unwrap(), 8);
}

#[test]
fn day_10_train_problem_2() {
    let input = grid(&[
        "FF7FSF7F7F7F7F7F---7",
        "L|LJ||||||||||||F--J",
        "FL-7LJLJ||||||LJL-77",
        "F--JF--7||LJLJ7F7FJ-",
        "L---JF-JLJ.||-FJLJJ7",
        "|F|F-JF---7F7-L7L|7|",
        "|FFJF7L7F-JF7|JL---7",
        "7-L-JL7||F7|L7F-7F7|",
        "L.L7LFJ|||||FJL7||LJ",
        "L7JLJL-JLJLJL--JLJ.L",
    ]);
    let parsed = input_generator(&input).unwrap();
    assert_eq!(solve_2(&parsed).unwrap(), 10);
}

#[test]
fn day_10_simple_square_loop() {
    // a plain rectangular loop around one enclosed cell
    let input = grid(&[".....", ".S-7.", ".|.|.", ".L-J.", "....."]);
    let parsed = input_generator(&input).unwrap();
    assert_eq!(solve_1(&parsed).unwrap(), 4);
    let parsed = input_generator(&input).unwrap();
    assert_eq!(solve_2(&parsed).unwrap(), 1);
}

#[test]
fn day_10_square_loop_with_junk_tiles() {
    let input = grid(&["-L|F7", "7S-7|", "L|7||", "-L-J|", "L|-JF"]);
    let parsed = input_generator(&input).unwrap();
    assert_eq!(solve_1(&parsed).unwrap(), 4);
}

#[test]
fn day_10_four_enclosed_tiles() {
    let input = grid(&[
        "...........",
        ".S-------7.",
        ".|F-----7|.",
        ".||.....||.",
        ".||.....||.",
        ".|L-7.F-J|.",
        ".|..|.|..|.",
        ".L--J.L--J.",
        "...........",
    ]);
    let parsed = input_generator(&input).unwrap();
    assert_eq!(solve_2(&parsed).unwrap(), 4);
}

#[test]
fn day_10_eight_enclosed_tiles() {
    let input = grid(&[
        ".F----7F7F7F7F-7....",
        ".|F--7||||||||FJ....",
        ".||.FJ||||||||L7....",
        "FJL7L7LJLJ||LJ.L-7..",
        "L--J.L7...LJS7F-7L7.",
        "....F-J..F7FJ|L7L7L7",
        "....L7.F7||L7|.L7L7|",
        ".....|FJLJ|FJ|F7|.LJ",
        "....FJL-7.||.||||...",
        "....L---J.LJ.LJLJ...",
    ]);
    let parsed = input_generator(&input).unwrap();
    assert_eq!(solve_2(&parsed).unwrap(), 8);
}

#[test]
fn day_10_missing_start_fails() {
    let input = grid(&["F-7", "|.|", "L-J"]);
    match input_generator(&input) {
        Err(GridError::StartNotFound) => {}
        other => panic!("expected StartNotFound, got {:?}", other.map(|_| ())),
    }
}

#[test]
fn day_10_empty_input_fails() {
    match input_generator("") {
        Err(GridError::StartNotFound) => {}
        other => panic!("expected StartNotFound, got {:?}", other.map(|_| ())),
    }
}

#[test]
fn day_10_invalid_tile_fails() {
    match input_generator("S-X\n...") {
        Err(GridError::InvalidTile) => {}
        other => panic!("expected InvalidTile, got {:?}", other.map(|_| ())),
    }
}

#[test]
fn day_10_no_valid_direction_fails() {
    let input = grid(&["S..", "...", "..."]);
    let parsed = input_generator(&input).unwrap();
    match solve_1(&parsed) {
        Err(GridError::NoValidDirection) => {}
        other => panic!("expected NoValidDirection, got {:?}", other),
    }
}

#[test]
fn day_10_unclosed_loop_fails() {
    // the pipe out of the start runs off the grid's edge
    let input = grid(&["S-", ".."]);
    let parsed = input_generator(&input).unwrap();
    match solve_1(&parsed) {
        Err(GridError::LoopNotClosed) => {}
        other => panic!("expected LoopNotClosed, got {:?}", other),
    }
}

fn traced_loops(input: &str) -> Vec<(usize, Vec<(usize, usize)>)> {
    // trace from every valid initial direction, in the probe order
    let parsed = input_generator(input).unwrap();
    let mut runs = Vec::new();
    for dir in [Dir::North, Dir::East, Dir::South, Dir::West] {
        if let Some(pos) = parsed.space.move_position(&parsed.start, &dir) {
            let valid = match parsed.space.get(&pos) {
                Some(t) => t.redirect(&dir).is_ok(),
                None => false,
            };
            if valid {
                if let Ok(cells) = trace_loop(&parsed.space, pos, dir) {
                    runs.push((cells.len() + 1, cells));
                }
            }
        }
    }
    runs
}

#[test]
fn day_10_both_directions_agree() {
    // tracing from either valid initial direction gives the same loop
    for input in [
        grid(&["..F7.", ".FJ|.", "SJ.L7", "|F--J", "LJ..."]),
        grid(&[".....", ".S-7.", ".|.|.", ".L-J.", "....."]),
    ] {
        let runs = traced_loops(&input);
        assert_eq!(runs.len(), 2);
        let (len_a, mut cells_a) = runs[0].clone();
        let (len_b, mut cells_b) = runs[1].clone();
        assert_eq!(len_a, len_b);
        cells_a.sort();
        cells_b.sort();
        assert_eq!(cells_a, cells_b);
    }
}

fn classified(input: &str) -> (Vec<(usize, usize)>, Vec<(usize, usize)>, Vec<(usize, usize)>) {
    let parsed = input_generator(input).unwrap();
    let d0 = first_valid_dir(&parsed.space, parsed.start).unwrap();
    let pos0 = parsed.space.move_position(&parsed.start, &d0).unwrap();
    let visited = trace_loop(&parsed.space, pos0, d0).unwrap();
    let parity = classify_parity(&parsed.space, &visited, parsed.start);
    let flood = classify_flood(&parsed.space, &visited, parsed.start);
    let mut lp = visited;
    lp.push(parsed.start);
    (lp, parity, flood)
}

#[test]
fn day_10_classifiers_agree() {
    // the parity scan and the flood classifier give the same inside set on
    // grids whose outside region is connected through whole ground cells;
    // where free cells squeeze between two parallel pipes the flood
    // classifier counts them as enclosed while the crossing parity does not
    for input in [
        grid(&[".....", ".S-7.", ".|.|.", ".L-J.", "....."]),
        grid(&[
            "...........",
            ".S-------7.",
            ".|F-----7|.",
            ".||.....||.",
            ".||.....||.",
            ".|L-7.F-J|.",
            ".|..|.|..|.",
            ".L--J.L--J.",
            "...........",
        ]),
    ] {
        let (_, parity, flood) = classified(&input);
        assert_eq!(parity, flood);
    }
}

#[test]
fn day_10_flood_counts_squeezed_cells_as_inside() {
    // the same grids, squeezed shut: dropping the ground channel between the
    // two arms leaves cells the parity scan frees by squeezing, which the
    // flood classifier cannot reach
    let input = grid(&[
        ".F----7F7F7F7F-7....",
        ".|F--7||||||||FJ....",
        ".||.FJ||||||||L7....",
        "FJL7L7LJLJ||LJ.L-7..",
        "L--J.L7...LJS7F-7L7.",
        "....F-J..F7FJ|L7L7L7",
        "....L7.F7||L7|.L7L7|",
        ".....|FJLJ|FJ|F7|.LJ",
        "....FJL-7.||.||||...",
        "....L---J.LJ.LJLJ...",
    ]);
    let (_, parity, flood) = classified(&input);
    assert_eq!(parity.len(), 8);
    assert!(flood.len() >= parity.len());
    for p in parity.iter() {
        assert!(flood.contains(p));
    }
}

#[test]
fn day_10_partition() {
    // every cell is on the loop, inside, or outside — never two of them
    let input = grid(&[
        "...........",
        ".S-------7.",
        ".|F-----7|.",
        ".||.....||.",
        ".||.....||.",
        ".|L-7.F-J|.",
        ".|..|.|..|.",
        ".L--J.L--J.",
        "...........",
    ]);
    let (lp, _, flood) = classified(&input);
    let h = 9usize;
    let w = 11usize;
    let mut outside = 0usize;
    let mut on_loop = 0usize;
    let mut inside = 0usize;
    for r in 0..h {
        for c in 0..w {
            let in_lp = lp.contains(&(r, c));
            let in_flood = flood.contains(&(r, c));
            assert!(!(in_lp && in_flood));
            if in_lp {
                on_loop += 1;
            } else if in_flood {
                inside += 1;
            } else {
                outside += 1;
            }
        }
    }
    assert_eq!(on_loop + inside + outside, h * w);
    assert_eq!(inside, 4);
}

#[test]
fn day_10_loop_on_border_keeps_inside_small() {
    // the loop hugs the outer border: everything beside it is outside
    let input = grid(&["S7.", "LJ."]);
    let parsed = input_generator(&input).unwrap();
    assert_eq!(solve_2(&parsed).unwrap(), 0);
    let (_, parity, flood) = classified(&input);
    assert!(parity.is_empty());
    assert!(flood.is_empty());
}
