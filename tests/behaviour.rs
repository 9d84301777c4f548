use mars_rover::rover::{
    map_to_command, parse_position, parse_world, Command, Direction, Position, Rover,
    RoverError, World,
};
use mars_rover::text::{is_whitespace_char, parse_i32, split_tokens};

fn chars(s: &str) -> Vec<char> {
    s.chars().collect()
}

fn rover_at(x: i32, y: i32, d: Direction, wx: i32, wy: i32) -> Rover {
    Rover::new(Position { x, y }, d, World { x: wx, y: wy })
}

#[test]
fn left_four_times_returns() {
    for start in [Direction::North, Direction::East, Direction::South, Direction::West] {
        let mut d = start;
        d.left();
        d.left();
        d.left();
        d.left();
        assert_eq!(d, start);
    }
}

#[test]
fn right_four_times_returns() {
    for start in [Direction::North, Direction::East, Direction::South, Direction::West] {
        let mut d = start;
        d.right();
        d.right();
        d.right();
        d.right();
        assert_eq!(d, start);
    }
}

#[test]
fn left_and_right_undo_each_other() {
    for start in [Direction::North, Direction::East, Direction::South, Direction::West] {
        let mut d = start;
        d.left();
        d.right();
        assert_eq!(d, start);
        d.right();
        d.left();
        assert_eq!(d, start);
    }
}

#[test]
fn left_and_right_steps() {
    let mut d = Direction::North;
    d.left();
    assert_eq!(d, Direction::West);
    d.left();
    assert_eq!(d, Direction::South);
    d.left();
    assert_eq!(d, Direction::East);
    let mut e = Direction::North;
    e.right();
    assert_eq!(e, Direction::East);
    e.right();
    assert_eq!(e, Direction::South);
}

#[test]
fn forward_moves_one_cell_each_way() {
    let w = World { x: 5, y: 5 };
    let cases = [
        (Direction::North, Position { x: 2, y: 3 }),
        (Direction::East, Position { x: 3, y: 2 }),
        (Direction::South, Position { x: 2, y: 1 }),
        (Direction::West, Position { x: 1, y: 2 }),
    ];
    for (d, expected) in cases {
        let mut p = Position { x: 2, y: 2 };
        p.forward(d, w);
        assert_eq!(p, expected);
    }
}

#[test]
fn forward_clamps_at_east_edge() {
    let mut p = Position { x: 5, y: 0 };
    p.forward(Direction::East, World { x: 5, y: 5 });
    assert_eq!(p, Position { x: 5, y: 0 });
}

#[test]
fn forward_clamps_at_north_edge() {
    let mut p = Position { x: 3, y: 5 };
    p.forward(Direction::North, World { x: 5, y: 5 });
    assert_eq!(p, Position { x: 3, y: 5 });
}

#[test]
fn forward_clamps_at_origin_west_and_south() {
    for d in [Direction::West, Direction::South] {
        let mut p = Position { x: 0, y: 0 };
        p.forward(d, World { x: 5, y: 5 });
        assert_eq!(p, Position { x: 0, y: 0 });
    }
}

#[test]
fn forward_at_largest_coordinate_does_not_overflow() {
    let mut p = Position { x: i32::MAX, y: i32::MAX };
    p.forward(Direction::East, World { x: i32::MAX, y: i32::MAX });
    assert_eq!(p, Position { x: i32::MAX, y: i32::MAX });
    p.forward(Direction::North, World { x: i32::MAX, y: i32::MAX });
    assert_eq!(p, Position { x: i32::MAX, y: i32::MAX });
}

#[test]
fn forward_out_of_world_axis_is_independent() {
    // x lies outside the world, so the x move is refused; y still moves.
    let mut p = Position { x: 9, y: 1 };
    p.forward(Direction::East, World { x: 5, y: 5 });
    assert_eq!(p, Position { x: 9, y: 1 });
    p.forward(Direction::North, World { x: 5, y: 5 });
    assert_eq!(p, Position { x: 9, y: 2 });
}

#[test]
fn invalid_command_anywhere_leaves_rover_unchanged() {
    for input in ["XMM", "MMXLL", "LMRMMQ", "m"] {
        let mut r = rover_at(1, 2, Direction::North, 5, 5);
        let result = r.run_to_end(input);
        assert!(result.is_err());
        assert_eq!(r.position, Position { x: 1, y: 2 });
        assert_eq!(r.direction, Direction::North);
        assert_eq!(r.world, World { x: 5, y: 5 });
    }
}

#[test]
fn invalid_command_reports_first_bad_character() {
    let mut r = rover_at(0, 0, Direction::East, 5, 5);
    assert_eq!(
        r.run_to_end("MMZLY"),
        Err(RoverError::InvalidCommand { found: 'Z' })
    );
}

#[test]
fn empty_command_string_is_a_no_op() {
    let mut r = rover_at(3, 4, Direction::South, 5, 5);
    assert_eq!(r.run_to_end(""), Ok(()));
    assert_eq!(r.position, Position { x: 3, y: 4 });
    assert_eq!(r.direction, Direction::South);
}

#[test]
fn rover_a_reference_scenario() {
    let world = parse_world("5 5").unwrap();
    let (p, d) = parse_position("1 2 N").unwrap();
    let mut r = Rover::new(p, d, world);
    assert_eq!(r.run_to_end("LMLMLMLMM"), Ok(()));
    assert_eq!(r.position, Position { x: 1, y: 3 });
    assert_eq!(r.direction, Direction::North);
}

#[test]
fn rover_b_reference_scenario() {
    let world = parse_world("5 5").unwrap();
    let (p, d) = parse_position("3 3 E").unwrap();
    let mut r = Rover::new(p, d, world);
    assert_eq!(r.run_to_end("MMRMMRMRRM"), Ok(()));
    assert_eq!(r.position, Position { x: 5, y: 1 });
    assert_eq!(r.direction, Direction::East);
}

#[test]
fn run_clamps_against_walls() {
    let mut r = rover_at(0, 0, Direction::North, 2, 2);
    assert_eq!(r.run_to_end("MMMMRMMMMM"), Ok(()));
    assert_eq!(r.position, Position { x: 2, y: 2 });
    assert_eq!(r.direction, Direction::East);
}

#[test]
fn map_to_command_decodes_each_letter() {
    assert_eq!(map_to_command('M'), Ok(Command::Forward));
    assert_eq!(map_to_command('L'), Ok(Command::Left));
    assert_eq!(map_to_command('R'), Ok(Command::Right));
    assert_eq!(map_to_command('l'), Err(RoverError::InvalidCommand { found: 'l' }));
    assert_eq!(map_to_command(' '), Err(RoverError::InvalidCommand { found: ' ' }));
}

#[test]
fn parsing_twice_gives_equal_results() {
    for line in ["5 5", "12 -3", "x 4", "7 y"] {
        assert_eq!(parse_world(line), parse_world(line));
    }
    for line in ["1 5 E", "0 0 Q", "a 1 N", "2 b S"] {
        assert_eq!(parse_position(line), parse_position(line));
    }
}

#[test]
fn parse_world_reports_bad_tokens() {
    assert_eq!(parse_world("x 5"), Err(RoverError::Parse { token: 0 }));
    assert_eq!(parse_world("5 y"), Err(RoverError::Parse { token: 1 }));
    assert_eq!(parse_world("a b"), Err(RoverError::Parse { token: 0 }));
    assert_eq!(parse_world("2147483648 1"), Err(RoverError::Parse { token: 0 }));
}

#[test]
fn parse_world_accepts_spacing_and_signs() {
    assert_eq!(parse_world("  7\t\t+8  extra"), Ok(World { x: 7, y: 8 }));
    assert_eq!(parse_world("-2147483648 2147483647"), Ok(World { x: i32::MIN, y: i32::MAX }));
    assert_eq!(parse_world("4\u{3000}6"), Ok(World { x: 4, y: 6 }));
}

#[test]
fn parse_position_headings() {
    assert_eq!(parse_position("1 2 N"), Ok((Position { x: 1, y: 2 }, Direction::North)));
    assert_eq!(parse_position("1 2 E"), Ok((Position { x: 1, y: 2 }, Direction::East)));
    assert_eq!(parse_position("1 2 S"), Ok((Position { x: 1, y: 2 }, Direction::South)));
    assert_eq!(parse_position("1 2 W"), Ok((Position { x: 1, y: 2 }, Direction::West)));
}

#[test]
fn parse_position_unknown_heading_is_north() {
    assert_eq!(parse_position("4 0 Q"), Ok((Position { x: 4, y: 0 }, Direction::North)));
    assert_eq!(parse_position("4 0 EE"), Ok((Position { x: 4, y: 0 }, Direction::North)));
    assert_eq!(parse_position("4 0 e"), Ok((Position { x: 4, y: 0 }, Direction::North)));
}

#[test]
fn parse_position_reports_bad_tokens() {
    assert_eq!(parse_position("one 2 N"), Err(RoverError::Parse { token: 0 }));
    assert_eq!(parse_position("1 2.5 N"), Err(RoverError::Parse { token: 1 }));
}

#[test]
fn split_tokens_on_whitespace_runs() {
    assert_eq!(
        split_tokens("  ab \t c\n\u{2003}de  "),
        vec![chars("ab"), chars("c"), chars("de")]
    );
    assert_eq!(split_tokens(""), Vec::<Vec<char>>::new());
    assert_eq!(split_tokens(" \t "), Vec::<Vec<char>>::new());
}

#[test]
fn split_tokens_matches_std_split() {
    let line = "1\u{a0}2 \u{85}3\u{1680}4\u{205f}x\u{3000}";
    let expected: Vec<Vec<char>> = line.split_whitespace().map(chars).collect();
    assert_eq!(split_tokens(line), expected);
}

#[test]
fn whitespace_classes() {
    for c in [' ', '\t', '\n', '\r', '\u{b}', '\u{c}', '\u{85}', '\u{a0}', '\u{2000}', '\u{200a}', '\u{3000}'] {
        assert!(is_whitespace_char(c));
        assert!(c.is_whitespace());
    }
    for c in ['a', '0', '\u{200b}', '_', '\u{1f}'] {
        assert!(!is_whitespace_char(c));
        assert!(!c.is_whitespace());
    }
}

#[test]
fn parse_i32_cases() {
    assert_eq!(parse_i32(&chars("0")), Some(0));
    assert_eq!(parse_i32(&chars("42")), Some(42));
    assert_eq!(parse_i32(&chars("+42")), Some(42));
    assert_eq!(parse_i32(&chars("-42")), Some(-42));
    assert_eq!(parse_i32(&chars("007")), Some(7));
    assert_eq!(parse_i32(&chars("2147483647")), Some(i32::MAX));
    assert_eq!(parse_i32(&chars("-2147483648")), Some(i32::MIN));
    assert_eq!(parse_i32(&chars("2147483648")), None);
    assert_eq!(parse_i32(&chars("-2147483649")), None);
    assert_eq!(parse_i32(&chars("99999999999999999999")), None);
    assert_eq!(parse_i32(&chars("")), None);
    assert_eq!(parse_i32(&chars("-")), None);
    assert_eq!(parse_i32(&chars("+")), None);
    assert_eq!(parse_i32(&chars("1a")), None);
    assert_eq!(parse_i32(&chars("+-1")), None);
}

#[test]
fn parse_i32_agrees_with_std() {
    for s in ["12", "-0", "+5", "2147483647", "2147483648", "-2147483648", "12x", "", "-", "٣"] {
        assert_eq!(parse_i32(&chars(s)), s.parse::<i32>().ok());
    }
}
