use vstd::prelude::*;
use crate::text::{i32_of, parse_i32, split_tokens, tokens};

verus! {

/// A grid cell.
#[derive(PartialEq, Eq, Structural, Debug, Clone, Copy)]
pub struct Position {
    pub x: i32,
    pub y: i32,
}

/// The inclusive bounds of a grid anchored at the origin: cells `(0, 0)` to `(x, y)`.
#[derive(PartialEq, Eq, Structural, Debug, Clone, Copy)]
pub struct World {
    pub x: i32,
    pub y: i32,
}

impl World {
    pub open spec fn contains(self, p: Position) -> bool {
        0 <= p.x <= self.x && 0 <= p.y <= self.y
    }
}

/// One coordinate after a unit step `d`: moved when the result stays within `[0, max]`,
/// unchanged otherwise.
pub open spec fn clamped_step(v: int, d: int, max: int) -> int {
    if 0 <= v + d <= max {
        v + d
    } else {
        v
    }
}

impl Position {
    /// The cell reached by one forward move, each axis clamped on its own.
    pub open spec fn moved(self, d: Direction, w: World) -> Position {
        Position {
            x: clamped_step(self.x as int, d.dx(), w.x as int) as i32,
            y: clamped_step(self.y as int, d.dy(), w.y as int) as i32,
        }
    }

    /// Moves one cell towards `direction`; an axis on which the move would leave `world`
    /// keeps its coordinate.
    pub fn forward(&mut self, direction: Direction, world: World)
        ensures
            *final(self) == old(self).moved(direction, world),
    {
        let diff: (i64, i64) = match direction {
            Direction::North => (0, 1),
            Direction::East => (1, 0),
            Direction::South => (0, -1),
            Direction::West => (-1, 0),
        };
        let nx = self.x as i64 + diff.0;
        if 0 <= nx && nx <= world.x as i64 {
            self.x = nx as i32;
        }
        let ny = self.y as i64 + diff.1;
        if 0 <= ny && ny <= world.y as i64 {
            self.y = ny as i32;
        }
    }
}

/// A compass heading.
#[derive(PartialEq, Eq, Structural, Debug, Clone, Copy)]
pub enum Direction {
    North,
    East,
    South,
    West,
}

impl Direction {
    /// The heading one quarter turn counter-clockwise.
    pub open spec fn turned_left(self) -> Direction {
        match self {
            Direction::North => Direction::West,
            Direction::East => Direction::North,
            Direction::South => Direction::East,
            Direction::West => Direction::South,
        }
    }

    /// The heading one quarter turn clockwise.
    pub open spec fn turned_right(self) -> Direction {
        match self {
            Direction::North => Direction::East,
            Direction::East => Direction::South,
            Direction::South => Direction::West,
            Direction::West => Direction::North,
        }
    }

    /// The unit displacement along x of a move towards this heading.
    pub open spec fn dx(self) -> int {
        match self {
            Direction::East => 1,
            Direction::West => -1,
            _ => 0,
        }
    }

    /// The unit displacement along y of a move towards this heading.
    pub open spec fn dy(self) -> int {
        match self {
            Direction::North => 1,
            Direction::South => -1,
            _ => 0,
        }
    }

    /// Rotates counter-clockwise: North, West, South, East, North.
    pub fn left(&mut self)
        ensures
            *final(self) == old(self).turned_left(),
    {
        *self = match *self {
            Direction::North => Direction::West,
            Direction::East => Direction::North,
            Direction::South => Direction::East,
            Direction::West => Direction::South,
        }
    }

    /// Rotates clockwise: North, East, South, West, North.
    pub fn right(&mut self)
        ensures
            *final(self) == old(self).turned_right(),
    {
        *self = match *self {
            Direction::North => Direction::East,
            Direction::East => Direction::South,
            Direction::South => Direction::West,
            Direction::West => Direction::North,
        }
    }
}

/// Why a line or a command string was rejected.
#[derive(PartialEq, Eq, Structural, Debug, Clone, Copy)]
pub enum RoverError {
    /// The token at this index of the line is not an `i32`.
    Parse { token: usize },
    /// This character is not one of `L`, `R`, `M`.
    InvalidCommand { found: char },
}

/// One decoded instruction.
#[derive(PartialEq, Eq, Structural, Debug, Clone, Copy)]
pub enum Command {
    Left,
    Right,
    Forward,
}

/// The command that a character stands for.
pub open spec fn command_of(c: char) -> Result<Command, RoverError> {
    if c == 'M' {
        Ok(Command::Forward)
    } else if c == 'R' {
        Ok(Command::Right)
    } else if c == 'L' {
        Ok(Command::Left)
    } else {
        Err(RoverError::InvalidCommand { found: c })
    }
}

/// The commands that `s` spells, or the error for its first character that spells none.
pub open spec fn commands_of(s: Seq<char>) -> Result<Seq<Command>, RoverError>
    decreases s.len(),
{
    if s.len() == 0 {
        Ok(seq![])
    } else {
        match commands_of(s.drop_last()) {
            Ok(cs) => match command_of(s.last()) {
                Ok(c) => Ok(cs.push(c)),
                Err(e) => Err(e),
            },
            Err(e) => Err(e),
        }
    }
}

/// Decodes one character: `M` is Forward, `L` Left, `R` Right; any other is rejected.
pub fn map_to_command(c: char) -> (r: Result<Command, RoverError>)
    ensures
        r == command_of(c),
{
    match c {
        'M' => Ok(Command::Forward),
        'R' => Ok(Command::Right),
        'L' => Ok(Command::Left),
        _ => Err(RoverError::InvalidCommand { found: c }),
    }
}

/// Decodes a whole command string before anything is executed.
fn decode_commands(input: &str) -> (r: Result<Vec<Command>, RoverError>)
    ensures
        match commands_of(input@) {
            Ok(cs) => r is Ok && r->Ok_0@ == cs,
            Err(e) => r == Err::<Vec<Command>, RoverError>(e),
        },
{
    let ghost s = input@;
    let n = input.unicode_len();
    let mut out: Vec<Command> = Vec::new();
    let mut i: usize = 0;
    while i < n
        invariant
            n == s.len(),
            s == input@,
            0 <= i <= n,
            commands_of(s.take(i as int)) == Ok::<Seq<Command>, RoverError>(out@),
        decreases n - i,
    {
        let c = input.get_char(i);
        assert(s.take(i + 1).drop_last() =~= s.take(i as int));
        match map_to_command(c) {
            Ok(cmd) => {
                out.push(cmd);
            },
            Err(e) => {
                proof {
                    lemma_commands_error_persists(s, i + 1);
                }
                return Err(e);
            },
        }
        i += 1;
    }
    assert(s.take(n as int) =~= s);
    Ok(out)
}

/// Once a prefix fails to decode, so does every longer prefix, with the same error.
proof fn lemma_commands_error_persists(s: Seq<char>, j: int)
    requires
        0 <= j <= s.len(),
        commands_of(s.take(j)) is Err,
    ensures
        commands_of(s) == commands_of(s.take(j)),
    decreases s.len() - j,
{
    if j < s.len() {
        assert(s.take(j + 1).drop_last() =~= s.take(j));
        lemma_commands_error_persists(s, j + 1);
    } else {
        assert(s.take(j) =~= s);
    }
}

/// A rover on a grid: where it stands, where it faces, and the grid's bounds.
pub struct Rover {
    pub position: Position,
    pub direction: Direction,
    pub world: World,
}

impl Rover {
    /// The rover after one command.
    pub open spec fn after(self, c: Command) -> Rover {
        match c {
            Command::Left => Rover { direction: self.direction.turned_left(), ..self },
            Command::Right => Rover { direction: self.direction.turned_right(), ..self },
            Command::Forward => Rover {
                position: self.position.moved(self.direction, self.world),
                ..self
            },
        }
    }

    /// The rover after the commands `cs`, applied in order.
    pub open spec fn after_all(self, cs: Seq<Command>) -> Rover
        decreases cs.len(),
    {
        if cs.len() == 0 {
            self
        } else {
            self.after_all(cs.drop_last()).after(cs.last())
        }
    }

    /// A rover standing at `position`, facing `direction`, on the grid `world`.
    pub fn new(position: Position, direction: Direction, world: World) -> (r: Rover)
        ensures
            r == (Rover { position, direction, world }),
    {
        Self::_new(position, direction, world)
    }

    fn _new(position: Position, direction: Direction, world: World) -> (r: Rover)
        ensures
            r == (Rover { position, direction, world }),
    {
        Self { position, direction, world }
    }

    /// Applies one decoded command.
    fn apply(&mut self, c: Command)
        ensures
            *final(self) == old(self).after(c),
    {
        match c {
            Command::Left => self.direction.left(),
            Command::Right => self.direction.right(),
            Command::Forward => self.position.forward(self.direction, self.world),
        }
    }

    /// Runs a string of `L`, `R`, `M` commands. The whole string is decoded first: if any
    /// character is not a command, the rover is left as it was and the first such
    /// character is reported.
    pub fn run_to_end(&mut self, input: &str) -> (r: Result<(), RoverError>)
        ensures
            match commands_of(input@) {
                Ok(cs) => r is Ok && *final(self) == old(self).after_all(cs),
                Err(e) => r == Err::<(), RoverError>(e) && *final(self) == *old(self),
            },
    {
        let commands = match decode_commands(input) {
            Ok(cs) => cs,
            Err(e) => {
                return Err(e);
            },
        };
        let ghost start = *self;
        let mut i: usize = 0;
        while i < commands.len()
            invariant
                0 <= i <= commands@.len(),
                *self == start.after_all(commands@.take(i as int)),
            decreases commands@.len() - i,
        {
            assert(commands@.take(i + 1).drop_last() =~= commands@.take(i as int));
            self.apply(commands[i]);
            i += 1;
        }
        assert(commands@.take(commands@.len() as int) =~= commands@);
        Ok(())
    }
}

/// The world that a line `"<x> <y>"` describes; needs at least two tokens.
pub open spec fn world_of(line: Seq<char>) -> Result<World, RoverError> {
    let t = tokens(line);
    match i32_of(t[0]) {
        None => Err(RoverError::Parse { token: 0 }),
        Some(x) => match i32_of(t[1]) {
            None => Err(RoverError::Parse { token: 1 }),
            Some(y) => Ok(World { x, y }),
        },
    }
}

/// The heading that a code names; a code other than `N`, `E`, `S`, `W` counts as North.
pub open spec fn heading_of(code: Seq<char>) -> Direction {
    if code == seq!['E'] {
        Direction::East
    } else if code == seq!['S'] {
        Direction::South
    } else if code == seq!['W'] {
        Direction::West
    } else {
        Direction::North
    }
}

/// The position and heading that a line `"<x> <y> <heading>"` describes; needs at least
/// three tokens.
pub open spec fn position_of(line: Seq<char>) -> Result<(Position, Direction), RoverError> {
    let t = tokens(line);
    match i32_of(t[0]) {
        None => Err(RoverError::Parse { token: 0 }),
        Some(x) => match i32_of(t[1]) {
            None => Err(RoverError::Parse { token: 1 }),
            Some(y) => Ok((Position { x, y }, heading_of(t[2]))),
        },
    }
}

/// Parses a line of the form `"<x> <y>"` into the world's bounds.
pub fn parse_world(line: &str) -> (r: Result<World, RoverError>)
    requires
        tokens(line@).len() >= 2,
    ensures
        r == world_of(line@),
{
    let coords = split_tokens(line);
    assert(coords@[0]@ == tokens(line@)[0] && coords@[1]@ == tokens(line@)[1]);
    let x = match parse_i32(&coords[0]) {
        Some(v) => v,
        None => {
            return Err(RoverError::Parse { token: 0 });
        },
    };
    let y = match parse_i32(&coords[1]) {
        Some(v) => v,
        None => {
            return Err(RoverError::Parse { token: 1 });
        },
    };
    Ok(World { x, y })
}

fn heading_from_code(code: &Vec<char>) -> (r: Direction)
    ensures
        r == heading_of(code@),
{
    if code.len() == 1 {
        assert(code@ =~= seq![code@[0]]);
        match code[0] {
            'E' => Direction::East,
            'S' => Direction::South,
            'W' => Direction::West,
            _ => Direction::North,
        }
    } else {
        assert(code@.len() != seq!['E'].len());
        Direction::North
    }
}

/// Parses a line of the form `"<x> <y> <heading>"` into a position and a heading.
pub fn parse_position(line: &str) -> (r: Result<(Position, Direction), RoverError>)
    requires
        tokens(line@).len() >= 3,
    ensures
        r == position_of(line@),
{
    let fields = split_tokens(line);
    assert(fields@[0]@ == tokens(line@)[0] && fields@[1]@ == tokens(line@)[1] && fields@[2]@
        == tokens(line@)[2]);
    let x = match parse_i32(&fields[0]) {
        Some(v) => v,
        None => {
            return Err(RoverError::Parse { token: 0 });
        },
    };
    let y = match parse_i32(&fields[1]) {
        Some(v) => v,
        None => {
            return Err(RoverError::Parse { token: 1 });
        },
    };
    let direction = heading_from_code(&fields[2]);
    Ok((Position { x, y }, direction))
}

/// Four quarter turns the same way bring a heading back to itself, and a left turn and a
/// right turn undo each other.
pub proof fn lemma_rotation_closure(d: Direction)
    ensures
        d.turned_left().turned_left().turned_left().turned_left() == d,
        d.turned_right().turned_right().turned_right().turned_right() == d,
        d.turned_left().turned_right() == d,
        d.turned_right().turned_left() == d,
{
}

/// A forward move never takes a position that lies within the world out of it.
pub proof fn lemma_forward_stays_in_world(p: Position, d: Direction, w: World)
    requires
        w.contains(p),
    ensures
        w.contains(p.moved(d, w)),
{
}

/// Running any commands keeps the world as it was and a rover that starts within it within it.
pub proof fn lemma_run_stays_in_world(r: Rover, cs: Seq<Command>)
    requires
        r.world.contains(r.position),
    ensures
        r.after_all(cs).world == r.world,
        r.world.contains(r.after_all(cs).position),
    decreases cs.len(),
{
    if cs.len() > 0 {
        lemma_run_stays_in_world(r, cs.drop_last());
        let m = r.after_all(cs.drop_last());
        lemma_forward_stays_in_world(m.position, m.direction, m.world);
    }
}

/// A position on the east edge facing East does not move: neither axis changes.
pub proof fn lemma_clamp_at_east_edge(p: Position, w: World)
    requires
        p.x == w.x,
    ensures
        p.moved(Direction::East, w) == p,
{
}

/// At the origin, a forward move facing West or South changes nothing, whatever the world.
pub proof fn lemma_clamp_at_origin(d: Direction, w: World)
    requires
        d == Direction::West || d == Direction::South,
    ensures
        (Position { x: 0, y: 0 }).moved(d, w) == (Position { x: 0, y: 0 }),
{
}

/// A failed decode names one of the string's characters that is not a command.
proof fn lemma_commands_error_names_bad_char(s: Seq<char>)
    requires
        commands_of(s) is Err,
    ensures
        exists|j: int|
            0 <= j < s.len() && command_of(s[j]) is Err && commands_of(s)
                == Err::<Seq<Command>, RoverError>(RoverError::InvalidCommand { found: s[j] }),
    decreases s.len(),
{
    let p = s.drop_last();
    if commands_of(p) is Err {
        lemma_commands_error_names_bad_char(p);
        let j = choose|j: int|
            0 <= j < p.len() && command_of(p[j]) is Err && commands_of(p)
                == Err::<Seq<Command>, RoverError>(RoverError::InvalidCommand { found: p[j] });
        assert(s[j] == p[j]);
    } else {
        assert(command_of(s[s.len() - 1]) is Err);
    }
}

/// A command string with a character other than `L`, `R`, `M` anywhere in it fails to
/// decode as a whole, with an invalid-command error for one of its non-command characters;
/// so `run_to_end` on it leaves the rover unchanged.
pub proof fn lemma_invalid_char_rejects_all(s: Seq<char>, i: int)
    requires
        0 <= i < s.len(),
        s[i] != 'L' && s[i] != 'R' && s[i] != 'M',
    ensures
        commands_of(s) is Err,
        exists|j: int|
            0 <= j < s.len() && s[j] != 'L' && s[j] != 'R' && s[j] != 'M' && commands_of(s)
                == Err::<Seq<Command>, RoverError>(RoverError::InvalidCommand { found: s[j] }),
{
    if commands_of(s.take(i)) is Err {
        lemma_commands_error_persists(s, i);
    } else {
        assert(s.take(i + 1).drop_last() =~= s.take(i));
        lemma_commands_error_persists(s, i + 1);
    }
    lemma_commands_error_names_bad_char(s);
}

/// Parsing depends on the line alone: the same line always gives the same result.
pub proof fn lemma_parsing_is_pure(a: Seq<char>, b: Seq<char>)
    requires
        a == b,
    ensures
        world_of(a) == world_of(b),
        position_of(a) == position_of(b),
{
}

} // verus!
