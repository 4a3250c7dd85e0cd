use vstd::prelude::*;

use crate::text::{chars_of, decimal, parse_i32, pieces, same_chars, split_on};

verus! {

/// A course command of the submarine.
#[derive(Clone, Copy, PartialEq, Eq, Structural, Debug)]
pub enum Instruction {
    Forward(i32),
    Down(i32),
    Up(i32),
}

/// Horizontal position and depth after the first `n` commands, where `down`
/// and `up` change the depth directly.
pub open spec fn plain_course(s: Seq<Instruction>, n: int) -> (int, int)
    decreases n,
{
    if n <= 0 || n > s.len() {
        (0, 0)
    } else {
        let (pos, depth) = plain_course(s, n - 1);
        match s[n - 1] {
            Instruction::Up(v) => (pos, depth - v),
            Instruction::Down(v) => (pos, depth + v),
            Instruction::Forward(v) => (pos + v, depth),
        }
    }
}

/// Horizontal position, depth and aim after the first `n` commands, where
/// `down` and `up` change the aim and `forward` dives by aim times distance.
pub open spec fn aimed_course(s: Seq<Instruction>, n: int) -> (int, int, int)
    decreases n,
{
    if n <= 0 || n > s.len() {
        (0, 0, 0)
    } else {
        let (pos, depth, aim) = aimed_course(s, n - 1);
        match s[n - 1] {
            Instruction::Up(v) => (pos, depth, aim - v),
            Instruction::Down(v) => (pos, depth, aim + v),
            Instruction::Forward(v) => (pos + v, aim * v + depth, aim),
        }
    }
}

pub open spec fn fits_i32(x: int) -> bool {
    i32::MIN <= x <= i32::MAX
}

/// Every position and depth along the plain course, and their final
/// product, fit in `i32`.
pub open spec fn plain_course_fits(s: Seq<Instruction>) -> bool {
    &&& forall|k: int|
        0 <= k <= s.len() ==> fits_i32(#[trigger] plain_course(s, k).0) && fits_i32(
            plain_course(s, k).1,
        )
    &&& fits_i32(plain_course(s, s.len() as int).0 * plain_course(s, s.len() as int).1)
}

/// Every value computed along the aimed course, and the final product, fit
/// in `i32`.
pub open spec fn aimed_course_fits(s: Seq<Instruction>) -> bool {
    &&& forall|k: int|
        0 <= k <= s.len() ==> fits_i32(#[trigger] aimed_course(s, k).0) && fits_i32(
            aimed_course(s, k).1,
        ) && fits_i32(aimed_course(s, k).2)
    &&& forall|k: int|
        0 <= k < s.len() ==> match #[trigger] s[k] {
            Instruction::Forward(v) => fits_i32(aimed_course(s, k).2 * v),
            _ => true,
        }
    &&& fits_i32(aimed_course(s, s.len() as int).0 * aimed_course(s, s.len() as int).1)
}

proof fn lemma_plain_fits_at(s: Seq<Instruction>, k: int)
    requires
        plain_course_fits(s),
        0 <= k <= s.len(),
    ensures
        fits_i32(plain_course(s, k).0) && fits_i32(plain_course(s, k).1),
{
}

proof fn lemma_aimed_fits_at(s: Seq<Instruction>, k: int)
    requires
        aimed_course_fits(s),
        0 <= k < s.len(),
    ensures
        fits_i32(aimed_course(s, k + 1).0) && fits_i32(aimed_course(s, k + 1).1) && fits_i32(
            aimed_course(s, k + 1).2,
        ),
        match s[k] {
            Instruction::Forward(v) => fits_i32(aimed_course(s, k).2 * v),
            _ => true,
        },
{
}

/// Final horizontal position times final depth, with `down` and `up`
/// changing the depth; `None` where a value on the way leaves `i32`.
pub fn part1(instructions: &[Instruction]) -> (r: Option<i32>)
    ensures
        match r {
            Some(v) => plain_course_fits(instructions@) && v == plain_course(
                instructions@,
                instructions@.len() as int,
            ).0 * plain_course(instructions@, instructions@.len() as int).1,
            None => !plain_course_fits(instructions@),
        },
{
    let mut pos: i32 = 0;
    let mut depth: i32 = 0;
    let mut i: usize = 0;
    while i < instructions.len()
        invariant
            i <= instructions@.len(),
            (pos as int, depth as int) == plain_course(instructions@, i as int),
            forall|k: int|
                0 <= k <= i ==> fits_i32(#[trigger] plain_course(instructions@, k).0) && fits_i32(
                    plain_course(instructions@, k).1,
                ),
        decreases instructions@.len() - i,
    {
        let instr = instructions[i];
        assert(instr == instructions@[i as int]);
        let ghost next = plain_course(instructions@, i + 1);
        let step = match instr {
            Instruction::Up(val) => match depth.checked_sub(val) {
                Some(d) => Some((pos, d)),
                None => None,
            },
            Instruction::Down(val) => match depth.checked_add(val) {
                Some(d) => Some((pos, d)),
                None => None,
            },
            Instruction::Forward(val) => match pos.checked_add(val) {
                Some(p) => Some((p, depth)),
                None => None,
            },
        };
        match step {
            Some((p, d)) => {
                assert((p as int, d as int) == next);
                assert(fits_i32(next.0) && fits_i32(next.1));
                pos = p;
                depth = d;
            },
            None => {
                assert(!fits_i32(next.0) || !fits_i32(next.1));
                assert(!(fits_i32(plain_course(instructions@, i + 1).0) && fits_i32(
                    plain_course(instructions@, i + 1).1,
                )));
                proof {
                    if plain_course_fits(instructions@) {
                        lemma_plain_fits_at(instructions@, i + 1);
                    }
                }
                return None;
            },
        }
        i = i + 1;
    }
    match pos.checked_mul(depth) {
        Some(v) => Some(v),
        None => None,
    }
}

/// Final horizontal position times final depth, with `down` and `up`
/// changing the aim; `None` where a value on the way leaves `i32`.
pub fn part2(instructions: &[Instruction]) -> (r: Option<i32>)
    ensures
        match r {
            Some(v) => aimed_course_fits(instructions@) && v == aimed_course(
                instructions@,
                instructions@.len() as int,
            ).0 * aimed_course(instructions@, instructions@.len() as int).1,
            None => !aimed_course_fits(instructions@),
        },
{
    let mut pos: i32 = 0;
    let mut depth: i32 = 0;
    let mut aim: i32 = 0;
    let mut i: usize = 0;
    while i < instructions.len()
        invariant
            i <= instructions@.len(),
            (pos as int, depth as int, aim as int) == aimed_course(instructions@, i as int),
            forall|k: int|
                0 <= k <= i ==> fits_i32(#[trigger] aimed_course(instructions@, k).0) && fits_i32(
                    aimed_course(instructions@, k).1,
                ) && fits_i32(aimed_course(instructions@, k).2),
            forall|k: int|
                0 <= k < i ==> match #[trigger] instructions@[k] {
                    Instruction::Forward(v) => fits_i32(aimed_course(instructions@, k).2 * v),
                    _ => true,
                },
        decreases instructions@.len() - i,
    {
        let instr = instructions[i];
        assert(instr == instructions@[i as int]);
        let ghost next = aimed_course(instructions@, i + 1);
        let step = match instr {
            Instruction::Up(val) => match aim.checked_sub(val) {
                Some(a) => Some((pos, depth, a)),
                None => None,
            },
            Instruction::Down(val) => match aim.checked_add(val) {
                Some(a) => Some((pos, depth, a)),
                None => None,
            },
            Instruction::Forward(val) => match (pos.checked_add(val), aim.checked_mul(val)) {
                (Some(p), Some(m)) => match m.checked_add(depth) {
                    Some(d) => Some((p, d, aim)),
                    None => None,
                },
                _ => None,
            },
        };
        match step {
            Some((p, d, a)) => {
                assert((p as int, d as int, a as int) == next);
                assert(fits_i32(next.0) && fits_i32(next.1) && fits_i32(next.2));
                pos = p;
                depth = d;
                aim = a;
            },
            None => {
                assert(!fits_i32(aimed_course(instructions@, i + 1).0) || !fits_i32(
                    aimed_course(instructions@, i + 1).1,
                ) || !fits_i32(aimed_course(instructions@, i + 1).2) || match instructions@[i as int] {
                    Instruction::Forward(v) => !fits_i32(aimed_course(instructions@, i as int).2 * v),
                    _ => false,
                });
                proof {
                    if aimed_course_fits(instructions@) {
                        lemma_aimed_fits_at(instructions@, i as int);
                    }
                }
                return None;
            },
        }
        i = i + 1;
    }
    match pos.checked_mul(depth) {
        Some(v) => Some(v),
        None => None,
    }
}

/// Why a line is no command.
#[derive(Clone, Copy, PartialEq, Eq, Structural, Debug)]
pub enum LineError {
    /// Not a word and a number separated by one space.
    Malformed,
    /// A word and a number, but the word is no command.
    UnknownCommand,
}

/// The command a line holds: "forward", "down" or "up", one space, and a
/// decimal `i32`.
pub open spec fn command_of(line: Seq<char>) -> Result<Instruction, LineError> {
    let ps = pieces(line, ' ');
    if ps.len() != 2 {
        Err(LineError::Malformed)
    } else {
        match decimal(ps[1]) {
            Some(x) => if !(i32::MIN <= x <= i32::MAX) {
                Err(LineError::Malformed)
            } else if ps[0] == "forward"@ {
                Ok(Instruction::Forward(x as i32))
            } else if ps[0] == "down"@ {
                Ok(Instruction::Down(x as i32))
            } else if ps[0] == "up"@ {
                Ok(Instruction::Up(x as i32))
            } else {
                Err(LineError::UnknownCommand)
            },
            None => Err(LineError::Malformed),
        }
    }
}

impl Instruction {
    /// Reads a command from a line.
    pub fn from_str(s: &str) -> (r: Result<Instruction, LineError>)
        ensures
            r == command_of(s@),
    {
        let chars = chars_of(s);
        let parts = split_on(chars.as_slice(), ' ');
        if parts.len() != 2 {
            return Err(LineError::Malformed);
        }
        let value = match parse_i32(parts[1].as_slice()) {
            Some(v) => v,
            None => {
                return Err(LineError::Malformed);
            },
        };
        let forward = chars_of("forward");
        let down = chars_of("down");
        let up = chars_of("up");
        if same_chars(&parts[0], &forward) {
            Ok(Instruction::Forward(value))
        } else if same_chars(&parts[0], &down) {
            Ok(Instruction::Down(value))
        } else if same_chars(&parts[0], &up) {
            Ok(Instruction::Up(value))
        } else {
            Err(LineError::UnknownCommand)
        }
    }
}

/// The commands of the first `k` lines, skipping malformed lines; `None`
/// where a line names an unknown command.
pub open spec fn commands_of(lines: Seq<String>, k: int) -> Option<Seq<Instruction>>
    decreases k,
{
    if k <= 0 {
        Some(seq![])
    } else {
        match commands_of(lines, k - 1) {
            None => None,
            Some(cs) => match command_of(lines[k - 1]@) {
                Ok(c) => Some(cs.push(c)),
                Err(LineError::Malformed) => Some(cs),
                Err(LineError::UnknownCommand) => None,
            },
        }
    }
}

proof fn lemma_commands_fail(lines: Seq<String>, k: int, n: int)
    requires
        1 <= k <= n,
        commands_of(lines, k) is None,
    ensures
        commands_of(lines, n) is None,
    decreases n,
{
    if k < n {
        lemma_commands_fail(lines, k, n - 1);
    }
}

/// The commands of the lines that hold one.
pub fn read_instructions(lines: &[String]) -> (r: Option<Vec<Instruction>>)
    ensures
        match r {
            Some(v) => commands_of(lines@, lines@.len() as int) == Some(v@),
            None => commands_of(lines@, lines@.len() as int) is None,
        },
{
    let mut out: Vec<Instruction> = Vec::new();
    let mut i: usize = 0;
    while i < lines.len()
        invariant
            i <= lines@.len(),
            commands_of(lines@, i as int) == Some(out@),
        decreases lines@.len() - i,
    {
        match Instruction::from_str(lines[i].as_str()) {
            Ok(c) => {
                out.push(c);
            },
            Err(LineError::Malformed) => {},
            Err(LineError::UnknownCommand) => {
                proof {
                    lemma_commands_fail(lines@, i + 1, lines@.len() as int);
                }
                return None;
            },
        }
        i = i + 1;
    }
    Some(out)
}

} // verus!
