//! Instruction decoding: a raw memory cell decomposes into an operation
//! (the value modulo 100) and three parameter modes (the base-10 digits
//! above the opcode, least significant first).
use vstd::prelude::*;

use crate::Int;

verus! {

/// The ten operations of the instruction set.
#[derive(Clone, Copy, Debug, PartialEq, Eq, Structural)]
pub enum Operation {
    End,
    Add,
    Mul,
    Input,
    Output,
    JumpNotZero,
    JumpZero,
    LessThan,
    EqualTo,
    RelBase,
}

/// How an operand is interpreted: as an address to dereference, as the
/// literal value, or as an offset from the relative base.
#[derive(Clone, Copy, Debug, PartialEq, Eq, Structural)]
pub enum Mode {
    Pointer,
    Value,
    Relative,
}

/// The operation a cell value selects, if its low two decimal digits are a
/// known opcode. No negative cell selects one: under the host's truncating
/// remainder a negative cell's remainder by 100 is never a valid opcode.
pub open spec fn spec_op(v: Int) -> Option<Operation> {
    if v < 0 {
        None
    } else {
        match v % 100 {
            99 => Some(Operation::End),
            1 => Some(Operation::Add),
            2 => Some(Operation::Mul),
            3 => Some(Operation::Input),
            4 => Some(Operation::Output),
            5 => Some(Operation::JumpNotZero),
            6 => Some(Operation::JumpZero),
            7 => Some(Operation::LessThan),
            8 => Some(Operation::EqualTo),
            9 => Some(Operation::RelBase),
            _ => None,
        }
    }
}

/// The mode a single decimal digit selects, if any.
pub open spec fn spec_mode_digit(d: int) -> Option<Mode> {
    if d == 0 {
        Some(Mode::Pointer)
    } else if d == 1 {
        Some(Mode::Value)
    } else if d == 2 {
        Some(Mode::Relative)
    } else {
        None
    }
}

/// Truncating quotient, as the host computes `/` on signed integers.
pub open spec fn tdiv(a: int, b: int) -> int
    recommends
        b > 0,
{
    if a >= 0 {
        a / b
    } else {
        -((-a) / b)
    }
}

/// Truncating remainder, as the host computes `%` on signed integers.
pub open spec fn tmod(a: int, b: int) -> int
    recommends
        b > 0,
{
    if a >= 0 {
        a % b
    } else {
        -((-a) % b)
    }
}

/// The three parameter modes of a cell value, taken from the decimal digits
/// of the value divided by 100 under the host's truncating arithmetic,
/// least significant digit first. Digits beyond the third are ignored. A
/// negative cell whose three digit positions are all zero (as for cells in
/// -99..=-1) still reads as three `Pointer` modes; any negative digit is
/// unknown. During execution this is moot: the opcode of a negative cell
/// always fails first.
pub open spec fn spec_modes(v: Int) -> Option<(Mode, Mode, Mode)> {
    let t = tdiv(v as int, 100);
    let d0 = spec_mode_digit(tmod(t, 10));
    let d1 = spec_mode_digit(tmod(tdiv(t, 10), 10));
    let d2 = spec_mode_digit(tmod(tdiv(tdiv(t, 10), 10), 10));
    if d0 is Some && d1 is Some && d2 is Some {
        Some((d0->0, d1->0, d2->0))
    } else {
        None
    }
}

/// Fixed width in cells of each operation, used to advance the instruction
/// pointer past non-branching instructions.
pub open spec fn spec_len(op: Operation) -> int {
    match op {
        Operation::End => 1,
        Operation::Add => 4,
        Operation::Mul => 4,
        Operation::Input => 2,
        Operation::Output => 2,
        Operation::JumpNotZero => 3,
        Operation::JumpZero => 3,
        Operation::LessThan => 4,
        Operation::EqualTo => 4,
        Operation::RelBase => 2,
    }
}

impl Operation {
    /// Instruction width in cells.
    pub fn len(&self) -> (n: usize)
        ensures
            n as int == spec_len(*self),
    {
        match self {
            Operation::End => 1,
            Operation::Add => 4,
            Operation::Mul => 4,
            Operation::Input => 2,
            Operation::Output => 2,
            Operation::JumpNotZero => 3,
            Operation::JumpZero => 3,
            Operation::LessThan => 4,
            Operation::EqualTo => 4,
            Operation::RelBase => 2,
        }
    }

    /// Short fixed name of the operation, for diagnostics and inspection.
    pub fn mnemonic(&self) -> (s: &'static str)
        ensures
            s@ == spec_mnemonic(*self),
    {
        match self {
            Operation::End => "END",
            Operation::Add => "ADD",
            Operation::Mul => "MUL",
            Operation::Input => "INP",
            Operation::Output => "OUT",
            Operation::JumpNotZero => "JNZ",
            Operation::JumpZero => "JZ",
            Operation::LessThan => "LT",
            Operation::EqualTo => "EQ",
            Operation::RelBase => "REL",
        }
    }
}

/// The characters of each operation's short name.
pub open spec fn spec_mnemonic(op: Operation) -> Seq<char> {
    match op {
        Operation::End => "END"@,
        Operation::Add => "ADD"@,
        Operation::Mul => "MUL"@,
        Operation::Input => "INP"@,
        Operation::Output => "OUT"@,
        Operation::JumpNotZero => "JNZ"@,
        Operation::JumpZero => "JZ"@,
        Operation::LessThan => "LT"@,
        Operation::EqualTo => "EQ"@,
        Operation::RelBase => "REL"@,
    }
}

/// Decode the operation of a cell value; `None` on an unknown opcode.
pub fn op(v: Int) -> (r: Option<Operation>)
    ensures
        r == spec_op(v),
{
    if v < 0 {
        return None;
    }
    let code = (v as u64) % 100;
    match code {
        99 => Some(Operation::End),
        1 => Some(Operation::Add),
        2 => Some(Operation::Mul),
        3 => Some(Operation::Input),
        4 => Some(Operation::Output),
        5 => Some(Operation::JumpNotZero),
        6 => Some(Operation::JumpZero),
        7 => Some(Operation::LessThan),
        8 => Some(Operation::EqualTo),
        9 => Some(Operation::RelBase),
        _ => None,
    }
}

/// Decode the three parameter modes of a cell value as a triple;
/// `None` on an unknown mode digit.
pub fn modes3(v: Int) -> (r: Option<(Mode, Mode, Mode)>)
    ensures
        r == spec_modes(v),
{
    if v < 0 {
        // every truncated digit of a negative cell is zero or negative, so
        // the modes decode exactly when all three digit positions are zero
        let m = (-(v as i128)) as u64;
        let t = m / 100;
        if t % 10 == 0 && (t / 10) % 10 == 0 && (t / 100) % 10 == 0 {
            return Some((Mode::Pointer, Mode::Pointer, Mode::Pointer));
        }
        return None;
    }
    let u = v as u64;
    let t = u / 100;
    let m0 = mode_digit(t % 10);
    let m1 = mode_digit((t / 10) % 10);
    let m2 = mode_digit(((t / 10) / 10) % 10);
    match (m0, m1, m2) {
        (Some(a), Some(b), Some(c)) => Some((a, b, c)),
        _ => None,
    }
}

/// Decode the three parameter modes of a cell value as a list, mode of the
/// first parameter first; `None` on an unknown mode digit.
pub fn modes(v: Int) -> (r: Option<Vec<Mode>>)
    ensures
        match spec_modes(v) {
            Some(t) => r matches Some(ms) && ms@ == seq![t.0, t.1, t.2],
            None => r is None,
        },
{
    match modes3(v) {
        Some((a, b, c)) => {
            let mut ms: Vec<Mode> = Vec::new();
            ms.push(a);
            ms.push(b);
            ms.push(c);
            proof {
                let t = spec_modes(v)->Some_0;
                assert(ms@ =~= seq![t.0, t.1, t.2]);
            }
            Some(ms)
        },
        None => None,
    }
}

fn mode_digit(d: u64) -> (r: Option<Mode>)
    ensures
        r == spec_mode_digit(d as int),
{
    if d == 0 {
        Some(Mode::Pointer)
    } else if d == 1 {
        Some(Mode::Value)
    } else if d == 2 {
        Some(Mode::Relative)
    } else {
        None
    }
}

} // verus!
