//! The inspector's core: a program plus a cursor at the next instruction,
//! advanced one step at a time with I/O disabled or with a single literal
//! input. Rendering and key handling live outside the library; this module
//! supplies the state they display.
use vstd::prelude::*;
use vstd::string::StringSliceAdditionalSpecFns;

use crate::Int;
use crate::decode::spec_len;
use crate::decode::spec_op;
use crate::machine::Machine;
use crate::machine::StepSpec;
use crate::machine::VmError;
use crate::machine::cell;
use crate::machine::step_spec;
use crate::machine::store;
use crate::text::spec_parse_int;
use crate::vm::Input;
use crate::vm::Output;
use crate::vm::Program;

verus! {

/// A program under single-step inspection.
pub struct Debugger {
    program: Program,
    cur_addr: usize,
}

/// Where the cursor lands after a step that named `next` as the next
/// address: addresses this host cannot hold as an index leave it in place.
pub open spec fn cursor_after(cur: int, next: Int) -> int {
    if 0 <= next && next <= usize::MAX as int {
        next as int
    } else {
        cur
    }
}

impl Debugger {
    /// The program being inspected.
    pub closed spec fn prog(self) -> Program {
        self.program
    }

    /// The address of the instruction the cursor rests on.
    pub closed spec fn cursor(self) -> int {
        self.cur_addr as int
    }

    /// The cursor always fits the machine's address type; every
    /// constructor establishes this and every method keeps it.
    pub closed spec fn wf(self) -> bool {
        self.cur_addr as int <= i64::MAX as int
    }

    /// Begin inspecting `program` at address zero.
    pub fn new(program: Program) -> (d: Debugger)
        ensures
            d.wf(),
            d.prog() == program,
            d.cursor() == 0,
    {
        Debugger { program, cur_addr: 0 }
    }

    /// The cursor's address.
    pub fn cur_addr(&self) -> (a: usize)
        ensures
            a as int == self.cursor(),
    {
        self.cur_addr
    }

    /// The program being inspected, for display.
    pub fn program(&self) -> (p: &Program)
        ensures
            *p == self.prog(),
    {
        &self.program
    }

    /// The raw cell value under the cursor.
    pub fn cur_val(&self) -> (v: Int)
        requires
            self.wf(),
        ensures
            v == cell(self.prog().mem_seq(), self.cursor()),
    {
        self.program.peek(self.cur_addr as Int)
    }

    /// The width in cells of the instruction under the cursor, for
    /// highlighting its span; the cell must decode.
    pub fn cur_len(&self) -> (n: usize)
        requires
            self.wf(),
            spec_op(cell(self.prog().mem_seq(), self.cursor())) is Some,
        ensures
            n as int == spec_len(spec_op(cell(self.prog().mem_seq(), self.cursor()))->0),
    {
        let v = self.program.peek(self.cur_addr as Int);
        let op = match crate::decode::op(v) {
            Some(o) => o,
            None => unreached(),
        };
        op.len()
    }

    /// Execute the instruction under the cursor with I/O disabled and move
    /// the cursor to the next address. A halt, or a next address this host
    /// cannot hold, leaves the cursor in place.
    pub fn step(&mut self) -> (r: Result<(), VmError>)
        requires
            old(self).wf(),
        ensures
            final(self).wf(),
            final(self).prog().source_seq() == old(self).prog().source_seq(),
            ({
                let pre = old(self).prog().vm();
                let a = old(self).cursor() as Int;
                match step_spec(pre, a) {
                    StepSpec::Halt => r is Ok && final(self).prog().vm() == pre && final(self).cursor() == old(self).cursor(),
                    StepSpec::Move { m, next } => r is Ok && final(self).prog().vm() == m && final(self).cursor() == cursor_after(old(self).cursor(), next),
                    StepSpec::Emit { v, next } => r is Ok && final(self).prog().vm() == pre
                        && final(self).cursor() == cursor_after(old(self).cursor(), next),
                    StepSpec::Read { .. } => r == Err::<(), VmError>(VmError::NoInput) && final(self).prog().vm() == pre && final(self).cursor() == old(self).cursor(),
                    StepSpec::Fail { err } => r == Err::<(), VmError>(err) && final(self).prog().vm() == pre && final(self).cursor() == old(self).cursor(),
                }
            }),
    {
        let mut inp = Input::Disabled;
        let mut out = Output::Disabled;
        match self.program.step(self.cur_addr as Int, false, &mut inp, &mut out) {
            Ok(next) => {
                if next >= 0 && (next as u64) <= (usize::MAX as u64) {
                    self.cur_addr = next as usize;
                }
                Ok(())
            },
            Err(e) => Err(e),
        }
    }

    /// Execute the instruction under the cursor, supplying `input` as the
    /// text an input instruction reads, and move the cursor.
    pub fn step_input(&mut self, input: &str) -> (r: Result<(), VmError>)
        requires
            old(self).wf(),
        ensures
            final(self).wf(),
            final(self).prog().source_seq() == old(self).prog().source_seq(),
            ({
                let pre = old(self).prog().vm();
                let a = old(self).cursor() as Int;
                match step_spec(pre, a) {
                    StepSpec::Halt => r is Ok && final(self).prog().vm() == pre && final(self).cursor() == old(self).cursor(),
                    StepSpec::Move { m, next } => r is Ok && final(self).prog().vm() == m && final(self).cursor() == cursor_after(old(self).cursor(), next),
                    StepSpec::Emit { v, next } => r is Ok && final(self).prog().vm() == pre
                        && final(self).cursor() == cursor_after(old(self).cursor(), next),
                    StepSpec::Read { dst, next } => match spec_parse_int(input.spec_bytes()) {
                        Some(x) => r is Ok && final(self).prog().vm() == (Machine {
                            mem: store(pre.mem, dst as int, x),
                            base: pre.base,
                        }) && final(self).cursor() == cursor_after(old(self).cursor(), next),
                        None => r == Err::<(), VmError>(VmError::InputParse) && final(self).prog().vm() == pre && final(self).cursor() == old(self).cursor(),
                    },
                    StepSpec::Fail { err } => r == Err::<(), VmError>(err) && final(self).prog().vm() == pre && final(self).cursor() == old(self).cursor(),
                }
            }),
    {
        let mut inp = Input::String(input);
        let mut out = Output::Disabled;
        match self.program.step(self.cur_addr as Int, false, &mut inp, &mut out) {
            Ok(next) => {
                if next >= 0 && (next as u64) <= (usize::MAX as u64) {
                    self.cur_addr = next as usize;
                }
                Ok(())
            },
            Err(e) => Err(e),
        }
    }
}

} // verus!
