//! The virtual machine itself: a program image, growable execution memory,
//! the relative-base register, an execution trace, and the step and run
//! engines, specified against the model in the `machine` module.
use vstd::prelude::*;
use vstd::string::StringSliceAdditionalSpecFns;

use std::io::Write;
use std::sync::mpsc::Receiver;
use std::sync::mpsc::Sender;

use crate::Int;
use crate::decode::Mode;
use crate::decode::Operation;
use crate::machine::Machine;
use crate::machine::StepSpec;
use crate::machine::VmError;
use crate::machine::alu;
use crate::machine::binop_spec;
use crate::machine::can_step_io;
use crate::machine::cell;
use crate::machine::decodes;
use crate::machine::halts_at;
use crate::machine::jump_spec;
use crate::machine::lemma_reaches_io_reaches;
use crate::machine::lemma_reaches_io_step;
use crate::machine::opt_seq;
use crate::machine::reaches;
use crate::machine::reaches_io;
use crate::machine::rel_base_spec;
use crate::machine::rv;
use crate::machine::rv_addr;
use crate::machine::rv_ok;
use crate::machine::step_spec;
use crate::machine::store;
use crate::text::code_ok;
use crate::text::code_val;
use crate::text::dec_bytes;
use crate::text::feed_after;
use crate::text::feed_parses;
use crate::text::feed_vals;
use crate::text::lemma_feed_snoc;
use crate::text::lemma_line_end_from;
use crate::text::line_end;
use crate::text::next_line;
use crate::text::out_lines;
use crate::text::spec_parse_int;

verus! {

/// One entry of the execution trace: where an instruction was executed and
/// the raw cell value that was decoded there.
#[derive(Clone, Copy, Debug, PartialEq, Eq, Structural)]
pub struct StackEntry {
    pub address: Int,
    pub value: Int,
}

/// A loaded program: the pristine source image, the execution memory it
/// runs in, the relative-base register, and the execution trace.
#[derive(Clone)]
pub struct Program {
    source: Vec<Int>,
    mem: Vec<Int>,
    rel_base: Int,
    stack: Vec<StackEntry>,
}

impl Program {
    /// The pristine program image, as loaded.
    pub closed spec fn source_seq(self) -> Seq<Int> {
        self.source@
    }

    /// The execution memory, as far as it has been materialized; reads
    /// beyond it yield zero (see `machine::cell`).
    pub closed spec fn mem_seq(self) -> Seq<Int> {
        self.mem@
    }

    /// The relative-base register.
    pub closed spec fn base_val(self) -> Int {
        self.rel_base
    }

    /// The execution trace, oldest entry first.
    pub closed spec fn trace_seq(self) -> Seq<StackEntry> {
        self.stack@
    }

    /// The machine state this program is in.
    pub open spec fn vm(self) -> Machine {
        Machine { mem: self.mem_seq(), base: self.base_val() }
    }

    /// Load a program from its textual source. The caller vouches for the
    /// source; `read_code` is the checked way in.
    pub fn new(code: &str) -> (p: Program)
        requires
            code_ok(code.spec_bytes()),
        ensures
            p.source_seq() == code_val(code.spec_bytes()),
            p.mem_seq() == code_val(code.spec_bytes()),
            p.base_val() == 0,
            p.trace_seq() == Seq::<StackEntry>::empty(),
    {
        let cells = match Program::read_code(code) {
            Ok(c) => c,
            Err(_) => unreached(),
        };
        let mem = copy_cells(&cells);
        Program { source: cells, mem, rel_base: 0, stack: Vec::new() }
    }

    /// Read program text: comma- or line-break-separated signed decimal
    /// fields, empty fields skipped. Fails exactly when a nonempty field is
    /// not an integer in the machine's range.
    pub fn read_code(code: &str) -> (r: Result<Vec<Int>, VmError>)
        ensures
            match r {
                Ok(v) => code_ok(code.spec_bytes()) && v@ == code_val(code.spec_bytes()),
                Err(e) => !code_ok(code.spec_bytes()) && e == VmError::SourceParse,
            },
    {
        crate::text::parse_code(code)
    }

    /// Restore execution memory to the program image, cell for cell. The
    /// relative base and the trace deliberately stay: callers that want a
    /// fresh run construct a fresh program.
    pub fn reset(&mut self)
        ensures
            final(self).mem_seq() == old(self).source_seq(),
            final(self).source_seq() == old(self).source_seq(),
            final(self).base_val() == old(self).base_val(),
            final(self).trace_seq() == old(self).trace_seq(),
    {
        let fresh = copy_cells(&self.source);
        self.mem = fresh;
    }

    /// The value at `addr`: zero beyond the materialized memory, as if the
    /// memory had grown that far.
    pub fn peek(&self, addr: Int) -> (r: Int)
        requires
            addr >= 0,
        ensures
            r == cell(self.mem_seq(), addr as int),
    {
        if (addr as u64) < (self.mem.len() as u64) {
            self.mem[addr as usize]
        } else {
            0
        }
    }

    /// Write `value` at `addr`, growing memory with zero fill first when
    /// needed. Returns the previous value if the address was already
    /// materialized, and `None` if growth created it.
    pub fn poke(&mut self, addr: Int, value: Int) -> (r: Option<Int>)
        requires
            0 <= addr,
            // the grown memory must stay indexable on this host
            (addr as int) < usize::MAX as int,
        ensures
            final(self).mem_seq() == store(old(self).mem_seq(), addr as int, value),
            final(self).source_seq() == old(self).source_seq(),
            final(self).base_val() == old(self).base_val(),
            final(self).trace_seq() == old(self).trace_seq(),
            r == (if (addr as int) < old(self).mem_seq().len() {
                Some(cell(old(self).mem_seq(), addr as int))
            } else {
                None::<Int>
            }),
    {
        let idx = addr as usize;
        if idx < self.mem.len() {
            let prev = self.mem[idx];
            self.mem.set(idx, value);
            Some(prev)
        } else {
            let ghost before = self.mem@;
            self.mem.resize(idx + 1, 0);
            proof {
                assert(forall|i: int| before.len() <= i < idx + 1 ==> self.mem@[i] == 0);
            }
            self.mem.set(idx, value);
            proof {
                let grown = before + Seq::<Int>::new((addr + 1 - before.len()) as nat, |i: int| 0);
                assert(self.mem@ =~= grown.update(addr as int, value));
            }
            None
        }
    }

    /// Resolve an operand for reading under `mode`.
    pub fn pval(&self, mode: &Mode, addr: Int) -> (r: Int)
        requires
            rv_ok(self.vm(), *mode, addr),
        ensures
            r == rv(self.vm(), *mode, addr),
    {
        match mode {
            Mode::Pointer => self.peek(addr),
            Mode::Value => addr,
            Mode::Relative => self.peek(addr.wrapping_add(self.rel_base)),
        }
    }

    /// Resolve an operand as a write target under `mode`. A `Value` operand
    /// never names a writable location, so it is left out here.
    pub fn paddr(&self, mode: &Mode, addr: Int) -> (r: Int)
        requires
            *mode != Mode::Value,
        ensures
            r == rv_addr(self.vm(), *mode, addr),
    {
        match mode {
            Mode::Pointer => addr,
            Mode::Value => unreached(),
            Mode::Relative => addr.wrapping_add(self.rel_base),
        }
    }

    /// The relative-base register.
    pub fn rel_base(&self) -> (r: Int)
        ensures
            r == self.base_val(),
    {
        self.rel_base
    }

    /// How many cells of memory are materialized; cells beyond read zero.
    pub fn mem_len(&self) -> (n: usize)
        ensures
            n == self.mem_seq().len(),
    {
        self.mem.len()
    }

    /// The execution trace so far, one entry per executed instruction.
    pub fn stack(&self) -> (s: &Vec<StackEntry>)
        ensures
            s@ == self.trace_seq(),
    {
        &self.stack
    }

    /// Resolve an operand for reading, reporting the negative address when
    /// resolution leaves the address space.
    fn try_pval(&self, mode: Mode, x: Int) -> (r: Result<Int, VmError>)
        ensures
            match r {
                Ok(v) => rv_ok(self.vm(), mode, x) && v == rv(self.vm(), mode, x),
                Err(e) => !rv_ok(self.vm(), mode, x) && e == (VmError::NegativeAddress {
                    addr: rv_addr(self.vm(), mode, x),
                }),
            },
    {
        match mode {
            Mode::Value => Ok(x),
            Mode::Pointer => {
                if x < 0 {
                    Err(VmError::NegativeAddress { addr: x })
                } else {
                    Ok(self.peek(x))
                }
            },
            Mode::Relative => {
                let a = x.wrapping_add(self.rel_base);
                if a < 0 {
                    Err(VmError::NegativeAddress { addr: a })
                } else {
                    Ok(self.peek(a))
                }
            },
        }
    }

    /// One four-cell instruction: combine two operands, write the target.
    fn step_binop(&mut self, addr: Int, op: Operation, m0: Mode, m1: Mode, m2: Mode) -> (r: Result<
        Int,
        VmError,
    >)
        requires
            addr >= 0,
        ensures
            final(self).source_seq() == old(self).source_seq(),
            final(self).trace_seq() == old(self).trace_seq(),
            match binop_spec(old(self).vm(), addr, op, m0, m1, m2) {
                StepSpec::Move { m, next } => r == Ok::<Int, VmError>(next) && final(self).vm()
                    == m,
                StepSpec::Fail { err } => r == Err::<Int, VmError>(err) && final(self).vm() == old(self).vm(),
                _ => false,
            },
    {
        let a3 = addr.wrapping_add(3);
        if a3 < 0 {
            return Err(VmError::NegativeAddress { addr: a3 });
        }
        if m2 == Mode::Value {
            return Err(VmError::WriteToValueMode { addr });
        }
        let a1 = addr.wrapping_add(1);
        if a1 < 0 {
            return Err(VmError::NegativeAddress { addr: a1 });
        }
        let p1 = self.peek(a1);
        let x1 = self.try_pval(m0, p1)?;
        let a2 = addr.wrapping_add(2);
        if a2 < 0 {
            return Err(VmError::NegativeAddress { addr: a2 });
        }
        let p2 = self.peek(a2);
        let x2 = self.try_pval(m1, p2)?;
        let p3 = self.peek(a3);
        let t = self.paddr(&m2, p3);
        if t < 0 {
            return Err(VmError::NegativeAddress { addr: t });
        }
        if (t as u64) >= (usize::MAX as u64) {
            return Err(VmError::AddressTooLarge { addr: t });
        }
        let xv = match op {
            Operation::Add => x1.wrapping_add(x2),
            Operation::Mul => x1.wrapping_mul(x2),
            Operation::LessThan => if x1 < x2 {
                1
            } else {
                0
            },
            Operation::EqualTo => if x1 == x2 {
                1
            } else {
                0
            },
            _ => 0,
        };
        proof {
            assert(xv == alu(op, x1, x2));
        }
        self.poke(t, xv);
        Ok(addr.wrapping_add(4))
    }

    /// One jump instruction: the second operand is resolved only when the
    /// first satisfies the condition.
    fn step_jump(&self, addr: Int, jump_if_nonzero: bool, m0: Mode, m1: Mode) -> (r: Result<
        Int,
        VmError,
    >)
        requires
            addr >= 0,
        ensures
            match jump_spec(self.vm(), addr, jump_if_nonzero, m0, m1) {
                StepSpec::Move { m, next } => m == self.vm() && r == Ok::<Int, VmError>(next),
                StepSpec::Fail { err } => r == Err::<Int, VmError>(err),
                _ => false,
            },
    {
        let a1 = addr.wrapping_add(1);
        if a1 < 0 {
            return Err(VmError::NegativeAddress { addr: a1 });
        }
        let p1 = self.peek(a1);
        let x1 = self.try_pval(m0, p1)?;
        if (x1 != 0) == jump_if_nonzero {
            let a2 = addr.wrapping_add(2);
            if a2 < 0 {
                return Err(VmError::NegativeAddress { addr: a2 });
            }
            let p2 = self.peek(a2);
            let x2 = self.try_pval(m1, p2)?;
            Ok(x2)
        } else {
            Ok(addr.wrapping_add(3))
        }
    }

    /// One relative-base adjustment.
    fn step_rel_base(&mut self, addr: Int, m0: Mode) -> (r: Result<Int, VmError>)
        requires
            addr >= 0,
        ensures
            final(self).source_seq() == old(self).source_seq(),
            final(self).trace_seq() == old(self).trace_seq(),
            match rel_base_spec(old(self).vm(), addr, m0) {
                StepSpec::Move { m, next } => r == Ok::<Int, VmError>(next) && final(self).vm()
                    == m,
                StepSpec::Fail { err } => r == Err::<Int, VmError>(err) && final(self).vm() == old(self).vm(),
                _ => false,
            },
    {
        let a1 = addr.wrapping_add(1);
        if a1 < 0 {
            return Err(VmError::NegativeAddress { addr: a1 });
        }
        let p1 = self.peek(a1);
        let x1 = self.try_pval(m0, p1)?;
        self.rel_base = self.rel_base.wrapping_add(x1);
        Ok(addr.wrapping_add(2))
    }

    /// Execute exactly one instruction at `addr`: decode the cell there,
    /// record it on the trace, resolve its operands, and perform its
    /// effect, consulting the I/O capabilities where it asks for them.
    /// Returns the next instruction address, `-1` to signal a halt, or the
    /// first error. The `machine::step_spec` model fixes everything but
    /// what the outside world feeds in.
    pub fn step(&mut self, addr: Int, trace: bool, input: &mut Input<'_>, output: &mut Output) -> (r:
        Result<Int, VmError>)
        ensures
            final(self).source_seq() == old(self).source_seq(),
            final(self).trace_seq() == (if decodes(old(self).vm(), addr) {
                old(self).trace_seq().push(
                    StackEntry { address: addr, value: cell(old(self).mem_seq(), addr as int) },
                )
            } else {
                old(self).trace_seq()
            }),
            ({
                let pre = old(self).vm();
                match step_spec(pre, addr) {
                    StepSpec::Halt => {
                        &&& r == Ok::<Int, VmError>(-1i64)
                        &&& final(self).vm() == pre
                        &&& *final(input) == *old(input)
                        &&& *final(output) == *old(output)
                    },
                    StepSpec::Move { m, next } => {
                        &&& r == Ok::<Int, VmError>(next)
                        &&& final(self).vm() == m
                        &&& *final(input) == *old(input)
                        &&& *final(output) == *old(output)
                    },
                    StepSpec::Emit { v, next } => {
                        &&& final(self).vm() == pre
                        &&& *final(input) == *old(input)
                        &&& match *old(output) {
                            Output::Disabled => r == Ok::<Int, VmError>(next) && *final(output)
                                == *old(output),
                            Output::Writer(b) => r == Ok::<Int, VmError>(next) && (*final(output)
                                matches Output::Writer(b2) && b2@ == b@ + dec_bytes(v as int)
                                + seq![10u8]),
                            Output::Stdout(_) => (r == Ok::<Int, VmError>(next) || r == Err::<
                                Int,
                                VmError,
                            >(VmError::StreamFailed)) && *final(output) == *old(output),
                            Output::Channel(_) => (r == Ok::<Int, VmError>(next) || r == Err::<
                                Int,
                                VmError,
                            >(VmError::ChannelClosed)) && *final(output) == *old(output),
                        }
                    },
                    StepSpec::Read { dst, next } => match *old(input) {
                        Input::Disabled => {
                            &&& r == Err::<Int, VmError>(VmError::NoInput)
                            &&& final(self).vm() == pre
                            &&& *final(input) == *old(input)
                            &&& *final(output) == *old(output)
                        },
                        Input::String(s0) => {
                            &&& *final(input) == *old(input)
                            &&& *final(output) == *old(output)
                            &&& match spec_parse_int(s0.spec_bytes()) {
                                Some(x) => r == Ok::<Int, VmError>(next) && final(self).vm() == (
                                Machine { mem: store(pre.mem, dst as int, x), base: pre.base }),
                                None => r == Err::<Int, VmError>(VmError::InputParse) && final(self).vm() == pre,
                            }
                        },
                        Input::Reader(feed) => ({
                            let x = spec_parse_int(next_line(feed.text_seq(), feed.pos_val()));
                            ||| {
                                // the prompt could not reach standard output
                                &&& *old(output) matches Output::Stdout(_)
                                &&& r == Err::<Int, VmError>(VmError::StreamFailed)
                                &&& final(self).vm() == pre
                                &&& *final(input) == *old(input)
                                &&& *final(output) == *old(output)
                            }
                            ||| {
                                &&& prompted(*old(output), *final(output))
                                &&& (*final(input) matches Input::Reader(f2) && f2.text_seq()
                                    == feed.text_seq() && feed.pos_val() <= f2.pos_val()
                                    && f2.pos_val() == line_end(feed.text_seq(), feed.pos_val()))
                                &&& match x {
                                    Some(xv) => r == Ok::<Int, VmError>(next) && final(self).vm()
                                        == (Machine {
                                        mem: store(pre.mem, dst as int, xv),
                                        base: pre.base,
                                    }),
                                    None => r == Err::<Int, VmError>(VmError::InputParse) && final(self).vm() == pre,
                                }
                            }
                        }),
                        Input::Stdin(_) => {
                            &&& *final(input) == *old(input)
                            &&& match r {
                                Ok(n2) => n2 == next && prompted(*old(output), *final(output))
                                    && (exists|xv: Int|
                                    final(self).vm() == (Machine {
                                        mem: store(pre.mem, dst as int, xv),
                                        base: pre.base,
                                    })),
                                Err(e) => (e == VmError::InputParse || e == VmError::StreamFailed)
                                    && final(self).vm() == pre && (prompted(
                                    *old(output),
                                    *final(output),
                                ) || *final(output) == *old(output)),
                            }
                        },
                        Input::Channel(_) => {
                            &&& *final(input) == *old(input)
                            &&& *final(output) == *old(output)
                            &&& match r {
                                Ok(n2) => n2 == next && (exists|xv: Int|
                                    final(self).vm() == (Machine {
                                        mem: store(pre.mem, dst as int, xv),
                                        base: pre.base,
                                    })),
                                Err(e) => e == VmError::ChannelClosed && final(self).vm() == pre,
                            }
                        },
                    },
                    StepSpec::Fail { err } => {
                        &&& r == Err::<Int, VmError>(err)
                        &&& final(self).vm() == pre
                        &&& *final(input) == *old(input)
                        &&& *final(output) == *old(output)
                    },
                }
            }),
    {
        if addr < 0 {
            return Err(VmError::NegativeAddress { addr });
        }
        let v = self.peek(addr);
        let op = match crate::decode::op(v) {
            Some(o) => o,
            None => {
                return Err(VmError::UnknownOpcode { addr, value: v });
            },
        };
        let (m0, m1, m2) = match crate::decode::modes3(v) {
            Some(t) => t,
            None => {
                return Err(VmError::UnknownMode { addr, value: v });
            },
        };
        self.stack.push(StackEntry { address: addr, value: v });
        if trace {
            trace_line(addr, v, op.mnemonic());
        }
        match op {
            Operation::End => Ok(-1),
            Operation::Add => self.step_binop(addr, op, m0, m1, m2),
            Operation::Mul => self.step_binop(addr, op, m0, m1, m2),
            Operation::LessThan => self.step_binop(addr, op, m0, m1, m2),
            Operation::EqualTo => self.step_binop(addr, op, m0, m1, m2),
            Operation::JumpNotZero => self.step_jump(addr, true, m0, m1),
            Operation::JumpZero => self.step_jump(addr, false, m0, m1),
            Operation::RelBase => self.step_rel_base(addr, m0),
            Operation::Output => {
                let a1 = addr.wrapping_add(1);
                if a1 < 0 {
                    return Err(VmError::NegativeAddress { addr: a1 });
                }
                let p1 = self.peek(a1);
                let xv = self.try_pval(m0, p1)?;
                match output {
                    Output::Disabled => {},
                    Output::Writer(buf) => {
                        let ghost b0 = buf@;
                        crate::text::push_int(buf, xv);
                        buf.push(10);
                        proof {
                            assert(buf@ =~= b0 + dec_bytes(xv as int) + seq![10u8]);
                        }
                    },
                    Output::Stdout(h) => {
                        let mut line = crate::text::int_to_text(xv);
                        line.push(10);
                        match stdout_write(h, &line) {
                            Ok(()) => {},
                            Err(e) => {
                                return Err(e);
                            },
                        }
                    },
                    Output::Channel(tx) => {
                        match chan_send(tx, xv) {
                            Ok(()) => {},
                            Err(e) => {
                                return Err(e);
                            },
                        }
                    },
                }
                Ok(addr.wrapping_add(2))
            },
            Operation::Input => {
                let a1 = addr.wrapping_add(1);
                if a1 < 0 {
                    return Err(VmError::NegativeAddress { addr: a1 });
                }
                let p1 = self.peek(a1);
                if m0 == Mode::Value {
                    return Err(VmError::WriteToValueMode { addr });
                }
                let t = self.paddr(&m0, p1);
                if t < 0 {
                    return Err(VmError::NegativeAddress { addr: t });
                }
                if (t as u64) >= (usize::MAX as u64) {
                    return Err(VmError::AddressTooLarge { addr: t });
                }
                let x: Int = match input {
                    Input::Disabled => {
                        return Err(VmError::NoInput);
                    },
                    Input::String(s0) => {
                        match crate::text::parse_int(*s0) {
                            Some(xv) => xv,
                            None => {
                                return Err(VmError::InputParse);
                            },
                        }
                    },
                    Input::Reader(feed) => {
                        match prompt(output) {
                            Ok(()) => {},
                            Err(e) => {
                                return Err(e);
                            },
                        }
                        match feed.read_int() {
                            Some(xv) => xv,
                            None => {
                                return Err(VmError::InputParse);
                            },
                        }
                    },
                    Input::Stdin(h) => {
                        match prompt(output) {
                            Ok(()) => {},
                            Err(e) => {
                                return Err(e);
                            },
                        }
                        let line = match stdin_read_line(h) {
                            Ok(l) => l,
                            Err(e) => {
                                return Err(e);
                            },
                        };
                        match crate::text::parse_int(line.as_str()) {
                            Some(xv) => xv,
                            None => {
                                return Err(VmError::InputParse);
                            },
                        }
                    },
                    Input::Channel(rx) => {
                        match chan_recv(rx) {
                            Ok(xv) => xv,
                            Err(e) => {
                                return Err(e);
                            },
                        }
                    },
                };
                self.poke(t, x);
                Ok(addr.wrapping_add(2))
            },
        }
    }

    /// Run to completion: step repeatedly from `addr`, threading each
    /// returned address into the next step, until a step signals the halt
    /// address `-1` or fails; the first error is returned unchanged. On
    /// success the final state is reached from the starting state by the
    /// step semantics for exactly the values read and emitted: a literal
    /// string fed its one value each time, a line feed fed the parses of
    /// its successive lines, and an in-memory sink received exactly the
    /// emitted values' decimal lines (with prompt bytes interleaved only
    /// when input is line oriented). An astronomically large step budget
    /// bounds the loop; the budget error can only come back after that many
    /// steps were really taken.
    #[verifier::rlimit(100)]
    pub fn exe(&mut self, addr: Int, trace: bool, input: &mut Input<'_>, output: &mut Output) -> (r:
        Result<(), VmError>)
        ensures
            final(self).source_seq() == old(self).source_seq(),
            old(self).trace_seq().is_prefix_of(final(self).trace_seq()),
            r matches Ok(_) ==> exists|n: nat, a: Int, ins: Seq<Int>, outs: Seq<Int>|
                {
                    &&& #[trigger] reaches_io(
                        old(self).vm(),
                        addr,
                        final(self).vm(),
                        a,
                        ins,
                        outs,
                        n,
                    )
                    &&& halts_at(final(self).vm(), a)
                    &&& consumed_from(*old(input), *final(input), ins)
                    &&& emitted_to(*old(output), *final(output), outs, line_oriented(*old(input)))
                },
            r matches Err(e) ==> exists|n: nat, a: Int, ins: Seq<Int>, outs: Seq<Int>|
                {
                    &&& #[trigger] reaches_io(
                        old(self).vm(),
                        addr,
                        final(self).vm(),
                        a,
                        ins,
                        outs,
                        n,
                    )
                    &&& e == VmError::StepLimit || may_fail(
                        final(self).vm(),
                        a,
                        e,
                        *final(input),
                        *final(output),
                    )
                    &&& err_consumed(*old(input), *final(input), ins, e)
                    &&& emitted_to(*old(output), *final(output), outs, line_oriented(*old(input)))
                },
            // the budget error is owed a full-budget execution: any program
            // the step semantics stops earlier ends in Ok or its own error
            r == Err::<(), VmError>(VmError::StepLimit) ==> exists|a: Int|
                reaches(old(self).vm(), addr, final(self).vm(), a, u64::MAX as nat),
            // partial output already emitted stays: an in-memory sink is only
            // appended to, and other sinks are handles the run cannot replace
            match *old(output) {
                Output::Writer(b) => *final(output) matches Output::Writer(b2)
                    && b@.is_prefix_of(b2@),
                _ => *final(output) == *old(output),
            },
            // an in-memory line feed only advances; other sources are handles
            match *old(input) {
                Input::Reader(f) => *final(input) matches Input::Reader(f2) && f2.text_seq()
                    == f.text_seq() && f.pos_val() <= f2.pos_val(),
                _ => *final(input) == *old(input),
            },
    {
        let ghost m0 = self.vm();
        let ghost t0 = self.trace_seq();
        let mut cur = addr;
        let mut fuel: u64 = u64::MAX;
        let ghost mut ins: Seq<Int> = Seq::empty();
        let ghost mut outs: Seq<Int> = Seq::empty();
        proof {
            assert(reaches_io(m0, addr, m0, addr, ins, outs, 0));
            match *old(input) {
                Input::Reader(f) => {
                    assert(ins =~= feed_vals(f.text_seq(), f.pos_val(), 0));
                    assert(reader_consumed(f, f, ins, 0));
                },
                _ => {},
            }
            match *old(output) {
                Output::Writer(b) => {
                    assert(b@ + out_lines(outs) =~= b@);
                },
                _ => {},
            }
        }
        loop
            invariant
                m0 == old(self).vm(),
                t0 == old(self).trace_seq(),
                self.source_seq() == old(self).source_seq(),
                t0.is_prefix_of(self.trace_seq()),
                reaches_io(m0, addr, self.vm(), cur, ins, outs, (u64::MAX - fuel) as nat),
                consumed_from(*old(input), *input, ins),
                emitted_to(*old(output), *output, outs, line_oriented(*old(input))),
                match *old(output) {
                    Output::Writer(b) => *output matches Output::Writer(b2) && b@.is_prefix_of(
                        b2@,
                    ),
                    _ => *output == *old(output),
                },
                match *old(input) {
                    Input::Reader(f) => *input matches Input::Reader(f2) && f2.text_seq()
                        == f.text_seq() && f.pos_val() <= f2.pos_val(),
                    _ => *input == *old(input),
                },
            decreases fuel,
        {
            if fuel == 0 {
                proof {
                    lemma_reaches_io_reaches(m0, addr, self.vm(), cur, ins, outs, u64::MAX as nat);
                    lemma_consumed_err(*old(input), *input, ins, VmError::StepLimit);
                }
                return Err(VmError::StepLimit);
            }
            let ghost n0 = (u64::MAX - fuel) as nat;
            fuel = fuel - 1;
            let ghost pre = self.vm();
            let ghost tpre = self.trace_seq();
            let ghost inp_pre = *input;
            let ghost out_pre = *output;
            let ghost ins0 = ins;
            let ghost outs0 = outs;
            let stepped = self.step(cur, trace, input, output);
            proof {
                // whatever the step did, the in-memory sink only grew
                let o_now = *output;
                match (*old(output), out_pre, o_now) {
                    (Output::Writer(b1), Output::Writer(b2), Output::Writer(b3)) => {
                        assert(b2@.len() <= b3@.len() && b2@ =~= b3@.subrange(
                            0,
                            b2@.len() as int,
                        ));
                        lemma_prefix_trans(b1@, b2@, b3@);
                    },
                    _ => {},
                }
                // and the trace only grew
                assert(t0.is_prefix_of(self.trace_seq())) by {
                    if decodes(pre, cur) {
                        assert(self.trace_seq().subrange(0, t0.len() as int) =~= tpre.subrange(
                            0,
                            t0.len() as int,
                        ));
                    }
                }
            }
            match stepped {
                Ok(next) => {
                    proof {
                        let s = step_spec(pre, cur);
                        if s is Halt {
                            assert(self.vm() == pre);
                        } else {
                            // record what this step read and emitted
                            let rd: Option<Int> = if s is Read {
                                match inp_pre {
                                    Input::Disabled => None,
                                    Input::String(s0) => Some(
                                        spec_parse_int(s0.spec_bytes())->0,
                                    ),
                                    Input::Reader(f2) => Some(
                                        spec_parse_int(next_line(f2.text_seq(), f2.pos_val()))->0,
                                    ),
                                    Input::Stdin(_) => Some(
                                        choose|v: Int|
                                            self.vm() == (Machine {
                                                mem: store(pre.mem, s->Read_dst as int, v),
                                                base: pre.base,
                                            }),
                                    ),
                                    Input::Channel(_) => Some(
                                        choose|v: Int|
                                            self.vm() == (Machine {
                                                mem: store(pre.mem, s->Read_dst as int, v),
                                                base: pre.base,
                                            }),
                                    ),
                                }
                            } else {
                                None
                            };
                            let em: Option<Int> = if s is Emit {
                                Some(s->Emit_v)
                            } else {
                                None
                            };
                            assert(can_step_io(pre, cur, self.vm(), next, rd, em));
                            lemma_reaches_io_step(
                                m0,
                                addr,
                                pre,
                                cur,
                                self.vm(),
                                next,
                                ins0,
                                outs0,
                                rd,
                                em,
                                n0,
                            );
                            ins = ins0 + opt_seq(rd);
                            outs = outs0 + opt_seq(em);
                            // feed bookkeeping: one more line consumed
                            match *old(input) {
                                Input::Reader(f) => {
                                    if s is Read {
                                        let i_now = *input;
                                        match (inp_pre, i_now) {
                                            (Input::Reader(f2), Input::Reader(f3)) => {
                                                let k = choose|k: nat|
                                                    reader_consumed(f, f2, ins0, k);
                                                lemma_feed_snoc(
                                                    f.text_seq(),
                                                    f.pos_val(),
                                                    k,
                                                );
                                                assert(reader_consumed(f, f3, ins, k + 1));
                                            },
                                            _ => {},
                                        }
                                    }
                                },
                                _ => {},
                            }
                            // sink bookkeeping: one more line emitted
                            let o_now2 = *output;
                            match (*old(output), out_pre, o_now2) {
                                (
                                    Output::Writer(b1),
                                    Output::Writer(b2),
                                    Output::Writer(b3),
                                ) => {
                                    if s is Emit && !line_oriented(*old(input)) {
                                        let v = s->Emit_v;
                                        assert((outs0 + seq![v]).drop_last() =~= outs0);
                                        assert(out_lines(outs) == out_lines(outs0) + dec_bytes(
                                            v as int,
                                        ) + seq![10u8]);
                                        assert(b3@ =~= b1@ + out_lines(outs));
                                    }
                                },
                                _ => {},
                            }
                        }
                    }
                    if next == -1 {
                        proof {
                            if step_spec(pre, cur) is Halt {
                                assert(reaches_io(m0, addr, self.vm(), cur, ins, outs, n0));
                                assert(halts_at(self.vm(), cur));
                            } else {
                                assert(reaches_io(
                                    m0,
                                    addr,
                                    self.vm(),
                                    -1i64,
                                    ins,
                                    outs,
                                    n0 + 1,
                                ));
                                assert(halts_at(self.vm(), -1i64));
                            }
                        }
                        return Ok(());
                    }
                    cur = next;
                },
                Err(e) => {
                    proof {
                        assert(self.vm() == pre);
                        assert(may_fail(self.vm(), cur, e, *input, *output));
                        assert(e != VmError::StepLimit);
                        match *old(input) {
                            Input::Reader(f) => {
                                let i_now = *input;
                                match (inp_pre, i_now) {
                                    (Input::Reader(f2), Input::Reader(f3)) => {
                                        let k = choose|k: nat| reader_consumed(f, f2, ins0, k);
                                        // a failing read consumed one line
                                        // that did not parse
                                        lemma_feed_snoc(f.text_seq(), f.pos_val(), k);
                                        assert(err_consumed(*old(input), i_now, ins, e));
                                    },
                                    _ => {},
                                }
                            },
                            _ => {
                                lemma_consumed_err(*old(input), *input, ins, e);
                            },
                        }
                    }
                    return Err(e);
                },
            }
        }
    }
}

/// Successive lines drawn from a fixed text, for deterministic input. Each
/// read yields one line, newline included; at the end of the text the line
/// is empty, which no longer parses as an integer.
pub struct LineFeed<'a> {
    text: &'a [u8],
    pos: usize,
}

impl<'a> LineFeed<'a> {
    /// The whole text this feed reads from.
    pub closed spec fn text_seq(self) -> Seq<u8> {
        self.text@
    }

    /// How far the feed has read.
    pub closed spec fn pos_val(self) -> int {
        self.pos as int
    }

    #[verifier::type_invariant]
    spec fn wf(self) -> bool {
        self.pos <= self.text@.len()
    }

    /// A feed at the start of `s`.
    pub fn new(s: &'a str) -> (f: LineFeed<'a>)
        ensures
            f.text_seq() == s.spec_bytes(),
            f.pos_val() == 0,
    {
        LineFeed { text: s.as_bytes(), pos: 0 }
    }

    /// Read the next line and parse it, trimmed, as one signed integer.
    pub fn read_int(&mut self) -> (r: Option<Int>)
        ensures
            final(self).text_seq() == old(self).text_seq(),
            final(self).pos_val() == line_end(old(self).text_seq(), old(self).pos_val()),
            old(self).pos_val() <= final(self).pos_val(),
            r == spec_parse_int(next_line(old(self).text_seq(), old(self).pos_val())),
    {
        proof {
            use_type_invariant(&*self);
        }
        let n = self.text.len();
        let start = self.pos;
        let mut j = start;
        while j < n && self.text[j] != 10
            invariant
                start <= j <= n == self.text@.len(),
                forall|k: int| start <= k < j ==> self.text@[k] != 10,
            decreases n - j,
        {
            j = j + 1;
        }
        let end = if j < n {
            j + 1
        } else {
            j
        };
        proof {
            lemma_line_end_from(self.text@, start as int, j as int);
            assert(line_end(self.text@, start as int) == end);
        }
        let r = crate::text::parse_trimmed(self.text, start, end);
        self.pos = end;
        r
    }
}

/// The input capability of a run: where an input instruction takes its
/// value from. With `Disabled`, an input instruction is an error.
pub enum Input<'a> {
    /// No input is available; an input instruction fails.
    Disabled,
    /// Every input instruction parses this same string.
    String(&'a str),
    /// Input instructions read successive lines of a fixed text.
    Reader(LineFeed<'a>),
    /// Input instructions read lines interactively from standard input,
    /// prompting on the output sink first.
    Stdin(std::io::Stdin),
    /// Input instructions take one message each from a channel.
    Channel(Receiver<Int>),
}

/// The output capability of a run: where an output instruction sends its
/// value. With `Disabled`, output instructions succeed and their value is
/// discarded — deliberately not an error, unlike disabled input: the
/// inspector single-steps programs with no sink attached, and batch runs
/// that only probe memory do the same.
pub enum Output {
    /// Output is discarded, successfully.
    Disabled,
    /// Each value is appended, in decimal with a trailing newline, to this
    /// in-memory sink.
    Writer(Vec<u8>),
    /// Each value is written, in decimal with a trailing newline, to
    /// standard output.
    Stdout(std::io::Stdout),
    /// Each value is sent as one message on a channel.
    Channel(Sender<Int>),
}

#[verifier::external_type_specification]
#[verifier::external_body]
#[verifier::reject_recursive_types(T)]
pub struct ExReceiver<T>(std::sync::mpsc::Receiver<T>);

#[verifier::external_type_specification]
#[verifier::external_body]
#[verifier::reject_recursive_types(T)]
pub struct ExSender<T>(std::sync::mpsc::Sender<T>);

#[verifier::external_type_specification]
#[verifier::external_body]
pub struct ExStdin(std::io::Stdin);

#[verifier::external_type_specification]
#[verifier::external_body]
pub struct ExStdout(std::io::Stdout);

/// Relies on std::sync::mpsc::Receiver::recv: blocks until one message
/// arrives, and fails exactly when the channel is empty and its sender is
/// gone. Nothing can be promised about which value arrives.
#[verifier::external_body]
fn chan_recv(rx: &Receiver<Int>) -> (r: Result<Int, VmError>)
    ensures
        match r {
            Ok(_) => true,
            Err(e) => e == VmError::ChannelClosed,
        },
{
    match rx.recv() {
        Ok(v) => Ok(v),
        Err(_) => Err(VmError::ChannelClosed),
    }
}

/// Relies on std::sync::mpsc::Sender::send: queues the value, and fails
/// exactly when the receiver is gone.
#[verifier::external_body]
fn chan_send(tx: &Sender<Int>, v: Int) -> (r: Result<(), VmError>)
    ensures
        match r {
            Ok(_) => true,
            Err(e) => e == VmError::ChannelClosed,
        },
{
    match tx.send(v) {
        Ok(()) => Ok(()),
        Err(_) => Err(VmError::ChannelClosed),
    }
}

/// Relies on std::io::Stdin::read_line: blocks for one line of input,
/// newline included; at end of input the buffer stays empty. Nothing can be
/// promised about what is typed.
#[verifier::external_body]
fn stdin_read_line(stdin: &std::io::Stdin) -> (r: Result<String, VmError>)
    ensures
        match r {
            Ok(_) => true,
            Err(e) => e == VmError::StreamFailed,
        },
{
    let mut line = String::new();
    match stdin.read_line(&mut line) {
        Ok(_) => Ok(line),
        Err(_) => Err(VmError::StreamFailed),
    }
}

/// Relies on std::io::Write::write_all for standard output: writes all the
/// bytes or fails.
#[verifier::external_body]
fn stdout_write(stdout: &std::io::Stdout, bytes: &Vec<u8>) -> (r: Result<(), VmError>)
    ensures
        match r {
            Ok(_) => true,
            Err(e) => e == VmError::StreamFailed,
        },
{
    let mut w = stdout;
    match w.write_all(bytes.as_slice()) {
        Ok(()) => Ok(()),
        Err(_) => Err(VmError::StreamFailed),
    }
}

/// Relies on std::io::Write::flush for standard output, so a prompt shows
/// before the machine blocks on input.
#[verifier::external_body]
fn stdout_flush(stdout: &std::io::Stdout) -> (r: Result<(), VmError>)
    ensures
        match r {
            Ok(_) => true,
            Err(e) => e == VmError::StreamFailed,
        },
{
    let mut w = stdout;
    match w.flush() {
        Ok(()) => Ok(()),
        Err(_) => Err(VmError::StreamFailed),
    }
}

/// Relies on the writeln macro over standard error: one diagnostic line,
/// never read back by the machine.
#[verifier::external_body]
fn trace_line(addr: Int, value: Int, name: &str) {
    let _ = writeln!(std::io::stderr(), "{}: {} ({})", addr, value, name);
}

/// The prompt byte `?` reached the sink: visible in an in-memory sink,
/// stated as unchanged handles elsewhere.
pub open spec fn prompted(o1: Output, o2: Output) -> bool {
    match o1 {
        Output::Writer(b) => o2 matches Output::Writer(b2) && b2@ == b@ + seq![63u8],
        _ => o2 == o1,
    }
}

/// Whether a capability needs a prompt before each read: the line-oriented
/// sources announce that input is awaited.
pub open spec fn line_oriented(i: Input<'_>) -> bool {
    i matches Input::Reader(_) || i matches Input::Stdin(_)
}

/// A line feed that started as `f` has consumed exactly `k` lines, each of
/// which parsed, and now stands as `f2`; `ins` are the parsed values.
pub open spec fn reader_consumed(f: LineFeed<'_>, f2: LineFeed<'_>, ins: Seq<Int>, k: nat) -> bool {
    &&& f2.text_seq() == f.text_seq()
    &&& f2.pos_val() == feed_after(f.text_seq(), f.pos_val(), k)
    &&& feed_parses(f.text_seq(), f.pos_val(), k)
    &&& ins == feed_vals(f.text_seq(), f.pos_val(), k)
}

/// What a run's input capability, started as `i1` and left as `i2`, fed to
/// the machine: nothing when disabled, the literal string's one value over
/// and over, the parses of a line feed's successive lines. Of the outside
/// sources nothing can be pinned.
pub open spec fn consumed_from(i1: Input<'_>, i2: Input<'_>, ins: Seq<Int>) -> bool {
    match i1 {
        Input::Disabled => ins.len() == 0,
        Input::String(s) => forall|j: int|
            0 <= j < ins.len() ==> spec_parse_int(s.spec_bytes()) == Some(#[trigger] ins[j]),
        Input::Reader(f) => match i2 {
            Input::Reader(f2) => exists|k: nat| reader_consumed(f, f2, ins, k),
            _ => false,
        },
        Input::Stdin(_) => true,
        Input::Channel(_) => true,
    }
}

/// What a run's output capability received: an in-memory sink holds its old
/// content followed by exactly the emitted values' decimal lines — unless a
/// line-oriented input may have interleaved prompt bytes, in which case
/// only growth is claimed (separately). Other sinks hold no state here.
pub open spec fn emitted_to(o1: Output, o2: Output, outs: Seq<Int>, prompts: bool) -> bool {
    match o1 {
        Output::Writer(b) => match o2 {
            Output::Writer(b2) => prompts || b2@ == b@ + out_lines(outs),
            _ => false,
        },
        _ => true,
    }
}

/// What a run's input capability fed before it stopped with error `e`:
/// like `consumed_from`, except that a line feed whose read failed to parse
/// stands one line past the values it fed, with that line pinned as the
/// unparseable one.
pub open spec fn err_consumed(i1: Input<'_>, i2: Input<'_>, ins: Seq<Int>, e: VmError) -> bool {
    match i1 {
        Input::Disabled => ins.len() == 0,
        Input::String(s) => forall|j: int|
            0 <= j < ins.len() ==> spec_parse_int(s.spec_bytes()) == Some(#[trigger] ins[j]),
        Input::Reader(f) => match i2 {
            Input::Reader(f2) => exists|k: nat|
                {
                    &&& f2.text_seq() == f.text_seq()
                    &&& #[trigger] feed_parses(f.text_seq(), f.pos_val(), k)
                    &&& ins == feed_vals(f.text_seq(), f.pos_val(), k)
                    &&& if e == VmError::InputParse {
                        // only a failing read raises this under a line feed,
                        // and it leaves the feed past the unparseable line
                        &&& f2.pos_val() == feed_after(f.text_seq(), f.pos_val(), (k + 1) as nat)
                        &&& spec_parse_int(
                            next_line(f.text_seq(), feed_after(f.text_seq(), f.pos_val(), k)),
                        ) is None
                    } else {
                        f2.pos_val() == feed_after(f.text_seq(), f.pos_val(), k)
                    }
                },
            _ => false,
        },
        Input::Stdin(_) => true,
        Input::Channel(_) => true,
    }
}

/// Whether one step at `(m, a)` can fail with `e` under these capabilities:
/// the step's own faults, and what each capability can refuse. With disabled
/// I/O on a program that needs none, no failure is possible at all.
pub open spec fn may_fail(m: Machine, a: Int, e: VmError, inp: Input<'_>, out: Output) -> bool {
    match step_spec(m, a) {
        StepSpec::Fail { err } => e == err,
        StepSpec::Read { .. } => match inp {
            Input::Disabled => e == VmError::NoInput,
            Input::String(s) => e == VmError::InputParse && spec_parse_int(s.spec_bytes()) is None,
            Input::Reader(_) => e == VmError::InputParse || (e == VmError::StreamFailed
                && out is Stdout),
            Input::Stdin(_) => e == VmError::InputParse || e == VmError::StreamFailed,
            Input::Channel(_) => e == VmError::ChannelClosed,
        },
        StepSpec::Emit { .. } => match out {
            Output::Stdout(_) => e == VmError::StreamFailed,
            Output::Channel(_) => e == VmError::ChannelClosed,
            _ => false,
        },
        _ => false,
    }
}

/// Write the input prompt `?` to the sink, where one is active, and flush
/// it, so an interactive user sees that input is awaited.
fn prompt(output: &mut Output) -> (r: Result<(), VmError>)
    ensures
        r is Ok ==> prompted(*old(output), *final(output)),
        r is Err ==> {
            &&& r == Err::<(), VmError>(VmError::StreamFailed)
            &&& *final(output) == *old(output)
            &&& *old(output) matches Output::Stdout(_)
        },
{
    match output {
        Output::Writer(buf) => {
            let ghost b0 = buf@;
            buf.push(63);
            proof {
                assert(buf@ =~= b0 + seq![63u8]);
            }
            return Ok(());
        },
        _ => {},
    }
    match &*output {
        Output::Stdout(o) => {
            let mut q: Vec<u8> = Vec::new();
            q.push(63);
            match stdout_write(o, &q) {
                Ok(()) => {},
                Err(e) => {
                    return Err(e);
                },
            }
            stdout_flush(o)
        },
        _ => Ok(()),
    }
}

/// An input capability that fed its values cleanly also satisfies the
/// failure-shaped account, with no line blamed.
proof fn lemma_consumed_err(i1: Input<'_>, i2: Input<'_>, ins: Seq<Int>, e: VmError)
    requires
        consumed_from(i1, i2, ins),
        i1 matches Input::Reader(_) ==> e != VmError::InputParse,
    ensures
        err_consumed(i1, i2, ins, e),
{
    match i1 {
        Input::Reader(f) => {
            match i2 {
                Input::Reader(f2) => {
                    let k = choose|k: nat| reader_consumed(f, f2, ins, k);
                    assert(feed_parses(f.text_seq(), f.pos_val(), k) && f2.text_seq()
                        == f.text_seq() && ins == feed_vals(f.text_seq(), f.pos_val(), k)
                        && f2.pos_val() == feed_after(f.text_seq(), f.pos_val(), k));
                },
                _ => {},
            }
        },
        _ => {},
    }
}

/// A prefix of a prefix is a prefix.
proof fn lemma_prefix_trans(a: Seq<u8>, b: Seq<u8>, c: Seq<u8>)
    requires
        a.is_prefix_of(b),
        b.is_prefix_of(c),
    ensures
        a.is_prefix_of(c),
{
    assert forall|i: int| 0 <= i < a.len() implies a[i] == c.subrange(0, a.len() as int)[i] by {
        assert(a[i] == b.subrange(0, b.len() as int)[i]);
        assert(b[i] == c.subrange(0, b.len() as int)[i]);
    }
    assert(a =~= c.subrange(0, a.len() as int));
}

/// A plain element-wise copy of a cell vector.
fn copy_cells(v: &Vec<Int>) -> (r: Vec<Int>)
    ensures
        r@ == v@,
{
    let mut r: Vec<Int> = Vec::new();
    let mut i: usize = 0;
    while i < v.len()
        invariant
            0 <= i <= v@.len(),
            r@ == v@.take(i as int),
        decreases v@.len() - i,
    {
        r.push(v[i]);
        proof {
            assert(v@.take(i + 1) =~= v@.take(i as int).push(v@[i as int]));
        }
        i = i + 1;
    }
    proof {
        assert(v@.take(v@.len() as int) =~= v@);
    }
    r
}

} // verus!

