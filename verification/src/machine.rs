//! The mathematical model of the virtual machine: execution memory as an
//! unbounded zero-extended tape, the relative-base register, and the effect
//! of one instruction as a function of that state. The executable engine in
//! the `vm` module is specified against this model.
use vstd::prelude::*;

use crate::Int;
use crate::decode::Mode;
use crate::decode::Operation;
use crate::decode::spec_modes;
use crate::decode::spec_op;

verus! {

/// Everything an instruction's effect depends on: the memory tape and the
/// relative base. The execution trace is deliberately not part of this
/// state; it records history and never feeds back into execution.
pub struct Machine {
    pub mem: Seq<Int>,
    pub base: Int,
}

/// Why a step failed. `SourceParse`, `InputParse`, `NoInput`,
/// `ChannelClosed` and `StreamFailed` arise from loading and from the I/O
/// capabilities; the rest are decoding and addressing faults.
#[derive(Clone, Copy, Debug, PartialEq, Eq, Structural)]
pub enum VmError {
    /// The low two decimal digits of the cell at `addr` are not an opcode.
    UnknownOpcode { addr: Int, value: Int },
    /// A mode digit of the cell at `addr` is not a known addressing mode.
    UnknownMode { addr: Int, value: Int },
    /// Execution asked to read or write the negative address `addr`.
    NegativeAddress { addr: Int },
    /// A write operand of the instruction at `addr` uses `Value` mode,
    /// which never names a writable location.
    WriteToValueMode { addr: Int },
    /// A write would grow memory past what this host can index.
    AddressTooLarge { addr: Int },
    /// The program source held a field that is not a signed integer.
    SourceParse,
    /// Input text did not parse as a signed integer.
    InputParse,
    /// An input instruction ran with no input capability configured.
    NoInput,
    /// The other end of a message channel is gone.
    ChannelClosed,
    /// The underlying byte stream failed.
    StreamFailed,
    /// The run loop's step budget ran out. The budget is so large that no
    /// real program reaches it; it exists so the loop provably terminates.
    StepLimit,
}

/// The value of the tape at address `a`: cells beyond the current length
/// read as zero, as if the tape had been grown with zero fill.
pub open spec fn cell(mem: Seq<Int>, a: int) -> Int {
    if 0 <= a < mem.len() {
        mem[a]
    } else {
        0
    }
}

/// The tape after writing `v` at address `a`, growing with zero fill first
/// when `a` lies beyond the current length.
pub open spec fn store(mem: Seq<Int>, a: int, v: Int) -> Seq<Int>
    recommends
        0 <= a,
{
    if a < mem.len() {
        mem.update(a, v)
    } else {
        (mem + Seq::<Int>::new((a + 1 - mem.len()) as nat, |i: int| 0)).update(a, v)
    }
}

/// Whether resolving an operand for reading stays within the non-negative
/// address space. A literal operand needs no address at all.
pub open spec fn rv_ok(m: Machine, mode: Mode, x: Int) -> bool {
    match mode {
        Mode::Pointer => x >= 0,
        Mode::Value => true,
        Mode::Relative => x.wrapping_add(m.base) >= 0,
    }
}

/// The address a `Pointer` or `Relative` operand names.
pub open spec fn rv_addr(m: Machine, mode: Mode, x: Int) -> Int
    recommends
        mode != Mode::Value,
{
    match mode {
        Mode::Pointer => x,
        Mode::Value => x,
        Mode::Relative => x.wrapping_add(m.base),
    }
}

/// The value an operand resolves to for reading.
pub open spec fn rv(m: Machine, mode: Mode, x: Int) -> Int {
    match mode {
        Mode::Pointer => cell(m.mem, x as int),
        Mode::Value => x,
        Mode::Relative => cell(m.mem, x.wrapping_add(m.base) as int),
    }
}

/// The value a four-cell arithmetic or comparison instruction writes.
/// Addition and multiplication wrap as the host's signed integers do.
pub open spec fn alu(op: Operation, x1: Int, x2: Int) -> Int {
    match op {
        Operation::Add => x1.wrapping_add(x2),
        Operation::Mul => x1.wrapping_mul(x2),
        Operation::LessThan => if x1 < x2 {
            1
        } else {
            0
        },
        Operation::EqualTo => if x1 == x2 {
            1
        } else {
            0
        },
        _ => 0,
    }
}

/// The effect of the instruction at `addr`, before any I/O capability is
/// consulted.
pub enum StepSpec {
    /// The machine halts; memory and base are untouched.
    Halt,
    /// A step with no I/O: the machine becomes `m` and execution continues
    /// at `next`.
    Move { m: Machine, next: Int },
    /// An input instruction: one value is to be read and written at `dst`,
    /// after which execution continues at `next`.
    Read { dst: Int, next: Int },
    /// An output instruction: `v` is to be emitted, the machine is
    /// untouched, and execution continues at `next`.
    Emit { v: Int, next: Int },
    /// The instruction faults before touching any capability.
    Fail { err: VmError },
}

/// Whether a write may name address `a` on this host: memory is an
/// indexable sequence, so the tape grown to hold `a` must still fit the
/// host's index type.
pub open spec fn fits_index(a: Int) -> bool {
    (a as int) < usize::MAX as int
}

/// The effect of a four-cell instruction (`Add`, `Mul`, `LessThan`,
/// `EqualTo`): two operands are resolved, their combination is written to
/// the target named by the third operand. Checks mirror the engine's
/// evaluation order: target cell fetch, write-mode validity, first operand,
/// second operand, then the resolved target address.
pub open spec fn binop_spec(m: Machine, addr: Int, op: Operation, m0: Mode, m1: Mode, m2: Mode) -> StepSpec {
    let a3 = addr.wrapping_add(3);
    if a3 < 0 {
        StepSpec::Fail { err: VmError::NegativeAddress { addr: a3 } }
    } else if m2 == Mode::Value {
        StepSpec::Fail { err: VmError::WriteToValueMode { addr } }
    } else {
        let a1 = addr.wrapping_add(1);
        if a1 < 0 {
            StepSpec::Fail { err: VmError::NegativeAddress { addr: a1 } }
        } else {
            let p1 = cell(m.mem, a1 as int);
            if !rv_ok(m, m0, p1) {
                StepSpec::Fail { err: VmError::NegativeAddress { addr: rv_addr(m, m0, p1) } }
            } else {
                let a2 = addr.wrapping_add(2);
                if a2 < 0 {
                    StepSpec::Fail { err: VmError::NegativeAddress { addr: a2 } }
                } else {
                    let p2 = cell(m.mem, a2 as int);
                    if !rv_ok(m, m1, p2) {
                        StepSpec::Fail { err: VmError::NegativeAddress { addr: rv_addr(m, m1, p2) } }
                    } else {
                        let p3 = cell(m.mem, a3 as int);
                        let t = rv_addr(m, m2, p3);
                        if t < 0 {
                            StepSpec::Fail { err: VmError::NegativeAddress { addr: t } }
                        } else if !fits_index(t) {
                            StepSpec::Fail { err: VmError::AddressTooLarge { addr: t } }
                        } else {
                            StepSpec::Move {
                                m: Machine {
                                    mem: store(m.mem, t as int, alu(op, rv(m, m0, p1), rv(m, m1, p2))),
                                    base: m.base,
                                },
                                next: addr.wrapping_add(4),
                            }
                        }
                    }
                }
            }
        }
    }
}

/// The effect of an input instruction: resolve the write target; the value
/// itself comes from whatever input capability is active.
pub open spec fn input_spec(m: Machine, addr: Int, m0: Mode) -> StepSpec {
    let a1 = addr.wrapping_add(1);
    if a1 < 0 {
        StepSpec::Fail { err: VmError::NegativeAddress { addr: a1 } }
    } else if m0 == Mode::Value {
        StepSpec::Fail { err: VmError::WriteToValueMode { addr } }
    } else {
        let p1 = cell(m.mem, a1 as int);
        let t = rv_addr(m, m0, p1);
        if t < 0 {
            StepSpec::Fail { err: VmError::NegativeAddress { addr: t } }
        } else if !fits_index(t) {
            StepSpec::Fail { err: VmError::AddressTooLarge { addr: t } }
        } else {
            StepSpec::Read { dst: t, next: addr.wrapping_add(2) }
        }
    }
}

/// The effect of an output instruction: resolve the operand to emit.
pub open spec fn output_spec(m: Machine, addr: Int, m0: Mode) -> StepSpec {
    let a1 = addr.wrapping_add(1);
    if a1 < 0 {
        StepSpec::Fail { err: VmError::NegativeAddress { addr: a1 } }
    } else {
        let p1 = cell(m.mem, a1 as int);
        if !rv_ok(m, m0, p1) {
            StepSpec::Fail { err: VmError::NegativeAddress { addr: rv_addr(m, m0, p1) } }
        } else {
            StepSpec::Emit { v: rv(m, m0, p1), next: addr.wrapping_add(2) }
        }
    }
}

/// The effect of a jump: if the first operand satisfies the condition,
/// execution continues at the second operand's resolved value, which is
/// only then resolved; otherwise it falls through by three cells.
pub open spec fn jump_spec(m: Machine, addr: Int, jump_if_nonzero: bool, m0: Mode, m1: Mode) -> StepSpec {
    let a1 = addr.wrapping_add(1);
    if a1 < 0 {
        StepSpec::Fail { err: VmError::NegativeAddress { addr: a1 } }
    } else {
        let p1 = cell(m.mem, a1 as int);
        if !rv_ok(m, m0, p1) {
            StepSpec::Fail { err: VmError::NegativeAddress { addr: rv_addr(m, m0, p1) } }
        } else if (rv(m, m0, p1) != 0) == jump_if_nonzero {
            let a2 = addr.wrapping_add(2);
            if a2 < 0 {
                StepSpec::Fail { err: VmError::NegativeAddress { addr: a2 } }
            } else {
                let p2 = cell(m.mem, a2 as int);
                if !rv_ok(m, m1, p2) {
                    StepSpec::Fail { err: VmError::NegativeAddress { addr: rv_addr(m, m1, p2) } }
                } else {
                    StepSpec::Move { m, next: rv(m, m1, p2) }
                }
            }
        } else {
            StepSpec::Move { m, next: addr.wrapping_add(3) }
        }
    }
}

/// The effect of the relative-base adjustment: the operand's resolved value
/// is added (with the host's wraparound) to the base register.
pub open spec fn rel_base_spec(m: Machine, addr: Int, m0: Mode) -> StepSpec {
    let a1 = addr.wrapping_add(1);
    if a1 < 0 {
        StepSpec::Fail { err: VmError::NegativeAddress { addr: a1 } }
    } else {
        let p1 = cell(m.mem, a1 as int);
        if !rv_ok(m, m0, p1) {
            StepSpec::Fail { err: VmError::NegativeAddress { addr: rv_addr(m, m0, p1) } }
        } else {
            StepSpec::Move {
                m: Machine { mem: m.mem, base: m.base.wrapping_add(rv(m, m0, p1)) },
                next: addr.wrapping_add(2),
            }
        }
    }
}

/// The complete effect of executing one instruction at `addr` in machine
/// state `m`, up to the I/O capabilities: decoding, operand resolution, and
/// state change, with every fault it can raise on its own.
pub open spec fn step_spec(m: Machine, addr: Int) -> StepSpec {
    if addr < 0 {
        StepSpec::Fail { err: VmError::NegativeAddress { addr } }
    } else {
        let v = cell(m.mem, addr as int);
        match spec_op(v) {
            None => StepSpec::Fail { err: VmError::UnknownOpcode { addr, value: v } },
            Some(op) => match spec_modes(v) {
                None => StepSpec::Fail { err: VmError::UnknownMode { addr, value: v } },
                Some((m0, m1, m2)) => match op {
                    Operation::End => StepSpec::Halt,
                    Operation::Add => binop_spec(m, addr, op, m0, m1, m2),
                    Operation::Mul => binop_spec(m, addr, op, m0, m1, m2),
                    Operation::LessThan => binop_spec(m, addr, op, m0, m1, m2),
                    Operation::EqualTo => binop_spec(m, addr, op, m0, m1, m2),
                    Operation::Input => input_spec(m, addr, m0),
                    Operation::Output => output_spec(m, addr, m0),
                    Operation::JumpNotZero => jump_spec(m, addr, true, m0, m1),
                    Operation::JumpZero => jump_spec(m, addr, false, m0, m1),
                    Operation::RelBase => rel_base_spec(m, addr, m0),
                },
            },
        }
    }
}

/// Whether decoding of the instruction at `addr` succeeds: the step engine
/// records a trace entry exactly when it does.
pub open spec fn decodes(m: Machine, addr: Int) -> bool {
    &&& addr >= 0
    &&& spec_op(cell(m.mem, addr as int)) is Some
    &&& spec_modes(cell(m.mem, addr as int)) is Some
}

/// One successful step from `(m1, a1)` to `(m2, a2)`, for some value read
/// when the instruction is an input.
pub open spec fn can_step(m1: Machine, a1: Int, m2: Machine, a2: Int) -> bool {
    match step_spec(m1, a1) {
        StepSpec::Move { m, next } => m2 == m && a2 == next,
        StepSpec::Read { dst, next } => a2 == next && exists|v: Int|
            m2 == (Machine { mem: store(m1.mem, dst as int, v), base: m1.base }),
        StepSpec::Emit { v, next } => m2 == m1 && a2 == next,
        _ => false,
    }
}

/// `(m, a)` is reachable from `(m0, a0)` in exactly `n` successful steps,
/// for some sequence of input values.
pub open spec fn reaches(m0: Machine, a0: Int, m: Machine, a: Int, n: nat) -> bool
    decreases n,
{
    if n == 0 {
        m == m0 && a == a0
    } else {
        exists|m1: Machine, a1: Int|
            reaches(m0, a0, m1, a1, (n - 1) as nat) && can_step(m1, a1, m, a)
    }
}

/// The values a step exchanged with the outside, as sequences: one read,
/// one emission, or nothing.
pub open spec fn opt_seq(o: Option<Int>) -> Seq<Int> {
    match o {
        Some(v) => seq![v],
        None => seq![],
    }
}

/// One successful step from `(m1, a1)` to `(m2, a2)` that read `rd` and
/// emitted `em`.
pub open spec fn can_step_io(
    m1: Machine,
    a1: Int,
    m2: Machine,
    a2: Int,
    rd: Option<Int>,
    em: Option<Int>,
) -> bool {
    match step_spec(m1, a1) {
        StepSpec::Move { m, next } => m2 == m && a2 == next && rd is None && em is None,
        StepSpec::Read { dst, next } => a2 == next && em is None && (rd matches Some(v) && m2 == (
        Machine { mem: store(m1.mem, dst as int, v), base: m1.base })),
        StepSpec::Emit { v, next } => m2 == m1 && a2 == next && rd is None && em == Some(v),
        _ => false,
    }
}

/// `(m, a)` is reachable from `(m0, a0)` in exactly `n` successful steps
/// that read the values `ins` and emitted the values `outs`, in order.
pub open spec fn reaches_io(
    m0: Machine,
    a0: Int,
    m: Machine,
    a: Int,
    ins: Seq<Int>,
    outs: Seq<Int>,
    n: nat,
) -> bool
    decreases n,
{
    if n == 0 {
        m == m0 && a == a0 && ins.len() == 0 && outs.len() == 0
    } else {
        exists|m1: Machine, a1: Int, rd: Option<Int>, em: Option<Int>|
            {
                &&& opt_seq(rd).len() <= ins.len()
                &&& opt_seq(em).len() <= outs.len()
                &&& reaches_io(
                    m0,
                    a0,
                    m1,
                    a1,
                    ins.take(ins.len() - opt_seq(rd).len()),
                    outs.take(outs.len() - opt_seq(em).len()),
                    (n - 1) as nat,
                )
                &&& can_step_io(m1, a1, m, a, rd, em)
                &&& ins.skip(ins.len() - opt_seq(rd).len()) == opt_seq(rd)
                &&& outs.skip(outs.len() - opt_seq(em).len()) == opt_seq(em)
            }
    }
}

/// Extending an I/O-labelled execution by one more step.
pub proof fn lemma_reaches_io_step(
    m0: Machine,
    a0: Int,
    m1: Machine,
    a1: Int,
    m2: Machine,
    a2: Int,
    ins: Seq<Int>,
    outs: Seq<Int>,
    rd: Option<Int>,
    em: Option<Int>,
    n: nat,
)
    requires
        reaches_io(m0, a0, m1, a1, ins, outs, n),
        can_step_io(m1, a1, m2, a2, rd, em),
    ensures
        reaches_io(m0, a0, m2, a2, ins + opt_seq(rd), outs + opt_seq(em), n + 1),
{
    let ins2 = ins + opt_seq(rd);
    let outs2 = outs + opt_seq(em);
    assert(ins2.take(ins2.len() - opt_seq(rd).len()) =~= ins);
    assert(outs2.take(outs2.len() - opt_seq(em).len()) =~= outs);
    assert(ins2.skip(ins2.len() - opt_seq(rd).len()) =~= opt_seq(rd));
    assert(outs2.skip(outs2.len() - opt_seq(em).len()) =~= opt_seq(em));
}

/// An I/O-labelled execution is in particular a plain reachable execution.
pub proof fn lemma_reaches_io_reaches(
    m0: Machine,
    a0: Int,
    m: Machine,
    a: Int,
    ins: Seq<Int>,
    outs: Seq<Int>,
    n: nat,
)
    requires
        reaches_io(m0, a0, m, a, ins, outs, n),
    ensures
        reaches(m0, a0, m, a, n),
    decreases n,
{
    if n > 0 {
        let (m1, a1, rd, em) = choose|m1: Machine, a1: Int, rd: Option<Int>, em: Option<Int>|
            {
                &&& opt_seq(rd).len() <= ins.len()
                &&& opt_seq(em).len() <= outs.len()
                &&& reaches_io(
                    m0,
                    a0,
                    m1,
                    a1,
                    ins.take(ins.len() - opt_seq(rd).len()),
                    outs.take(outs.len() - opt_seq(em).len()),
                    (n - 1) as nat,
                )
                &&& can_step_io(m1, a1, m, a, rd, em)
                &&& ins.skip(ins.len() - opt_seq(rd).len()) == opt_seq(rd)
                &&& outs.skip(outs.len() - opt_seq(em).len()) == opt_seq(em)
            };
        lemma_reaches_io_reaches(
            m0,
            a0,
            m1,
            a1,
            ins.take(ins.len() - opt_seq(rd).len()),
            outs.take(outs.len() - opt_seq(em).len()),
            (n - 1) as nat,
        );
        assert(can_step(m1, a1, m, a));
    }
}

/// A run loop stops cleanly at `(m, a)`: either the instruction there
/// halts, or the step that produced `a` signalled the halt address `-1`.
pub open spec fn halts_at(m: Machine, a: Int) -> bool {
    step_spec(m, a) is Halt || a == -1
}

/// An I/O-labelled execution decomposed at its first step: `(m0, a0)` steps
/// to `(m1, a1)` reading `rd` and emitting `em`, which stand at the front
/// of `ins` and `outs`, and the rest of the execution follows.
pub open spec fn first_step_of(
    m0: Machine,
    a0: Int,
    m: Machine,
    a: Int,
    ins: Seq<Int>,
    outs: Seq<Int>,
    n: nat,
    m1: Machine,
    a1: Int,
    rd: Option<Int>,
    em: Option<Int>,
) -> bool {
    &&& can_step_io(m0, a0, m1, a1, rd, em)
    &&& opt_seq(rd).len() <= ins.len()
    &&& ins.take(opt_seq(rd).len() as int) == opt_seq(rd)
    &&& opt_seq(em).len() <= outs.len()
    &&& outs.take(opt_seq(em).len() as int) == opt_seq(em)
    &&& reaches_io(
        m1,
        a1,
        m,
        a,
        ins.skip(opt_seq(rd).len() as int),
        outs.skip(opt_seq(em).len() as int),
        (n - 1) as nat,
    )
}

/// Every execution of at least one step has a first step.
pub proof fn lemma_reaches_io_first(
    m0: Machine,
    a0: Int,
    m: Machine,
    a: Int,
    ins: Seq<Int>,
    outs: Seq<Int>,
    n: nat,
)
    requires
        reaches_io(m0, a0, m, a, ins, outs, n),
        n >= 1,
    ensures
        exists|m1: Machine, a1: Int, rd: Option<Int>, em: Option<Int>|
            #[trigger] first_step_of(m0, a0, m, a, ins, outs, n, m1, a1, rd, em),
    decreases n,
{
    let (mp, ap, rdl, eml) = choose|mp: Machine, ap: Int, rdl: Option<Int>, eml: Option<Int>|
        {
            &&& opt_seq(rdl).len() <= ins.len()
            &&& opt_seq(eml).len() <= outs.len()
            &&& reaches_io(
                m0,
                a0,
                mp,
                ap,
                ins.take(ins.len() - opt_seq(rdl).len()),
                outs.take(outs.len() - opt_seq(eml).len()),
                (n - 1) as nat,
            )
            &&& can_step_io(mp, ap, m, a, rdl, eml)
            &&& ins.skip(ins.len() - opt_seq(rdl).len()) == opt_seq(rdl)
            &&& outs.skip(outs.len() - opt_seq(eml).len()) == opt_seq(eml)
        };
    let insp = ins.take(ins.len() - opt_seq(rdl).len());
    let outsp = outs.take(outs.len() - opt_seq(eml).len());
    assert(ins =~= insp + opt_seq(rdl));
    assert(outs =~= outsp + opt_seq(eml));
    if n == 1 {
        assert(mp == m0 && ap == a0 && insp.len() == 0 && outsp.len() == 0);
        assert(ins.take(opt_seq(rdl).len() as int) =~= opt_seq(rdl));
        assert(outs.take(opt_seq(eml).len() as int) =~= opt_seq(eml));
        assert(ins.skip(opt_seq(rdl).len() as int).len() == 0);
        assert(outs.skip(opt_seq(eml).len() as int).len() == 0);
        assert(reaches_io(
            m,
            a,
            m,
            a,
            ins.skip(opt_seq(rdl).len() as int),
            outs.skip(opt_seq(eml).len() as int),
            0,
        ));
        assert(first_step_of(m0, a0, m, a, ins, outs, n, m, a, rdl, eml));
    } else {
        lemma_reaches_io_first(m0, a0, mp, ap, insp, outsp, (n - 1) as nat);
        let (m1, a1, rd0, em0) = choose|m1: Machine, a1: Int, rd0: Option<Int>, em0: Option<Int>|
            #[trigger] first_step_of(m0, a0, mp, ap, insp, outsp, (n - 1) as nat, m1, a1, rd0, em0);
        let l0 = opt_seq(rd0).len() as int;
        let e0 = opt_seq(em0).len() as int;
        lemma_reaches_io_step(
            m1,
            a1,
            mp,
            ap,
            m,
            a,
            insp.skip(l0),
            outsp.skip(e0),
            rdl,
            eml,
            (n - 2) as nat,
        );
        assert(insp.skip(l0) + opt_seq(rdl) =~= ins.skip(l0));
        assert(outsp.skip(e0) + opt_seq(eml) =~= outs.skip(e0));
        assert(ins.take(l0) =~= insp.take(l0));
        assert(outs.take(e0) =~= outsp.take(e0));
        assert(first_step_of(m0, a0, m, a, ins, outs, n, m1, a1, rd0, em0));
    }
}

/// Run-to-run determinism: two executions from one starting configuration
/// that read the same values and stop at a halt are the same execution,
/// cell for cell and emission for emission. Retrying a run cannot change
/// its outcome.
#[verifier::spinoff_prover]
#[verifier::rlimit(100)]
pub proof fn lemma_run_deterministic(
    m0: Machine,
    a0: Int,
    ma: Machine,
    aa: Int,
    ins_a: Seq<Int>,
    outs_a: Seq<Int>,
    na: nat,
    mb: Machine,
    ab: Int,
    ins_b: Seq<Int>,
    outs_b: Seq<Int>,
    nb: nat,
)
    requires
        reaches_io(m0, a0, ma, aa, ins_a, outs_a, na),
        halts_at(ma, aa),
        reaches_io(m0, a0, mb, ab, ins_b, outs_b, nb),
        halts_at(mb, ab),
        ins_a == ins_b,
    ensures
        ma == mb && aa == ab && outs_a == outs_b && na == nb,
    decreases na,
{
    if na == 0 {
        assert(ma == m0 && aa == a0);
        if nb >= 1 {
            lemma_reaches_io_first(m0, a0, mb, ab, ins_b, outs_b, nb);
            let (m1, a1, rd, em) = choose|m1: Machine, a1: Int, rd: Option<Int>, em: Option<Int>|
                #[trigger] first_step_of(m0, a0, mb, ab, ins_b, outs_b, nb, m1, a1, rd, em);
            assert(can_step_io(m0, a0, m1, a1, rd, em));
            assert(false);
        }
        assert(outs_a =~= outs_b);
    } else if nb == 0 {
        assert(mb == m0 && ab == a0);
        lemma_reaches_io_first(m0, a0, ma, aa, ins_a, outs_a, na);
        let (m1, a1, rd, em) = choose|m1: Machine, a1: Int, rd: Option<Int>, em: Option<Int>|
            #[trigger] first_step_of(m0, a0, ma, aa, ins_a, outs_a, na, m1, a1, rd, em);
        assert(can_step_io(m0, a0, m1, a1, rd, em));
        assert(false);
    } else {
        lemma_reaches_io_first(m0, a0, ma, aa, ins_a, outs_a, na);
        lemma_reaches_io_first(m0, a0, mb, ab, ins_b, outs_b, nb);
        let (m1a, a1a, rda, ema) = choose|m1: Machine, a1: Int, rd: Option<Int>, em: Option<Int>|
            #[trigger] first_step_of(m0, a0, ma, aa, ins_a, outs_a, na, m1, a1, rd, em);
        let (m1b, a1b, rdb, emb) = choose|m1: Machine, a1: Int, rd: Option<Int>, em: Option<Int>|
            #[trigger] first_step_of(m0, a0, mb, ab, ins_b, outs_b, nb, m1, a1, rd, em);
        // both first steps leave the same configuration, so they agree
        match step_spec(m0, a0) {
            StepSpec::Read { dst, next } => {
                assert(ins_a.take(1)[0] == rda->0);
                assert(ins_b.take(1)[0] == rdb->0);
                assert(rda == rdb && m1a == m1b && a1a == a1b);
            },
            _ => {
                assert(rda == rdb && ema == emb && m1a == m1b && a1a == a1b);
            },
        }
        let l = opt_seq(rda).len() as int;
        let e = opt_seq(ema).len() as int;
        assert(ins_a.skip(l) == ins_b.skip(l));
        lemma_run_deterministic(
            m1a,
            a1a,
            ma,
            aa,
            ins_a.skip(l),
            outs_a.skip(e),
            (na - 1) as nat,
            mb,
            ab,
            ins_b.skip(l),
            outs_b.skip(e),
            (nb - 1) as nat,
        );
        assert(outs_a =~= outs_a.take(e) + outs_a.skip(e));
        assert(outs_b =~= outs_b.take(e) + outs_b.skip(e));
        assert(outs_a == outs_b);
    }
}

/// Execution is deterministic everywhere but at an input instruction: a
/// step that reads nothing has exactly one successor. Two pipelines fed the
/// same values therefore move in lockstep; only the channels themselves,
/// which live outside this model, choose what an input instruction reads.
pub proof fn lemma_step_deterministic(
    m: Machine,
    a: Int,
    m1: Machine,
    a1: Int,
    m2: Machine,
    a2: Int,
)
    requires
        can_step(m, a, m1, a1),
        can_step(m, a, m2, a2),
        !(step_spec(m, a) is Read),
    ensures
        m1 == m2 && a1 == a2,
{
}

/// An input instruction is deterministic once the value read is fixed: both
/// successors write that value at the instruction's target.
pub proof fn lemma_read_deterministic(m: Machine, a: Int, v: Int)
    requires
        step_spec(m, a) is Read,
    ensures
        ({
            let dst = step_spec(m, a)->Read_dst;
            let next = step_spec(m, a)->Read_next;
            can_step(m, a, Machine { mem: store(m.mem, dst as int, v), base: m.base }, next)
        }),
{
}

/// Extending a reachable execution by one more step.
pub proof fn lemma_reaches_step(m0: Machine, a0: Int, m1: Machine, a1: Int, m2: Machine, a2: Int, n: nat)
    requires
        reaches(m0, a0, m1, a1, n),
        can_step(m1, a1, m2, a2),
    ensures
        reaches(m0, a0, m2, a2, n + 1),
{
}

/// Writing then reading: after a write of `v` at address `a`, the tape
/// holds `v` there, and every other address reads as before.
pub proof fn lemma_store_cell(mem: Seq<Int>, a: int, v: Int)
    requires
        0 <= a,
    ensures
        cell(store(mem, a, v), a) == v,
        forall|b: int| b != a ==> cell(store(mem, a, v), b) == cell(mem, b),
{
    if a >= mem.len() {
        let grown = mem + Seq::<Int>::new((a + 1 - mem.len()) as nat, |i: int| 0);
        assert forall|b: int| b != a implies cell(store(mem, a, v), b) == cell(mem, b) by {
            if 0 <= b < mem.len() {
                assert(grown[b] == mem[b]);
            }
        }
    }
}

/// Reading beyond the current length never fails and yields zero: growth
/// is zero fill, so an ungrown read and a grown read agree.
pub proof fn lemma_cell_beyond(mem: Seq<Int>, a: int)
    requires
        a >= mem.len(),
    ensures
        cell(mem, a) == 0,
{
}

/// The jump law: when a `JumpNotZero` instruction's first operand resolves
/// to a nonzero value, the next address is the second operand's resolved
/// value; when it resolves to zero, execution falls through by three cells.
/// The machine state is untouched either way.
pub proof fn lemma_jump_not_zero(m: Machine, addr: Int)
    requires
        decodes(m, addr),
        spec_op(cell(m.mem, addr as int)) == Some(Operation::JumpNotZero),
        addr.wrapping_add(1) >= 0,
        addr.wrapping_add(2) >= 0,
        rv_ok(m, spec_modes(cell(m.mem, addr as int))->Some_0.0, cell(m.mem, addr.wrapping_add(1) as int)),
        rv_ok(m, spec_modes(cell(m.mem, addr as int))->Some_0.1, cell(m.mem, addr.wrapping_add(2) as int)),
    ensures
        ({
            let (m0, m1, m2) = spec_modes(cell(m.mem, addr as int))->Some_0;
            let x1 = rv(m, m0, cell(m.mem, addr.wrapping_add(1) as int));
            let x2 = rv(m, m1, cell(m.mem, addr.wrapping_add(2) as int));
            step_spec(m, addr) == (if x1 != 0 {
                StepSpec::Move { m, next: x2 }
            } else {
                StepSpec::Move { m, next: addr.wrapping_add(3) }
            })
        }),
{
}

} // verus!

