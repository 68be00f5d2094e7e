//! A minimal fetch-decode-execute engine: 32 unsigned 32-bit registers, a
//! flat byte-addressable memory, and six opcodes executed one 4-byte
//! instruction at a time until a halt or a fatal fault.

use crate::bits::field_spec;
use crate::bits::lemma_field_spec_range;
use crate::bits::lemma_shift_mask_is_field;
use crate::words::lemma_store_then_load;
use crate::words::put_word;
use crate::words::word_at;
use vstd::arithmetic::power2::lemma2_to64;
use vstd::arithmetic::power2::pow2;
use vstd::prelude::*;

verus! {

/// Width of one encoded instruction, in bytes.
pub const INSTRUCTION_SIZE: usize = 4;

/// Memory capacity of a processor made by `Processor::new`, in bytes.
pub const MEMORY_SIZE: usize = 512;

/// Number of general-purpose registers.
pub const REGISTER_COUNT: usize = 32;

/// The decoded operation of an instruction. `Idle` is only the engine's
/// pre-execution default; the decoder never produces it.
#[derive(Clone, Copy, Debug, PartialEq, Eq, Structural)]
pub enum Opcode {
    Add,
    Sub,
    Load,
    Store,
    Idle,
    Break,
}

/// Whether the engine will execute another instruction.
#[derive(Clone, Copy, Debug, PartialEq, Eq, Structural)]
pub enum State {
    Running,
    Halted,
}

/// A fatal fault. Execution stops at the instruction that raised it.
#[derive(Clone, Copy, Debug, PartialEq, Eq, Structural)]
pub enum ExecError {
    /// The opcode field held this unknown bit pattern.
    UnknownOpcode(u32),
    /// A fetch, load or store reached for this byte address, which is not
    /// the start of four in-bounds bytes.
    OutOfBoundsAccess(i64),
    /// A program of this many words does not fit in memory.
    OutOfBoundsLoad(usize),
}

/// The mathematical state of the processor.
#[verifier::ext_equal]
pub struct ProcView {
    pub regs: Seq<u32>,
    pub pc: nat,
    pub mem: Seq<u8>,
    pub opcode: Opcode,
    pub state: State,
}

/// Well-formedness: 32 registers, the program counter 4-byte aligned and
/// inside memory, and memory small enough that every address fits in 32 bits.
pub open spec fn wf_v(p: ProcView) -> bool {
    &&& p.regs.len() == 32
    &&& p.pc <= p.mem.len()
    &&& p.pc % 4 == 0
    &&& p.mem.len() <= u32::MAX
}

/// The decoder's fixed table: the opcode variant for a field value, or
/// `None` for an unknown encoding. `Idle` and, for nonzero fields, `Break`
/// are never produced.
pub open spec fn decode_spec(bits: u32) -> Option<Opcode> {
    if bits == 0b110011 {
        Some(Opcode::Add)
    } else if bits == 0b110000 {
        Some(Opcode::Sub)
    } else if bits == 0b000011 {
        Some(Opcode::Load)
    } else if bits == 0b100011 {
        Some(Opcode::Store)
    } else if bits == 0 {
        Some(Opcode::Break)
    } else {
        None
    }
}

/// The value of `x` reinterpreted as a signed 32-bit integer.
pub open spec fn as_signed(x: u32) -> int {
    if x >= 0x8000_0000 {
        x - 0x1_0000_0000
    } else {
        x as int
    }
}

/// Unsigned 32-bit addition with wraparound.
pub open spec fn wrap_add32(x: u32, y: u32) -> u32 {
    if x + y <= u32::MAX {
        (x + y) as u32
    } else {
        (x + y - 0x1_0000_0000) as u32
    }
}

/// Unsigned 32-bit subtraction with wraparound.
pub open spec fn wrap_sub32(x: u32, y: u32) -> u32 {
    if x - y >= 0 {
        (x - y) as u32
    } else {
        (x - y + 0x1_0000_0000) as u32
    }
}

/// `p` with the program counter moved past the instruction just executed;
/// the engine halts as soon as the counter reaches the end of memory.
pub open spec fn advance_v(p: ProcView) -> ProcView {
    ProcView {
        pc: (p.pc + 4) as nat,
        state: if p.pc + 4 >= p.mem.len() {
            State::Halted
        } else {
            State::Running
        },
        ..p
    }
}

/// One step of the fetch-decode-execute loop, as a mathematical function:
/// fetch the word at the program counter, extract the five fields, decode,
/// apply the opcode's effect, and advance — or halt, or fault.
pub open spec fn step_v(p: ProcView) -> Result<ProcView, ExecError>
    recommends
        wf_v(p),
{
    if p.state is Halted {
        Ok(p)
    } else if p.pc >= p.mem.len() {
        Ok(ProcView { state: State::Halted, ..p })
    } else if p.pc + 4 > p.mem.len() {
        Err(ExecError::OutOfBoundsAccess(p.pc as i64))
    } else {
        let w = word_at(p.mem, p.pc as int);
        let bits = field_spec(w, 0, 7) as u32;
        match decode_spec(bits) {
            None => Err(ExecError::UnknownOpcode(bits)),
            Some(op) => {
                let rd = field_spec(w, 8, 11) as int;
                let rs1 = field_spec(w, 12, 16) as int;
                let rs2 = field_spec(w, 17, 21) as int;
                let imm = field_spec(w, 22, 32) as int;
                match op {
                    Opcode::Add => Ok(
                        advance_v(
                            ProcView {
                                opcode: Opcode::Add,
                                regs: p.regs.update(rd, wrap_add32(p.regs[rd], rs1 as u32)),
                                ..p
                            },
                        ),
                    ),
                    Opcode::Sub => Ok(
                        advance_v(
                            ProcView {
                                opcode: Opcode::Sub,
                                regs: p.regs.update(rd, wrap_sub32(p.regs[rd], rs1 as u32)),
                                ..p
                            },
                        ),
                    ),
                    Opcode::Load => {
                        let a = as_signed(p.regs[rs1]) + imm;
                        if 0 <= a && a + 4 <= p.mem.len() {
                            Ok(
                                advance_v(
                                    ProcView {
                                        opcode: Opcode::Load,
                                        regs: p.regs.update(rd, word_at(p.mem, a)),
                                        ..p
                                    },
                                ),
                            )
                        } else {
                            Err(ExecError::OutOfBoundsAccess(a as i64))
                        }
                    },
                    Opcode::Store => {
                        let a = as_signed(p.regs[rs1]) + imm;
                        if 0 <= a && a + 4 <= p.mem.len() {
                            Ok(
                                advance_v(
                                    ProcView {
                                        opcode: Opcode::Store,
                                        mem: put_word(p.mem, a, p.regs[rs2]),
                                        ..p
                                    },
                                ),
                            )
                        } else {
                            Err(ExecError::OutOfBoundsAccess(a as i64))
                        }
                    },
                    Opcode::Idle => Ok(advance_v(ProcView { opcode: Opcode::Idle, ..p })),
                    Opcode::Break => Ok(
                        ProcView { opcode: Opcode::Break, state: State::Halted, ..p },
                    ),
                }
            },
        }
    }
}

/// Bounds of the five instruction fields: the opcode is 7 bits, `rd` 3
/// bits, `rs1` and `rs2` 4 bits each, the immediate 10 bits. In particular
/// every register index a decoded field can name is in range.
pub proof fn lemma_instruction_fields(w: u32)
    ensures
        field_spec(w, 0, 7) < 128,
        field_spec(w, 8, 11) < 8,
        field_spec(w, 12, 16) < 16,
        field_spec(w, 17, 21) < 16,
        field_spec(w, 22, 32) < 1024,
{
    lemma_field_spec_range(w, 0, 7);
    lemma_field_spec_range(w, 8, 11);
    lemma_field_spec_range(w, 12, 16);
    lemma_field_spec_range(w, 17, 21);
    lemma_field_spec_range(w, 22, 32);
    lemma2_to64();
}

/// A successful step preserves well-formedness, keeps the memory capacity,
/// never moves the program counter backwards, and strictly shrinks the
/// termination measure of `run_v`.
pub proof fn lemma_step_v_ok(p: ProcView)
    requires
        wf_v(p),
        step_v(p) is Ok,
    ensures
        wf_v(step_v(p)->Ok_0),
        step_v(p)->Ok_0.mem.len() == p.mem.len(),
        p.pc <= step_v(p)->Ok_0.pc,
        p.state is Running ==> run_measure(step_v(p)->Ok_0) < run_measure(p),
{
    if p.state is Running && p.pc < p.mem.len() {
        lemma_instruction_fields(word_at(p.mem, p.pc as int));
    }
}

/// The termination measure of `run_v`: bytes left ahead of the program
/// counter, plus one while the engine still runs.
pub open spec fn run_measure(p: ProcView) -> int {
    p.mem.len() - p.pc + if p.state is Running {
        1int
    } else {
        0int
    }
}

/// The full run of the machine from `p`: step until the engine halts or a
/// step faults.
pub open spec fn run_v(p: ProcView) -> Result<ProcView, ExecError>
    recommends
        wf_v(p),
    decreases run_measure(p),
        when wf_v(p)
        via run_v_decreases
{
    if p.state is Halted {
        Ok(p)
    } else {
        match step_v(p) {
            Err(e) => Err(e),
            Ok(q) => run_v(q),
        }
    }
}

#[via_fn]
proof fn run_v_decreases(p: ProcView) {
    if p.state is Running && step_v(p) is Ok {
        lemma_step_v_ok(p);
    }
}

/// Whether `w` decodes to one of the two arithmetic opcodes, whose
/// execution never faults, never touches memory and never halts.
pub open spec fn is_arith_word(w: u32) -> bool {
    ||| decode_spec(field_spec(w, 0, 7) as u32) == Some(Opcode::Add)
    ||| decode_spec(field_spec(w, 0, 7) as u32) == Some(Opcode::Sub)
}

/// Whether `w` carries the halt encoding: an all-zero opcode field.
pub open spec fn is_break_word(w: u32) -> bool {
    field_spec(w, 0, 7) == 0
}

/// A successful run only ever stops where a BREAK was decoded or where the
/// program counter reached the end of memory, after advancing from its
/// starting offset in whole instruction widths.
pub proof fn lemma_run_break_or_end(p: ProcView)
    requires
        wf_v(p),
        p.state is Running,
    ensures
        run_v(p) is Ok ==> ({
            let q = run_v(p)->Ok_0;
            &&& q.state is Halted
            &&& q.mem.len() == p.mem.len()
            &&& p.pc <= q.pc <= q.mem.len()
            &&& (q.pc - p.pc) % 4 == 0
            &&& (q.pc == q.mem.len() || (q.pc + 4 <= q.mem.len() && is_break_word(
                word_at(q.mem, q.pc as int),
            )))
        }),
    decreases run_measure(p),
{
    if step_v(p) is Ok {
        let q1 = step_v(p)->Ok_0;
        lemma_step_v_ok(p);
        if q1.state is Running {
            lemma_run_break_or_end(q1);
        } else {
            if p.pc < p.mem.len() {
                let w = word_at(p.mem, p.pc as int);
                lemma_instruction_fields(w);
            }
        }
    }
}

/// A program of arithmetic instructions runs to the first BREAK: if every
/// aligned word before offset `b` is ADD or SUB and the word at `b` is
/// BREAK, the run succeeds, halts with the program counter exactly at `b`,
/// and leaves memory untouched.
pub proof fn lemma_run_halts_at_first_break(p: ProcView, b: int)
    requires
        wf_v(p),
        p.state is Running,
        p.pc <= b,
        (b - p.pc) % 4 == 0,
        b + 4 <= p.mem.len(),
        is_break_word(word_at(p.mem, b)),
        forall|o: int|
            p.pc <= o < b && (o - p.pc) % 4 == 0 ==> is_arith_word(#[trigger] word_at(p.mem, o)),
    ensures
        run_v(p) is Ok,
        run_v(p)->Ok_0.pc == b,
        run_v(p)->Ok_0.mem == p.mem,
        run_v(p)->Ok_0.state is Halted,
    decreases b - p.pc,
{
    let w = word_at(p.mem, p.pc as int);
    lemma_instruction_fields(w);
    if p.pc == b {
        assert(step_v(p) == Ok::<ProcView, ExecError>(
            ProcView { opcode: Opcode::Break, state: State::Halted, ..p },
        ));
    } else {
        assert(is_arith_word(w));
        let q1 = step_v(p)->Ok_0;
        lemma_step_v_ok(p);
        assert(q1.mem == p.mem);
        assert(q1.pc == p.pc + 4);
        assert(q1.state is Running);
        lemma_run_halts_at_first_break(q1, b);
        assert(run_v(p) == run_v(q1));
    }
}

/// A run over a freshly loaded program of `n` arithmetic words halts with
/// the program counter exactly at `4 * n`: the zeroed memory after the
/// program decodes as BREAK there, and no earlier word halts or faults.
/// This is the state `Processor::new` followed by `load_program` leaves
/// behind when every program word is ADD or SUB.
pub proof fn lemma_arith_program_halts_at_end(p: ProcView, n: int)
    requires
        wf_v(p),
        p.state is Running,
        p.pc == 0,
        0 <= n,
        4 * n + 4 <= p.mem.len(),
        forall|k: int| 0 <= k < n ==> is_arith_word(#[trigger] word_at(p.mem, 4 * k)),
        forall|j: int| 4 * n <= j < p.mem.len() ==> p.mem[j] == 0,
    ensures
        run_v(p) is Ok,
        run_v(p)->Ok_0.pc == 4 * n,
        run_v(p)->Ok_0.mem == p.mem,
        run_v(p)->Ok_0.state is Halted,
{
    assert(word_at(p.mem, 4 * n) == 0) by {
        assert(p.mem[4 * n] == 0);
        assert(p.mem[4 * n + 1] == 0);
        assert(p.mem[4 * n + 2] == 0);
        assert(p.mem[4 * n + 3] == 0);
    }
    assert(is_break_word(0)) by {
        vstd::arithmetic::power2::lemma_pow2_pos(25);
        vstd::arithmetic::power2::lemma_pow2_pos(7);
    }
    assert forall|o: int| p.pc <= o < 4 * n && (o - p.pc) % 4 == 0 implies is_arith_word(
        #[trigger] word_at(p.mem, o),
    ) by {
        let k = o / 4;
        assert(o == 4 * k);
        assert(0 <= k < n);
        assert(is_arith_word(word_at(p.mem, 4 * k)));
    }
    lemma_run_halts_at_first_break(p, 4 * n);
}

/// The processor with its register file, program counter, memory and the
/// opcode decoded last.
pub struct Processor {
    registers: Vec<u32>,
    pc: usize,
    memory: Vec<u8>,
    opcode: Opcode,
    state: State,
}

impl View for Processor {
    type V = ProcView;

    closed spec fn view(&self) -> ProcView {
        ProcView {
            regs: self.registers@,
            pc: self.pc as nat,
            mem: self.memory@,
            opcode: self.opcode,
            state: self.state,
        }
    }
}

impl Processor {
    /// Well-formedness of the executable processor.
    pub open spec fn wf(&self) -> bool {
        wf_v(self@)
    }

    /// A processor with the given memory capacity: all registers zero, all
    /// memory zero, program counter 0, opcode `Idle`, state `Running`.
    pub fn with_memory_size(size: usize) -> (p: Processor)
        requires
            size <= u32::MAX,
        ensures
            p.wf(),
            p@.regs.len() == 32,
            forall|i: int| 0 <= i < 32 ==> p@.regs[i] == 0,
            p@.mem.len() == size,
            forall|i: int| 0 <= i < size ==> p@.mem[i] == 0,
            p@.pc == 0,
            p@.opcode == Opcode::Idle,
            p@.state == State::Running,
    {
        let mut registers: Vec<u32> = Vec::new();
        while registers.len() < REGISTER_COUNT
            invariant
                registers.len() <= 32,
                forall|i: int| 0 <= i < registers.len() ==> registers[i] == 0,
            decreases 32 - registers.len(),
        {
            registers.push(0);
        }
        let mut memory: Vec<u8> = Vec::new();
        while memory.len() < size
            invariant
                memory.len() <= size,
                forall|i: int| 0 <= i < memory.len() ==> memory[i] == 0,
            decreases size - memory.len(),
        {
            memory.push(0);
        }
        Processor { registers, pc: 0, memory, opcode: Opcode::Idle, state: State::Running }
    }

    /// A processor in the reference configuration: 512 bytes of memory.
    pub fn new() -> (p: Processor)
        ensures
            p.wf(),
            p@.regs.len() == 32,
            forall|i: int| 0 <= i < 32 ==> p@.regs[i] == 0,
            p@.mem.len() == MEMORY_SIZE,
            forall|i: int| 0 <= i < MEMORY_SIZE ==> p@.mem[i] == 0,
            p@.pc == 0,
            p@.opcode == Opcode::Idle,
            p@.state == State::Running,
    {
        Processor::with_memory_size(MEMORY_SIZE)
    }

    /// The bits of `value` in the half-open range `[start, end)`, counted
    /// from the most-significant bit, right-justified.
    pub fn extract_bits(&mut self, value: u32, start: usize, end: usize) -> (r: usize)
        requires
            start <= end,
            end <= 32,
        ensures
            *final(self) == *old(self),
            r == field_spec(value, start as int, end as int),
            r < pow2((end - start) as nat),
            pow2((end - start) as nat) <= 0x1_0000_0000,
    {
        let sh: u64 = (32 - end) as u64;
        let width: u64 = (end - start) as u64;
        let v: u64 = value as u64;
        proof {
            lemma_shift_mask_is_field(v, sh, width);
        }
        let r: u64 = (v >> sh) & ((1u64 << width) - 1);
        r as usize
    }

    /// ADD: add the raw field value `rs1` — not the contents of register
    /// `rs1` — to register `rd`, wrapping on overflow. No other register,
    /// memory, the program counter and the state are untouched.
    pub fn add(&mut self, rd: usize, rs1: usize)
        requires
            old(self).wf(),
            rd < 32,
            rs1 <= u32::MAX,
        ensures
            final(self).wf(),
            final(self)@.regs == old(self)@.regs.update(
                rd as int,
                wrap_add32(old(self)@.regs[rd as int], rs1 as u32),
            ),
            final(self)@.mem == old(self)@.mem,
            final(self)@.pc == old(self)@.pc,
            final(self)@.opcode == old(self)@.opcode,
            final(self)@.state == old(self)@.state,
    {
        let v = self.registers[rd].wrapping_add(rs1 as u32);
        self.registers.set(rd, v);
    }

    /// SUB: subtract the raw field value `rs1` from register `rd`, wrapping
    /// on underflow. No other register, memory, the program counter and the
    /// state are untouched.
    pub fn sub(&mut self, rd: usize, rs1: usize)
        requires
            old(self).wf(),
            rd < 32,
            rs1 <= u32::MAX,
        ensures
            final(self).wf(),
            final(self)@.regs == old(self)@.regs.update(
                rd as int,
                wrap_sub32(old(self)@.regs[rd as int], rs1 as u32),
            ),
            final(self)@.mem == old(self)@.mem,
            final(self)@.pc == old(self)@.pc,
            final(self)@.opcode == old(self)@.opcode,
            final(self)@.state == old(self)@.state,
    {
        let v = self.registers[rd].wrapping_sub(rs1 as u32);
        self.registers.set(rd, v);
    }

    /// LOAD: read the little-endian word at address
    /// `registers[rs1] as signed + imm` into register `rd`, or fault with
    /// `OutOfBoundsAccess` — leaving the processor unchanged — when those
    /// four bytes are not all in bounds.
    pub fn load(&mut self, rd: usize, rs1: usize, imm: i32) -> (r: Result<(), ExecError>)
        requires
            old(self).wf(),
            rd < 32,
            rs1 < 32,
        ensures
            final(self).wf(),
            final(self)@.mem == old(self)@.mem,
            final(self)@.pc == old(self)@.pc,
            final(self)@.opcode == old(self)@.opcode,
            final(self)@.state == old(self)@.state,
            ({
                let a = as_signed(old(self)@.regs[rs1 as int]) + imm;
                if 0 <= a && a + 4 <= old(self)@.mem.len() {
                    &&& r == Ok::<(), ExecError>(())
                    &&& final(self)@.regs == old(self)@.regs.update(
                        rd as int,
                        word_at(old(self)@.mem, a),
                    )
                } else {
                    &&& r == Err::<(), ExecError>(ExecError::OutOfBoundsAccess(a as i64))
                    &&& final(self)@.regs == old(self)@.regs
                }
            }),
    {
        let base = self.registers[rs1];
        let s: i64 = if base >= 0x8000_0000 {
            base as i64 - 0x1_0000_0000i64
        } else {
            base as i64
        };
        let a: i64 = s + imm as i64;
        if a < 0 || a + 4 > self.memory.len() as i64 {
            return Err(ExecError::OutOfBoundsAccess(a));
        }
        let au = a as usize;
        let b0 = self.memory[au];
        let b1 = self.memory[au + 1];
        let b2 = self.memory[au + 2];
        let b3 = self.memory[au + 3];
        let w = b0 as u32 + (b1 as u32) * 0x100 + (b2 as u32) * 0x1_0000 + (b3 as u32)
            * 0x100_0000;
        self.registers.set(rd, w);
        Ok(())
    }

    /// STORE: write the contents of register `rs2` little-endian to address
    /// `registers[rs1] as signed + imm`, or fault with `OutOfBoundsAccess`
    /// — leaving the processor unchanged — when those four bytes are not
    /// all in bounds. No register changes either way.
    pub fn store(&mut self, rs1: usize, rs2: usize, imm: i32) -> (r: Result<(), ExecError>)
        requires
            old(self).wf(),
            rs1 < 32,
            rs2 < 32,
        ensures
            final(self).wf(),
            final(self)@.regs == old(self)@.regs,
            final(self)@.pc == old(self)@.pc,
            final(self)@.opcode == old(self)@.opcode,
            final(self)@.state == old(self)@.state,
            ({
                let a = as_signed(old(self)@.regs[rs1 as int]) + imm;
                if 0 <= a && a + 4 <= old(self)@.mem.len() {
                    &&& r == Ok::<(), ExecError>(())
                    &&& final(self)@.mem == put_word(
                        old(self)@.mem,
                        a,
                        old(self)@.regs[rs2 as int],
                    )
                } else {
                    &&& r == Err::<(), ExecError>(ExecError::OutOfBoundsAccess(a as i64))
                    &&& final(self)@.mem == old(self)@.mem
                }
            }),
    {
        let base = self.registers[rs1];
        let s: i64 = if base >= 0x8000_0000 {
            base as i64 - 0x1_0000_0000i64
        } else {
            base as i64
        };
        let a: i64 = s + imm as i64;
        if a < 0 || a + 4 > self.memory.len() as i64 {
            return Err(ExecError::OutOfBoundsAccess(a));
        }
        let au = a as usize;
        let v = self.registers[rs2];
        let b0 = (v % 0x100) as u8;
        let b1 = ((v / 0x100) % 0x100) as u8;
        let b2 = ((v / 0x1_0000) % 0x100) as u8;
        let b3 = ((v / 0x100_0000) % 0x100) as u8;
        self.memory.set(au, b0);
        self.memory.set(au + 1, b1);
        self.memory.set(au + 2, b2);
        self.memory.set(au + 3, b3);
        proof {
            assert(self.memory@ =~= put_word(old(self)@.mem, a as int, v));
        }
        Ok(())
    }

    /// The current program counter.
    pub fn program_counter(&self) -> (r: usize)
        ensures
            r == self@.pc,
    {
        self.pc
    }

    /// The contents of register `i`.
    pub fn register(&self, i: usize) -> (r: u32)
        requires
            self.wf(),
            i < 32,
        ensures
            r == self@.regs[i as int],
    {
        self.registers[i]
    }

    /// Whether the engine is still running or has halted.
    pub fn current_state(&self) -> (r: State)
        ensures
            r == self@.state,
    {
        self.state
    }

    /// The opcode decoded last, `Idle` before any execution.
    pub fn current_opcode(&self) -> (r: Opcode)
        ensures
            r == self@.opcode,
    {
        self.opcode
    }

    /// The memory capacity in bytes.
    pub fn memory_len(&self) -> (r: usize)
        ensures
            r == self@.mem.len(),
    {
        self.memory.len()
    }

    /// The opcode variant for an opcode field value, or the fatal
    /// `UnknownOpcode` fault for any encoding outside the fixed table.
    pub fn decode_opcode(&mut self, opcode_bits: u32) -> (r: Result<Opcode, ExecError>)
        ensures
            *final(self) == *old(self),
            match decode_spec(opcode_bits) {
                Some(op) => r == Ok::<Opcode, ExecError>(op),
                None => r == Err::<Opcode, ExecError>(ExecError::UnknownOpcode(opcode_bits)),
            },
    {
        match opcode_bits {
            0b110011 => Ok(Opcode::Add),
            0b110000 => Ok(Opcode::Sub),
            0b000011 => Ok(Opcode::Load),
            0b100011 => Ok(Opcode::Store),
            0 => Ok(Opcode::Break),
            _ => Err(ExecError::UnknownOpcode(opcode_bits)),
        }
    }

    /// One step of the fetch-decode-execute loop. Its whole effect is the
    /// mathematical step `step_v`; on a fault the processor is unchanged.
    #[verifier::rlimit(80)]
    pub fn execute_instruction(&mut self) -> (r: Result<(), ExecError>)
        requires
            old(self).wf(),
        ensures
            final(self).wf(),
            final(self)@.mem.len() == old(self)@.mem.len(),
            match r {
                Ok(_) => step_v(old(self)@) == Ok::<ProcView, ExecError>(final(self)@),
                Err(e) => step_v(old(self)@) == Err::<ProcView, ExecError>(e) && final(self)@
                    == old(self)@,
            },
    {
        if self.state == State::Halted {
            return Ok(());
        }
        if self.pc >= self.memory.len() {
            self.state = State::Halted;
            proof {
                assert(self@ =~= step_v(old(self)@)->Ok_0);
            }
            return Ok(());
        }
        if self.memory.len() - self.pc < 4 {
            return Err(ExecError::OutOfBoundsAccess(self.pc as i64));
        }
        let b0 = self.memory[self.pc];
        let b1 = self.memory[self.pc + 1];
        let b2 = self.memory[self.pc + 2];
        let b3 = self.memory[self.pc + 3];
        let w = b0 as u32 + (b1 as u32) * 0x100 + (b2 as u32) * 0x1_0000 + (b3 as u32)
            * 0x100_0000;
        proof {
            assert(w == word_at(old(self)@.mem, old(self)@.pc as int));
            lemma_instruction_fields(w);
        }
        let opcode_bits = self.extract_bits(w, 0, 7);
        let rd = self.extract_bits(w, 8, 11);
        let rs1 = self.extract_bits(w, 12, 16);
        let rs2 = self.extract_bits(w, 17, 21);
        let imm_field = self.extract_bits(w, 22, 32);
        let imm = imm_field as i32;
        let op = match self.decode_opcode(opcode_bits as u32) {
            Ok(op) => op,
            Err(e) => {
                return Err(e);
            },
        };
        match op {
            Opcode::Break => {
                self.opcode = Opcode::Break;
                self.state = State::Halted;
                proof {
                    assert(self@ =~= step_v(old(self)@)->Ok_0);
                }
                return Ok(());
            },
            Opcode::Add => {
                self.opcode = Opcode::Add;
                self.add(rd, rs1);
            },
            Opcode::Sub => {
                self.opcode = Opcode::Sub;
                self.sub(rd, rs1);
            },
            Opcode::Load => {
                match self.load(rd, rs1, imm) {
                    Ok(_) => {
                        self.opcode = Opcode::Load;
                    },
                    Err(e) => {
                        return Err(e);
                    },
                }
            },
            Opcode::Store => {
                match self.store(rs1, rs2, imm) {
                    Ok(_) => {
                        self.opcode = Opcode::Store;
                    },
                    Err(e) => {
                        return Err(e);
                    },
                }
            },
            Opcode::Idle => {
                self.opcode = Opcode::Idle;
            },
        }
        self.pc = self.pc + INSTRUCTION_SIZE;
        if self.pc >= self.memory.len() {
            self.state = State::Halted;
        }
        proof {
            assert(step_v(old(self)@) is Ok);
            assert(self@ =~= step_v(old(self)@)->Ok_0);
        }
        Ok(())
    }

    /// Write each word of `program` little-endian into memory at offset
    /// `index * 4`, in order, starting at offset 0 — or fault with
    /// `OutOfBoundsLoad`, changing nothing, when the program does not fit.
    /// Bytes past the program keep their contents; registers, program
    /// counter, opcode and state are untouched either way.
    pub fn load_program(&mut self, program: &[u32]) -> (r: Result<(), ExecError>)
        requires
            old(self).wf(),
        ensures
            final(self).wf(),
            final(self)@.mem.len() == old(self)@.mem.len(),
            final(self)@.regs == old(self)@.regs,
            final(self)@.pc == old(self)@.pc,
            final(self)@.opcode == old(self)@.opcode,
            final(self)@.state == old(self)@.state,
            if 4 * program@.len() <= old(self)@.mem.len() {
                &&& r == Ok::<(), ExecError>(())
                &&& forall|i: int|
                    0 <= i < program@.len() ==> word_at(final(self)@.mem, 4 * i) == program@[i]
                &&& forall|j: int|
                    4 * program@.len() <= j < old(self)@.mem.len() ==> final(self)@.mem[j]
                        == old(self)@.mem[j]
            } else {
                &&& r == Err::<(), ExecError>(ExecError::OutOfBoundsLoad(program@.len() as usize))
                &&& final(self)@ == old(self)@
            },
    {
        proof {
            assert(4 * (old(self)@.mem.len() / 4) + old(self)@.mem.len() % 4 == old(
                self,
            )@.mem.len());
        }
        if program.len() > self.memory.len() / INSTRUCTION_SIZE {
            return Err(ExecError::OutOfBoundsLoad(program.len()));
        }
        let ghost m0 = self@.mem;
        let mut i: usize = 0;
        while i < program.len()
            invariant
                old(self).wf(),
                self.wf(),
                i <= program@.len(),
                4 * program@.len() <= m0.len(),
                self@.mem.len() == m0.len(),
                self@.regs == old(self)@.regs,
                self@.pc == old(self)@.pc,
                self@.opcode == old(self)@.opcode,
                self@.state == old(self)@.state,
                forall|k: int| 0 <= k < i ==> word_at(self@.mem, 4 * k) == program@[k],
                forall|j: int| 4 * i <= j < m0.len() ==> self@.mem[j] == m0[j],
            decreases program@.len() - i,
        {
            let word = program[i];
            let a = i * INSTRUCTION_SIZE;
            let ghost mem_before = self@.mem;
            let v0 = (word % 0x100) as u8;
            let v1 = ((word / 0x100) % 0x100) as u8;
            let v2 = ((word / 0x1_0000) % 0x100) as u8;
            let v3 = ((word / 0x100_0000) % 0x100) as u8;
            self.memory.set(a, v0);
            self.memory.set(a + 1, v1);
            self.memory.set(a + 2, v2);
            self.memory.set(a + 3, v3);
            proof {
                assert(self.memory@ =~= put_word(mem_before, a as int, word));
                lemma_store_then_load(mem_before, a as int, word);
                assert forall|k: int| 0 <= k < i + 1 implies word_at(self@.mem, 4 * k)
                    == program@[k] by {
                    if k < i {
                        assert(word_at(self@.mem, 4 * k) == word_at(mem_before, 4 * k));
                    }
                }
            }
            i = i + 1;
        }
        Ok(())
    }

    /// Run from the current program counter until a BREAK halts the engine,
    /// the program counter leaves memory, or a step faults. The whole run
    /// is the mathematical run `run_v`.
    pub fn execute(&mut self) -> (r: Result<(), ExecError>)
        requires
            old(self).wf(),
        ensures
            final(self).wf(),
            final(self)@.mem.len() == old(self)@.mem.len(),
            match r {
                Ok(_) => run_v(old(self)@) == Ok::<ProcView, ExecError>(final(self)@)
                    && final(self)@.state is Halted,
                Err(e) => run_v(old(self)@) == Err::<ProcView, ExecError>(e)
                    && final(self)@.state is Running,
            },
    {
        while self.state == State::Running
            invariant
                old(self).wf(),
                self.wf(),
                self@.mem.len() == old(self)@.mem.len(),
                run_v(old(self)@) == run_v(self@),
            decreases run_measure(self@),
        {
            let ghost prev = self@;
            match self.execute_instruction() {
                Ok(_) => {
                    proof {
                        lemma_step_v_ok(prev);
                        assert(run_v(prev) == run_v(self@));
                    }
                },
                Err(e) => {
                    proof {
                        assert(run_v(prev) == Err::<ProcView, ExecError>(e));
                    }
                    return Err(e);
                },
            }
        }
        proof {
            assert(run_v(self@) == Ok::<ProcView, ExecError>(self@));
        }
        Ok(())
    }
}

} // verus!
