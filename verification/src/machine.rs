//! Machine state and opcode handlers.
//!
//! The state is eight 32-bit registers, a table of word segments, a stack of
//! freed segment ids, and a program counter into segment 0.  Each handler
//! takes the state and an instruction word, decodes the operand fields, and
//! either completes its mutation or reports a fault leaving the state as it
//! found it.
use crate::decode::{
    lv_reg_a, lv_value, opcode, reg_a, reg_b, reg_c, s_lv_ra, s_lv_value, s_opcode, s_ra, s_rb,
    s_rc, OP_ADD, OP_COND_MOVE, OP_DIV, OP_HALT, OP_INPUT, OP_LOAD_PROG, OP_LOAD_VAL, OP_MAP_SEG,
    OP_MUL, OP_NAND, OP_OUTPUT, OP_SEG_LOAD, OP_SEG_STORE, OP_UNMAP_SEG,
};
use vstd::prelude::*;

verus! {

/// The largest value a register can hold; also the bound kept on segment
/// count and segment length so that ids and lengths fit in a register.
pub const WORD_MAX: u32 = 0xFFFF_FFFF;

/// A fatal fault: execution cannot continue past it.
#[derive(Clone, Copy, Debug, PartialEq, Eq, Structural)]
pub enum Fault {
    /// A segment id that is out of range or on the free stack.
    UnmappedSegment,
    /// An offset at or past the end of a mapped segment.
    SegmentBounds,
    /// A divisor of zero.
    DivideByZero,
    /// An opcode value with no defined operation.
    InvalidOpcode,
    /// A program counter at or past the end of segment 0.
    ProgramCounter,
}

/// What one fetch-decode-execute cycle asks of its caller.
#[derive(Clone, Copy, Debug, PartialEq, Eq, Structural)]
pub enum Action {
    /// The instruction completed; fetch the next one.
    Continue,
    /// The machine halted with success.
    Halt,
    /// Write this byte to the output stream, then fetch the next instruction.
    Output(u8),
    /// Read one byte from the input stream and hand it, with this
    /// instruction word, to `input`; then fetch the next instruction.
    Input(u32),
}

/// The machine state.
pub struct Vm {
    /// Eight general-purpose registers.
    pub registers: Vec<u32>,
    /// The segment table, indexed by segment id.  Segment 0 holds the
    /// executing program.
    pub memory: Vec<Vec<u32>>,
    /// Freed segment ids, reused last-freed-first.
    pub unmapped_segs: Vec<u32>,
    /// The highest segment id ever assigned.
    pub max_mapped_seg: u32,
    /// Word index of the next instruction in segment 0.
    pub prog_count: u32,
}

/// The mathematical model of a machine state.
#[verifier::ext_equal]
pub ghost struct VmView {
    pub regs: Seq<u32>,
    pub mem: Seq<Seq<u32>>,
    pub free: Seq<u32>,
    pub pc: u32,
}

impl View for Vm {
    type V = VmView;

    open spec fn view(&self) -> VmView {
        VmView {
            regs: self.registers@,
            mem: Seq::new(self.memory@.len(), |i: int| self.memory@[i]@),
            free: self.unmapped_segs@,
            pc: self.prog_count,
        }
    }
}

/// A sequence of `n` zero words: the contents of a freshly mapped segment.
pub open spec fn zero_segment(n: u32) -> Seq<u32> {
    Seq::new(n as nat, |i: int| 0u32)
}

/// A sum or product reduced modulo 2^32, as the arithmetic operations
/// require.
pub open spec fn wrap32(n: int) -> u32 {
    (n % 0x1_0000_0000) as u32
}

/// Which fault a segment access through register `s` raises: an id out of
/// range is an unmapped segment; otherwise the offset is out of bounds.
pub open spec fn seg_fault(m: VmView, s: int) -> Fault {
    if m.regs[s] >= m.mem.len() {
        Fault::UnmappedSegment
    } else {
        Fault::SegmentBounds
    }
}

impl VmView {
    /// Well-formedness of a machine state: eight registers; segment 0
    /// present; every segment short enough to index by register; every
    /// freed id distinct, nonzero, in range, and holding an empty segment.
    pub open spec fn wf(self) -> bool {
        &&& self.regs.len() == 8
        &&& 1 <= self.mem.len() <= WORD_MAX
        &&& (forall|i: int| 0 <= i < self.mem.len() ==> #[trigger] self.mem[i].len() <= WORD_MAX)
        &&& (forall|i: int|
            0 <= i < self.free.len() ==> {
                &&& 1 <= #[trigger] self.free[i]
                &&& self.free[i] < self.mem.len()
                &&& self.mem[self.free[i] as int].len() == 0
            })
        &&& (forall|i: int, j: int|
            0 <= i < j < self.free.len() ==> self.free[i] != self.free[j])
    }

    /// A segment id currently designates a live segment: it has been
    /// assigned and is not on the free stack.
    pub open spec fn mapped(self, id: u32) -> bool {
        id < self.mem.len() && !self.free.contains(id)
    }

    /// The state with register `a` set to `v`.
    pub open spec fn with_reg(self, a: int, v: u32) -> VmView {
        VmView { regs: self.regs.update(a, v), ..self }
    }

    /// Conditional Move: register A takes register B when register C is
    /// nonzero; otherwise nothing changes.
    pub open spec fn cond_move_step(self, a: int, b: int, c: int) -> VmView {
        if self.regs[c] != 0 {
            self.with_reg(a, self.regs[b])
        } else {
            self
        }
    }

    /// Segmented Load succeeds: register B names a segment in range and
    /// register C an offset inside it.  A freed segment is empty, so any
    /// offset into one is out of bounds.
    pub open spec fn seg_load_ok(self, b: int, c: int) -> bool {
        self.regs[b] < self.mem.len() && self.regs[c] < self.mem[self.regs[b] as int].len()
    }

    /// Segmented Load: register A takes the word of segment `R[B]` at
    /// offset `R[C]`.
    pub open spec fn seg_load_step(self, a: int, b: int, c: int) -> VmView {
        self.with_reg(a, self.mem[self.regs[b] as int][self.regs[c] as int])
    }

    /// Segmented Store succeeds: register A names a segment in range and
    /// register B an offset inside it.
    pub open spec fn seg_store_ok(self, a: int, b: int) -> bool {
        self.regs[a] < self.mem.len() && self.regs[b] < self.mem[self.regs[a] as int].len()
    }

    /// Segmented Store: the word of segment `R[A]` at offset `R[B]` takes
    /// register C.
    pub open spec fn seg_store_step(self, a: int, b: int, c: int) -> VmView {
        VmView {
            mem: self.mem.update(
                self.regs[a] as int,
                self.mem[self.regs[a] as int].update(self.regs[b] as int, self.regs[c]),
            ),
            ..self
        }
    }

    /// Add: register A takes `(R[B] + R[C]) mod 2^32`.
    pub open spec fn add_step(self, a: int, b: int, c: int) -> VmView {
        self.with_reg(a, wrap32(self.regs[b] + self.regs[c]))
    }

    /// Multiply: register A takes `(R[B] * R[C]) mod 2^32`.
    pub open spec fn mul_step(self, a: int, b: int, c: int) -> VmView {
        self.with_reg(a, wrap32(self.regs[b] * self.regs[c]))
    }

    /// Divide: register A takes `R[B] / R[C]`, unsigned division truncating
    /// toward zero.  Defined only for `R[C] != 0`.
    pub open spec fn div_step(self, a: int, b: int, c: int) -> VmView
        recommends
            self.regs[c] != 0,
    {
        self.with_reg(a, self.regs[b] / self.regs[c])
    }

    /// Bitwise NAND: register A takes `!(R[B] & R[C])`.
    pub open spec fn nand_step(self, a: int, b: int, c: int) -> VmView {
        self.with_reg(a, !(self.regs[b] & self.regs[c]))
    }

    /// The id Map Segment assigns next: the most recently freed id if any
    /// is available, else one past the highest id assigned so far.
    /// Id 0 is never assigned: freed ids are nonzero and the segment table
    /// always holds segment 0.
    pub open spec fn fresh_seg_id(self) -> u32 {
        if self.free.len() > 0 {
            self.free.last()
        } else {
            self.mem.len() as u32
        }
    }

    /// Map Segment can proceed: either a freed id is available for reuse or
    /// a fresh id still fits in a register.
    pub open spec fn map_can_grow(self) -> bool {
        self.free.len() > 0 || self.mem.len() < WORD_MAX
    }

    /// Map Segment: a zero-filled segment of length `R[C]` appears under
    /// the assigned id, which register B takes.  A reused id leaves the
    /// free stack; a fresh one extends the table.
    pub open spec fn map_seg_step(self, b: int, c: int) -> VmView {
        let id = self.fresh_seg_id();
        let seg = zero_segment(self.regs[c]);
        if self.free.len() > 0 {
            VmView {
                regs: self.regs.update(b, id),
                mem: self.mem.update(id as int, seg),
                free: self.free.drop_last(),
                pc: self.pc,
            }
        } else {
            VmView {
                regs: self.regs.update(b, id),
                mem: self.mem.push(seg),
                free: self.free,
                pc: self.pc,
            }
        }
    }

    /// Unmap Segment succeeds: register C names a currently mapped segment
    /// other than segment 0.
    pub open spec fn unmap_ok(self, c: int) -> bool {
        self.regs[c] != 0 && self.mapped(self.regs[c])
    }

    /// Unmap Segment: the segment named by register C is emptied and its id
    /// pushed onto the free stack.
    pub open spec fn unmap_seg_step(self, c: int) -> VmView {
        VmView {
            mem: self.mem.update(self.regs[c] as int, Seq::<u32>::empty()),
            free: self.free.push(self.regs[c]),
            ..self
        }
    }

    /// Output: the byte written is the low 8 bits of register C.
    pub open spec fn output_byte(self, c: int) -> u8 {
        (self.regs[c] & 0xFF) as u8
    }

    /// Input: register C takes the byte read, zero-extended; at
    /// end-of-stream it takes the all-ones sentinel instead.
    pub open spec fn input_step(self, c: int, byte: Option<u8>) -> VmView {
        match byte {
            Option::Some(v) => self.with_reg(c, v as u32),
            Option::None => self.with_reg(c, WORD_MAX),
        }
    }

    /// Load Program succeeds: register B is zero or names a currently
    /// mapped segment.
    pub open spec fn load_prog_ok(self, b: int) -> bool {
        self.regs[b] == 0 || self.mapped(self.regs[b])
    }

    /// Load Program: when register B is nonzero, segment 0 becomes a copy
    /// of segment `R[B]`; either way the program counter takes register C.
    pub open spec fn load_prog_step(self, b: int, c: int) -> VmView {
        if self.regs[b] != 0 {
            VmView {
                mem: self.mem.update(0, self.mem[self.regs[b] as int]),
                pc: self.regs[c],
                ..self
            }
        } else {
            VmView { pc: self.regs[c], ..self }
        }
    }

    /// Load Value: register A (of the Load Value field form) takes the
    /// 25-bit immediate, zero-extended.
    pub open spec fn load_val_step(self, a: int, value: u32) -> VmView {
        self.with_reg(a, value)
    }
}

impl Vm {
    /// Well-formedness: the model invariant, with the high-water mark equal
    /// to the highest id the segment table holds.
    pub open spec fn wf(self) -> bool {
        self@.wf() && self.max_mapped_seg as int == self@.mem.len() - 1
    }

    /// A machine at startup: eight zero registers, segment 0 holding the
    /// program image, no freed ids, program counter 0.
    pub fn new(program: Vec<u32>) -> (vm: Vm)
        requires
            1 <= program@.len() <= WORD_MAX,
        ensures
            vm.wf(),
            vm@.regs =~= Seq::new(8, |i: int| 0u32),
            vm@.mem =~= seq![program@],
            vm@.free =~= Seq::<u32>::empty(),
            vm@.pc == 0,
    {
        let registers = zero_vec(8);
        let mut memory: Vec<Vec<u32>> = Vec::new();
        memory.push(program);
        let vm = Vm {
            registers,
            memory,
            unmapped_segs: Vec::new(),
            max_mapped_seg: 0,
            prog_count: 0,
        };
        proof {
            assert(vm@.mem =~= seq![vm.memory@[0]@]);
        }
        vm
    }
}

/// A register update preserves well-formedness: the segment table and the
/// free stack are untouched.
proof fn lemma_with_reg_wf(m: VmView, a: int, v: u32)
    requires
        m.wf(),
        0 <= a < 8,
    ensures
        m.with_reg(a, v).wf(),
{
    let m2 = m.with_reg(a, v);
    assert forall|i: int| 0 <= i < m2.mem.len() implies #[trigger] m2.mem[i].len() <= WORD_MAX by {
        assert(m2.mem[i] == m.mem[i]);
    }
    assert forall|i: int| 0 <= i < m2.free.len() implies {
        &&& 1 <= #[trigger] m2.free[i]
        &&& m2.free[i] < m2.mem.len()
        &&& m2.mem[m2.free[i] as int].len() == 0
    } by {
        assert(m2.free[i] == m.free[i]);
        assert(1 <= m.free[i] && m.free[i] < m.mem.len() && m.mem[m.free[i] as int].len() == 0);
    }
    assert forall|i: int, j: int| 0 <= i < j < m2.free.len() implies m2.free[i] != m2.free[j] by {
        assert(m.free[i] != m.free[j]);
    }
}

/// A vector of `n` zero words.
fn zero_vec(n: usize) -> (r: Vec<u32>)
    ensures
        r@ =~= Seq::new(n as nat, |i: int| 0u32),
{
    let mut r: Vec<u32> = Vec::new();
    let mut i: usize = 0;
    while i < n
        invariant
            i <= n,
            r@.len() == i,
            forall|j: int| 0 <= j < i ==> r@[j] == 0u32,
        decreases n - i,
    {
        r.push(0);
        i = i + 1;
    }
    r
}

/// Whether `id` sits on the free stack.
fn contains_id(v: &Vec<u32>, id: u32) -> (r: bool)
    ensures
        r == v@.contains(id),
{
    let mut i: usize = 0;
    while i < v.len()
        invariant
            i <= v@.len(),
            forall|j: int| 0 <= j < i ==> v@[j] != id,
        decreases v@.len() - i,
    {
        if v[i] == id {
            proof {
                assert(v@.contains(id)) by {
                    assert(v@[i as int] == id);
                }
            }
            return true;
        }
        i = i + 1;
    }
    false
}

/// A store into a mapped segment preserves well-formedness: no segment
/// changes length, and the free stack is untouched.
proof fn lemma_seg_store_wf(m: VmView, a: int, b: int, c: int)
    requires
        m.wf(),
        0 <= a < 8,
        0 <= b < 8,
        0 <= c < 8,
        m.seg_store_ok(a, b),
    ensures
        m.seg_store_step(a, b, c).wf(),
{
    let m2 = m.seg_store_step(a, b, c);
    assert forall|i: int| 0 <= i < m2.mem.len() implies #[trigger] m2.mem[i].len() <= WORD_MAX by {
        assert(m2.mem[i].len() == m.mem[i].len());
    }
    assert forall|i: int| 0 <= i < m2.free.len() implies {
        &&& 1 <= #[trigger] m2.free[i]
        &&& m2.free[i] < m2.mem.len()
        &&& m2.mem[m2.free[i] as int].len() == 0
    } by {
        assert(m2.free[i] == m.free[i]);
        assert(1 <= m.free[i] && m.free[i] < m.mem.len() && m.mem[m.free[i] as int].len() == 0);
        assert(m2.mem[m.free[i] as int].len() == m.mem[m.free[i] as int].len());
    }
    assert forall|i: int, j: int| 0 <= i < j < m2.free.len() implies m2.free[i] != m2.free[j] by {
        assert(m.free[i] != m.free[j]);
    }
}

/// Mapping a segment preserves well-formedness, whether the id is reused
/// from the free stack or freshly assigned.
proof fn lemma_map_seg_wf(m: VmView, b: int, c: int)
    requires
        m.wf(),
        m.map_can_grow(),
        0 <= b < 8,
        0 <= c < 8,
    ensures
        m.map_seg_step(b, c).wf(),
{
    let m2 = m.map_seg_step(b, c);
    let id = m.fresh_seg_id();
    assert(zero_segment(m.regs[c]).len() <= WORD_MAX);
    if m.free.len() > 0 {
        assert(1 <= id && id < m.mem.len());
        assert forall|i: int| 0 <= i < m2.mem.len() implies #[trigger] m2.mem[i].len()
            <= WORD_MAX by {
            if i != id {
                assert(m2.mem[i] == m.mem[i]);
            }
        }
        assert forall|i: int| 0 <= i < m2.free.len() implies {
            &&& 1 <= #[trigger] m2.free[i]
            &&& m2.free[i] < m2.mem.len()
            &&& m2.mem[m2.free[i] as int].len() == 0
        } by {
            assert(m2.free[i] == m.free[i]);
            assert(1 <= m.free[i] && m.free[i] < m.mem.len() && m.mem[m.free[i] as int].len()
                == 0);
            assert(m.free[i] != m.free[m.free.len() - 1]);
            assert(m2.mem[m.free[i] as int] == m.mem[m.free[i] as int]);
        }
        assert forall|i: int, j: int| 0 <= i < j < m2.free.len() implies m2.free[i]
            != m2.free[j] by {
            assert(m.free[i] != m.free[j]);
        }
    } else {
        assert(id == m.mem.len());
        assert forall|i: int| 0 <= i < m2.mem.len() implies #[trigger] m2.mem[i].len()
            <= WORD_MAX by {
            if i < m.mem.len() {
                assert(m2.mem[i] == m.mem[i]);
            } else {
                assert(m2.mem[i] == zero_segment(m.regs[c]));
            }
        }
        assert(m2.free == m.free);
        assert forall|i: int| 0 <= i < m2.free.len() implies {
            &&& 1 <= #[trigger] m2.free[i]
            &&& m2.free[i] < m2.mem.len()
            &&& m2.mem[m2.free[i] as int].len() == 0
        } by {
            assert(1 <= m.free[i] && m.free[i] < m.mem.len() && m.mem[m.free[i] as int].len()
                == 0);
            assert(m2.mem[m.free[i] as int] == m.mem[m.free[i] as int]);
        }
    }
}

/// Unmapping a mapped, nonzero segment preserves well-formedness: the freed
/// id is nonzero, in range, distinct from every id already freed, and its
/// segment is emptied.
proof fn lemma_unmap_wf(m: VmView, c: int)
    requires
        m.wf(),
        0 <= c < 8,
        m.unmap_ok(c),
    ensures
        m.unmap_seg_step(c).wf(),
{
    let m2 = m.unmap_seg_step(c);
    let id = m.regs[c];
    assert forall|i: int| 0 <= i < m2.mem.len() implies #[trigger] m2.mem[i].len() <= WORD_MAX by {
        if i != id {
            assert(m2.mem[i] == m.mem[i]);
        }
    }
    assert forall|i: int| 0 <= i < m2.free.len() implies {
        &&& 1 <= #[trigger] m2.free[i]
        &&& m2.free[i] < m2.mem.len()
        &&& m2.mem[m2.free[i] as int].len() == 0
    } by {
        if i < m.free.len() {
            assert(m2.free[i] == m.free[i]);
            assert(1 <= m.free[i] && m.free[i] < m.mem.len() && m.mem[m.free[i] as int].len()
                == 0);
            if m.free[i] != id {
                assert(m2.mem[m.free[i] as int] == m.mem[m.free[i] as int]);
            }
        } else {
            assert(m2.free[i] == id);
        }
    }
    assert forall|i: int, j: int| 0 <= i < j < m2.free.len() implies m2.free[i] != m2.free[j] by {
        if j < m.free.len() {
            assert(m.free[i] != m.free[j]);
        } else {
            assert(m2.free[j] == id);
            if m.free[i] == id {
                assert(m.free.contains(id));
            }
        }
    }
}

/// Replacing segment 0 with a copy of a mapped segment preserves
/// well-formedness: freed ids are nonzero, so their segments are untouched.
proof fn lemma_load_prog_wf(m: VmView, b: int, c: int)
    requires
        m.wf(),
        0 <= b < 8,
        0 <= c < 8,
        m.load_prog_ok(b),
    ensures
        m.load_prog_step(b, c).wf(),
{
    let m2 = m.load_prog_step(b, c);
    if m.regs[b] != 0 {
        assert forall|i: int| 0 <= i < m2.mem.len() implies #[trigger] m2.mem[i].len()
            <= WORD_MAX by {
            if i != 0 {
                assert(m2.mem[i] == m.mem[i]);
            } else {
                assert(m2.mem[0] == m.mem[m.regs[b] as int]);
            }
        }
        assert forall|i: int| 0 <= i < m2.free.len() implies {
            &&& 1 <= #[trigger] m2.free[i]
            &&& m2.free[i] < m2.mem.len()
            &&& m2.mem[m2.free[i] as int].len() == 0
        } by {
            assert(m2.free[i] == m.free[i]);
            assert(1 <= m.free[i] && m.free[i] < m.mem.len() && m.mem[m.free[i] as int].len()
                == 0);
            assert(m2.mem[m.free[i] as int] == m.mem[m.free[i] as int]);
        }
        assert forall|i: int, j: int| 0 <= i < j < m2.free.len() implies m2.free[i]
            != m2.free[j] by {
            assert(m.free[i] != m.free[j]);
        }
    }
}

/// Segmented Load: `R[A]` takes `segment[R[B]][R[C]]`; an id out of range
/// or an offset at or past the segment's end faults, leaving the state
/// unchanged.  A freed segment is empty, so loading from one faults on the
/// offset.
pub fn seg_load(vm: &mut Vm, word: u32) -> (r: Result<(), Fault>)
    requires
        old(vm).wf(),
    ensures
        final(vm).wf(),
        match r {
            Ok(()) => old(vm)@.seg_load_ok(s_rb(word) as int, s_rc(word) as int) && final(vm)@
                == old(vm)@.seg_load_step(s_ra(word) as int, s_rb(word) as int, s_rc(word) as int),
            Err(f) => !old(vm)@.seg_load_ok(s_rb(word) as int, s_rc(word) as int) && *final(vm)
                == *old(vm) && f == seg_fault(old(vm)@, s_rb(word) as int),
        },
{
    let a = reg_a(word);
    let b = reg_b(word);
    let c = reg_c(word);
    let sb = vm.registers[b] as usize;
    if sb >= vm.memory.len() {
        return Err(Fault::UnmappedSegment);
    }
    let off = vm.registers[c] as usize;
    if off >= vm.memory[sb].len() {
        return Err(Fault::SegmentBounds);
    }
    let v = vm.memory[sb][off];
    vm.registers[a] = v;
    proof {
        lemma_with_reg_wf(old(vm)@, a as int, v);
    }
    Ok(())
}

/// Segmented Store: `segment[R[A]][R[B]]` takes `R[C]`; an id out of range
/// or an offset at or past the segment's end faults, leaving the state
/// unchanged.
pub fn seg_store(vm: &mut Vm, word: u32) -> (r: Result<(), Fault>)
    requires
        old(vm).wf(),
    ensures
        final(vm).wf(),
        match r {
            Ok(()) => old(vm)@.seg_store_ok(s_ra(word) as int, s_rb(word) as int) && final(vm)@
                == old(vm)@.seg_store_step(s_ra(word) as int, s_rb(word) as int, s_rc(word) as int),
            Err(f) => !old(vm)@.seg_store_ok(s_ra(word) as int, s_rb(word) as int) && *final(vm)
                == *old(vm) && f == seg_fault(old(vm)@, s_ra(word) as int),
        },
{
    let a = reg_a(word);
    let b = reg_b(word);
    let c = reg_c(word);
    let sa = vm.registers[a] as usize;
    if sa >= vm.memory.len() {
        return Err(Fault::UnmappedSegment);
    }
    let off = vm.registers[b] as usize;
    if off >= vm.memory[sa].len() {
        return Err(Fault::SegmentBounds);
    }
    let v = vm.registers[c];
    let seg = &mut vm.memory[sa];
    seg[off] = v;
    proof {
        assert(vm@.mem =~~= old(vm)@.seg_store_step(a as int, b as int, c as int).mem);
        assert(vm@ =~~= old(vm)@.seg_store_step(a as int, b as int, c as int));
        lemma_seg_store_wf(old(vm)@, a as int, b as int, c as int);
    }
    Ok(())
}

/// Map Segment: a zero-filled segment of length `R[C]` is mapped under the
/// most recently freed id, or under a fresh id one past the high-water
/// mark; `R[B]` takes the id.  Id 0 is never assigned by this path.
pub fn map_seg(vm: &mut Vm, word: u32)
    requires
        old(vm).wf(),
        old(vm)@.map_can_grow(),
    ensures
        final(vm).wf(),
        final(vm)@ == old(vm)@.map_seg_step(s_rb(word) as int, s_rc(word) as int),
{
    let b = reg_b(word);
    let c = reg_c(word);
    let n = vm.registers[c] as usize;
    let seg = zero_vec(n);
    proof {
        assert(seg@ =~= zero_segment(old(vm)@.regs[c as int]));
    }
    let popped = vm.unmapped_segs.pop();
    match popped {
        Some(id) => {
            vm.memory[id as usize] = seg;
            vm.registers[b] = id;
            proof {
                assert(old(vm)@.free.drop_last() =~= old(vm)@.free.subrange(
                    0,
                    old(vm)@.free.len() - 1,
                ));
                assert(vm@.mem =~~= old(vm)@.map_seg_step(b as int, c as int).mem);
                assert(vm@ =~~= old(vm)@.map_seg_step(b as int, c as int));
                lemma_map_seg_wf(old(vm)@, b as int, c as int);
            }
        },
        None => {
            vm.max_mapped_seg = vm.max_mapped_seg + 1;
            vm.memory.push(seg);
            vm.registers[b] = vm.max_mapped_seg;
            proof {
                assert(vm@.mem =~~= old(vm)@.map_seg_step(b as int, c as int).mem);
                assert(vm@ =~~= old(vm)@.map_seg_step(b as int, c as int));
                lemma_map_seg_wf(old(vm)@, b as int, c as int);
            }
        },
    }
}

/// Unmap Segment: the segment named by `R[C]` is emptied and its id pushed
/// onto the free stack.  Naming segment 0, an id out of range, or an id
/// already freed faults, leaving the state unchanged.
pub fn unmap_seg(vm: &mut Vm, word: u32) -> (r: Result<(), Fault>)
    requires
        old(vm).wf(),
    ensures
        final(vm).wf(),
        match r {
            Ok(()) => old(vm)@.unmap_ok(s_rc(word) as int) && final(vm)@
                == old(vm)@.unmap_seg_step(s_rc(word) as int),
            Err(f) => !old(vm)@.unmap_ok(s_rc(word) as int) && f == Fault::UnmappedSegment
                && *final(vm) == *old(vm),
        },
{
    let c = reg_c(word);
    let id = vm.registers[c];
    if id == 0 {
        return Err(Fault::UnmappedSegment);
    }
    if id as usize >= vm.memory.len() {
        return Err(Fault::UnmappedSegment);
    }
    if contains_id(&vm.unmapped_segs, id) {
        return Err(Fault::UnmappedSegment);
    }
    let seg = &mut vm.memory[id as usize];
    seg.clear();
    vm.unmapped_segs.push(id);
    proof {
        assert(vm@.mem =~~= old(vm)@.unmap_seg_step(c as int).mem);
        assert(vm@ =~~= old(vm)@.unmap_seg_step(c as int));
        lemma_unmap_wf(old(vm)@, c as int);
    }
    Ok(())
}

/// Load Program: when `R[B]` is nonzero, segment 0 becomes a copy of
/// segment `R[B]`; either way the program counter takes `R[C]`.  A nonzero
/// `R[B]` that is out of range or freed faults before anything changes.
pub fn load_prog(vm: &mut Vm, word: u32) -> (r: Result<(), Fault>)
    requires
        old(vm).wf(),
    ensures
        final(vm).wf(),
        match r {
            Ok(()) => old(vm)@.load_prog_ok(s_rb(word) as int) && final(vm)@
                == old(vm)@.load_prog_step(s_rb(word) as int, s_rc(word) as int),
            Err(f) => !old(vm)@.load_prog_ok(s_rb(word) as int) && f == Fault::UnmappedSegment
                && *final(vm) == *old(vm),
        },
{
    let b = reg_b(word);
    let c = reg_c(word);
    let sb = vm.registers[b];
    if sb != 0 {
        if sb as usize >= vm.memory.len() {
            return Err(Fault::UnmappedSegment);
        }
        if contains_id(&vm.unmapped_segs, sb) {
            return Err(Fault::UnmappedSegment);
        }
        let seg = vm.memory[sb as usize].clone();
        proof {
            assert(seg@ =~= old(vm)@.mem[sb as int]);
        }
        vm.memory[0] = seg;
    }
    let pc = vm.registers[c];
    vm.prog_count = pc;
    proof {
        assert(vm@.mem =~~= old(vm)@.load_prog_step(b as int, c as int).mem);
        assert(vm@ =~~= old(vm)@.load_prog_step(b as int, c as int));
        lemma_load_prog_wf(old(vm)@, b as int, c as int);
    }
    Ok(())
}

/// Conditional Move: when `R[C]` is nonzero, `R[A]` takes `R[B]`.
pub fn cond_move(vm: &mut Vm, word: u32)
    requires
        old(vm).wf(),
    ensures
        final(vm).wf(),
        final(vm)@ == old(vm)@.cond_move_step(s_ra(word) as int, s_rb(word) as int, s_rc(word) as int),
{
    let a = reg_a(word);
    let b = reg_b(word);
    let c = reg_c(word);
    if vm.registers[c] != 0 {
        let v = vm.registers[b];
        vm.registers[a] = v;
        proof {
            lemma_with_reg_wf(old(vm)@, a as int, v);
        }
    }
}

/// Add: `R[A]` takes `(R[B] + R[C]) mod 2^32`.
pub fn add(vm: &mut Vm, word: u32)
    requires
        old(vm).wf(),
    ensures
        final(vm).wf(),
        final(vm)@ == old(vm)@.add_step(s_ra(word) as int, s_rb(word) as int, s_rc(word) as int),
{
    let a = reg_a(word);
    let b = reg_b(word);
    let c = reg_c(word);
    let x = vm.registers[b];
    let y = vm.registers[c];
    let sum = (((x as u64) + (y as u64)) % 0x1_0000_0000u64) as u32;
    vm.registers[a] = sum;
    proof {
        lemma_with_reg_wf(old(vm)@, a as int, sum);
    }
}

/// Multiply: `R[A]` takes `(R[B] * R[C]) mod 2^32`.
pub fn mul(vm: &mut Vm, word: u32)
    requires
        old(vm).wf(),
    ensures
        final(vm).wf(),
        final(vm)@ == old(vm)@.mul_step(s_ra(word) as int, s_rb(word) as int, s_rc(word) as int),
{
    let a = reg_a(word);
    let b = reg_b(word);
    let c = reg_c(word);
    let x = vm.registers[b];
    let y = vm.registers[c];
    proof {
        assert((x as u64) * (y as u64) <= 0xFFFF_FFFFu64 * 0xFFFF_FFFFu64) by (nonlinear_arith)
            requires
                x <= 0xFFFF_FFFFu32,
                y <= 0xFFFF_FFFFu32,
        ;
    }
    let prod = (((x as u64) * (y as u64)) % 0x1_0000_0000u64) as u32;
    vm.registers[a] = prod;
    proof {
        lemma_with_reg_wf(old(vm)@, a as int, prod);
    }
}

/// Divide: `R[A]` takes `R[B] / R[C]`, unsigned and truncating toward
/// zero; a zero `R[C]` faults and the state is unchanged.
pub fn div(vm: &mut Vm, word: u32) -> (r: Result<(), Fault>)
    requires
        old(vm).wf(),
    ensures
        final(vm).wf(),
        match r {
            Ok(()) => old(vm)@.regs[s_rc(word) as int] != 0 && final(vm)@ == old(vm)@.div_step(
                s_ra(word) as int,
                s_rb(word) as int,
                s_rc(word) as int,
            ),
            Err(f) => old(vm)@.regs[s_rc(word) as int] == 0 && f == Fault::DivideByZero
                && *final(vm) == *old(vm),
        },
{
    let a = reg_a(word);
    let b = reg_b(word);
    let c = reg_c(word);
    let y = vm.registers[c];
    if y == 0 {
        return Err(Fault::DivideByZero);
    }
    let x = vm.registers[b];
    let q = x / y;
    vm.registers[a] = q;
    proof {
        lemma_with_reg_wf(old(vm)@, a as int, q);
    }
    Ok(())
}

/// Bitwise NAND: `R[A]` takes `!(R[B] & R[C])`.
pub fn nand(vm: &mut Vm, word: u32)
    requires
        old(vm).wf(),
    ensures
        final(vm).wf(),
        final(vm)@ == old(vm)@.nand_step(s_ra(word) as int, s_rb(word) as int, s_rc(word) as int),
{
    let a = reg_a(word);
    let b = reg_b(word);
    let c = reg_c(word);
    let v = !(vm.registers[b] & vm.registers[c]);
    vm.registers[a] = v;
    proof {
        lemma_with_reg_wf(old(vm)@, a as int, v);
    }
}

/// Load Value: register A of the Load Value field form takes the 25-bit
/// immediate, zero-extended.
pub fn load_val(vm: &mut Vm, word: u32)
    requires
        old(vm).wf(),
    ensures
        final(vm).wf(),
        final(vm)@ == old(vm)@.load_val_step(s_lv_ra(word) as int, s_lv_value(word)),
{
    let a = lv_reg_a(word);
    let value = lv_value(word);
    vm.registers[a] = value;
    proof {
        lemma_with_reg_wf(old(vm)@, a as int, value);
    }
}

/// Output: the byte to hand to the output stream — the low 8 bits of
/// `R[C]`.  Writing it is the caller's task; the state does not change.
pub fn output(vm: &Vm, word: u32) -> (r: u8)
    requires
        vm.wf(),
    ensures
        r == vm@.output_byte(s_rc(word) as int),
{
    let c = reg_c(word);
    let v = vm.registers[c];
    proof {
        assert((v & 0xFF) < 256 && #[verifier::truncate] (v as u8) == (v & 0xFF) as u8)
            by (bit_vector);
    }
    #[verifier::truncate] (v as u8)
}

/// Input: `R[C]` takes the byte the caller read, zero-extended; at
/// end-of-stream (`None`) it takes `0xFFFF_FFFF`.  Never faults.
pub fn input(vm: &mut Vm, word: u32, byte: Option<u8>)
    requires
        old(vm).wf(),
    ensures
        final(vm).wf(),
        final(vm)@ == old(vm)@.input_step(s_rc(word) as int, byte),
        byte is None ==> final(vm)@.regs[s_rc(word) as int] == WORD_MAX,
{
    let c = reg_c(word);
    let v: u32 = match byte {
        Some(b) => b as u32,
        None => WORD_MAX,
    };
    vm.registers[c] = v;
    proof {
        lemma_with_reg_wf(old(vm)@, c as int, v);
    }
}

impl VmView {
    /// The program counter indexes a word of segment 0.
    pub open spec fn fetch_ok(self) -> bool {
        self.pc < self.mem[0].len()
    }

    /// The instruction word the program counter designates.
    pub open spec fn cur_word(self) -> u32 {
        self.mem[0][self.pc as int]
    }

    /// The state right after a fetch: the program counter advanced by one
    /// word, everything else untouched.
    pub open spec fn after_fetch(self) -> VmView
        recommends
            self.fetch_ok(),
    {
        VmView { pc: (self.pc + 1) as u32, ..self }
    }
}

/// Advancing the program counter preserves well-formedness.
proof fn lemma_after_fetch_wf(m: VmView)
    requires
        m.wf(),
    ensures
        m.after_fetch().wf(),
{
    let m2 = m.after_fetch();
    assert forall|i: int| 0 <= i < m2.mem.len() implies #[trigger] m2.mem[i].len() <= WORD_MAX by {
        assert(m2.mem[i] == m.mem[i]);
    }
    assert forall|i: int| 0 <= i < m2.free.len() implies {
        &&& 1 <= #[trigger] m2.free[i]
        &&& m2.free[i] < m2.mem.len()
        &&& m2.mem[m2.free[i] as int].len() == 0
    } by {
        assert(m2.free[i] == m.free[i]);
        assert(1 <= m.free[i] && m.free[i] < m.mem.len() && m.mem[m.free[i] as int].len() == 0);
    }
    assert forall|i: int, j: int| 0 <= i < j < m2.free.len() implies m2.free[i] != m2.free[j] by {
        assert(m.free[i] != m.free[j]);
    }
}

/// What one fetch-decode-execute cycle reports and leaves behind, given a
/// pre state `m` whose program counter is in bounds: the fetched word is
/// decoded, the matching operation runs on the state with the counter
/// already advanced, and a fault from the operation leaves that state
/// otherwise untouched.
pub open spec fn step_post(m: VmView, m2: VmView, r: Result<Action, Fault>) -> bool
    recommends
        m.wf(),
        m.fetch_ok(),
{
    let w = m.cur_word();
    let f = m.after_fetch();
    let op = s_opcode(w);
    let a = s_ra(w) as int;
    let b = s_rb(w) as int;
    let c = s_rc(w) as int;
    if op == OP_COND_MOVE {
        r == Ok::<Action, Fault>(Action::Continue) && m2 == f.cond_move_step(a, b, c)
    } else if op == OP_SEG_LOAD {
        if f.seg_load_ok(b, c) {
            r == Ok::<Action, Fault>(Action::Continue) && m2 == f.seg_load_step(a, b, c)
        } else {
            r == Err::<Action, Fault>(seg_fault(f, b)) && m2 == f
        }
    } else if op == OP_SEG_STORE {
        if f.seg_store_ok(a, b) {
            r == Ok::<Action, Fault>(Action::Continue) && m2 == f.seg_store_step(a, b, c)
        } else {
            r == Err::<Action, Fault>(seg_fault(f, a)) && m2 == f
        }
    } else if op == OP_ADD {
        r == Ok::<Action, Fault>(Action::Continue) && m2 == f.add_step(a, b, c)
    } else if op == OP_MUL {
        r == Ok::<Action, Fault>(Action::Continue) && m2 == f.mul_step(a, b, c)
    } else if op == OP_DIV {
        if f.regs[c] != 0 {
            r == Ok::<Action, Fault>(Action::Continue) && m2 == f.div_step(a, b, c)
        } else {
            r == Err::<Action, Fault>(Fault::DivideByZero) && m2 == f
        }
    } else if op == OP_NAND {
        r == Ok::<Action, Fault>(Action::Continue) && m2 == f.nand_step(a, b, c)
    } else if op == OP_HALT {
        r == Ok::<Action, Fault>(Action::Halt) && m2 == f
    } else if op == OP_MAP_SEG {
        r == Ok::<Action, Fault>(Action::Continue) && m2 == f.map_seg_step(b, c)
    } else if op == OP_UNMAP_SEG {
        if f.unmap_ok(c) {
            r == Ok::<Action, Fault>(Action::Continue) && m2 == f.unmap_seg_step(c)
        } else {
            r == Err::<Action, Fault>(Fault::UnmappedSegment) && m2 == f
        }
    } else if op == OP_OUTPUT {
        r == Ok::<Action, Fault>(Action::Output(f.output_byte(c))) && m2 == f
    } else if op == OP_INPUT {
        r == Ok::<Action, Fault>(Action::Input(w)) && m2 == f
    } else if op == OP_LOAD_PROG {
        if f.load_prog_ok(b) {
            r == Ok::<Action, Fault>(Action::Continue) && m2 == f.load_prog_step(b, c)
        } else {
            r == Err::<Action, Fault>(Fault::UnmappedSegment) && m2 == f
        }
    } else if op == OP_LOAD_VAL {
        r == Ok::<Action, Fault>(Action::Continue) && m2 == f.load_val_step(
            s_lv_ra(w) as int,
            s_lv_value(w),
        )
    } else {
        r == Err::<Action, Fault>(Fault::InvalidOpcode) && m2 == f
    }
}

/// One fetch-decode-execute cycle: fetch the word at `segment[0][pc]`,
/// advance the counter, decode, and run the matching operation.  A counter
/// out of bounds faults with nothing changed; Output and Input hand their
/// byte traffic back to the caller as an `Action`.
pub fn step(vm: &mut Vm) -> (r: Result<Action, Fault>)
    requires
        old(vm).wf(),
        old(vm)@.fetch_ok() && s_opcode(old(vm)@.cur_word()) == OP_MAP_SEG
            ==> old(vm)@.map_can_grow(),
    ensures
        final(vm).wf(),
        !old(vm)@.fetch_ok() ==> r == Err::<Action, Fault>(Fault::ProgramCounter) && *final(vm)
            == *old(vm),
        old(vm)@.fetch_ok() ==> step_post(old(vm)@, final(vm)@, r),
{
    let pcu = vm.prog_count as usize;
    if pcu >= vm.memory[0].len() {
        return Err(Fault::ProgramCounter);
    }
    let word = vm.memory[0][pcu];
    let op = opcode(word);
    proof {
        assert(old(vm)@.mem[0].len() <= WORD_MAX);
        lemma_after_fetch_wf(old(vm)@);
    }
    vm.prog_count = vm.prog_count + 1;
    proof {
        assert(vm@ =~~= old(vm)@.after_fetch());
    }
    if op == OP_COND_MOVE {
        cond_move(vm, word);
        Ok(Action::Continue)
    } else if op == OP_SEG_LOAD {
        match seg_load(vm, word) {
            Ok(()) => Ok(Action::Continue),
            Err(f) => Err(f),
        }
    } else if op == OP_SEG_STORE {
        match seg_store(vm, word) {
            Ok(()) => Ok(Action::Continue),
            Err(f) => Err(f),
        }
    } else if op == OP_ADD {
        crate::machine::add(vm, word);
        Ok(Action::Continue)
    } else if op == OP_MUL {
        crate::machine::mul(vm, word);
        Ok(Action::Continue)
    } else if op == OP_DIV {
        match div(vm, word) {
            Ok(()) => Ok(Action::Continue),
            Err(f) => Err(f),
        }
    } else if op == OP_NAND {
        nand(vm, word);
        Ok(Action::Continue)
    } else if op == OP_HALT {
        Ok(Action::Halt)
    } else if op == OP_MAP_SEG {
        map_seg(vm, word);
        Ok(Action::Continue)
    } else if op == OP_UNMAP_SEG {
        match unmap_seg(vm, word) {
            Ok(()) => Ok(Action::Continue),
            Err(f) => Err(f),
        }
    } else if op == OP_OUTPUT {
        let byte = output(vm, word);
        Ok(Action::Output(byte))
    } else if op == OP_INPUT {
        Ok(Action::Input(word))
    } else if op == OP_LOAD_PROG {
        match load_prog(vm, word) {
            Ok(()) => Ok(Action::Continue),
            Err(f) => Err(f),
        }
    } else if op == OP_LOAD_VAL {
        load_val(vm, word);
        Ok(Action::Continue)
    } else {
        Err(Fault::InvalidOpcode)
    }
}

/// Law: Map Segment, then Unmap Segment of the id just mapped, then Map
/// Segment again assigns the very same id — freed ids are reused most
/// recently freed first — and the remapped segment is zero-filled at its
/// new length, whatever its previous occupant held.  `c2` is the register
/// the unmap reads; the premise says it still holds the id the first map
/// assigned (as it does when `c2 == b1` and nothing wrote over it).
pub proof fn lemma_map_unmap_map_reuses_id(
    m: VmView,
    b1: int,
    c1: int,
    c2: int,
    b3: int,
    c3: int,
)
    requires
        m.wf(),
        m.map_can_grow(),
        0 <= b1 < 8,
        0 <= c1 < 8,
        0 <= c2 < 8,
        0 <= b3 < 8,
        0 <= c3 < 8,
        m.map_seg_step(b1, c1).regs[c2] == m.fresh_seg_id(),
    ensures
        m.map_seg_step(b1, c1).unmap_ok(c2),
        m.map_seg_step(b1, c1).unmap_seg_step(c2).fresh_seg_id() == m.fresh_seg_id(),
        m.map_seg_step(b1, c1).unmap_seg_step(c2).map_seg_step(b3, c3).regs[b3]
            == m.fresh_seg_id(),
        m.map_seg_step(b1, c1).unmap_seg_step(c2).map_seg_step(b3, c3).mem[
            m.fresh_seg_id() as int] == zero_segment(
            m.map_seg_step(b1, c1).unmap_seg_step(c2).regs[c3],
        ),
{
    let id = m.fresh_seg_id();
    let m1 = m.map_seg_step(b1, c1);
    let m2 = m1.unmap_seg_step(c2);
    let m3 = m2.map_seg_step(b3, c3);
    if m.free.len() > 0 {
        assert(1 <= id && id < m.mem.len());
        assert(m1.mem.len() == m.mem.len());
        if m1.free.contains(id) {
            let k = choose|k: int| 0 <= k < m1.free.len() && m1.free[k] == id;
            assert(m.free[k] == id);
            assert(m.free[m.free.len() - 1] == id);
            assert(false);
        }
    } else {
        assert(id == m.mem.len());
        assert(m1.free == m.free);
        assert(m1.mem.len() == m.mem.len() + 1);
        if m1.free.contains(id) {
            let k = choose|k: int| 0 <= k < m1.free.len() && m1.free[k] == id;
            assert(m.free[k] < m.mem.len());
            assert(false);
        }
    }
    assert(m1.unmap_ok(c2));
    assert(m2.free == m1.free.push(id));
    assert(m2.free.last() == id);
    assert(m3.regs == m2.regs.update(b3, id));
    assert(0 <= id < m2.mem.len());
    assert(m3.mem == m2.mem.update(id as int, zero_segment(m2.regs[c3])));
}

/// Law: Map Segment never assigns segment id 0, and leaves segment 0's
/// contents untouched: freed ids are nonzero, and a fresh id is at least
/// the table length, which always counts segment 0.
pub proof fn lemma_map_seg_spares_segment_zero(m: VmView, b: int, c: int)
    requires
        m.wf(),
        m.map_can_grow(),
        0 <= b < 8,
        0 <= c < 8,
    ensures
        m.fresh_seg_id() != 0,
        m.map_seg_step(b, c).mem[0] == m.mem[0],
{
    let id = m.fresh_seg_id();
    if m.free.len() > 0 {
        assert(1 <= m.free[m.free.len() - 1]);
        assert(m.map_seg_step(b, c).mem[0] == m.mem[0]);
    } else {
        assert(id == m.mem.len());
        assert(m.map_seg_step(b, c).mem[0] == m.mem[0]);
    }
}

} // verus!
