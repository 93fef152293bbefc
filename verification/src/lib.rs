//! A minimal educational computing platform: an assembler (lexer and code
//! generator, in [`assembler`]) and a byte-oriented stack machine
//! ([`Emulator`]) that executes the generated machine code against a single
//! flat 256-byte memory.
//!
//! The two top memory cells hold the program counter and the stack pointer,
//! so one uniform read/write primitive governs everything, including the
//! control registers themselves. The stack grows downward from just below
//! the reserved registers and shares the address space with program and data
//! memory; nothing separates them, so a sufficiently deep stack will corrupt
//! program bytes. That hazard is part of the machine's definition and the
//! specification below models it exactly.

pub mod assembler;

use vstd::prelude::*;

verus! {

/// Number of memory cells; addresses are 8-bit.
pub const MEMORY_SIZE: usize = 256;

/// Address of the memory cell that holds the program counter.
pub const PC: usize = 255;

/// Address of the memory cell that holds the stack pointer.
pub const SP: usize = 254;

/// Initial stack pointer: the first free cell below the reserved registers.
pub const STACK_TOP: u8 = 253;

/// Mathematical model of the whole machine: the 256 memory cells and the
/// running flag. Everything the machine ever does is a function of this.
pub struct VmState {
    pub mem: Seq<u8>,
    pub running: bool,
}

/// Byte addition with silent two's-complement wraparound, as the hardware
/// would do it. On the shared bit pattern, signed and unsigned addition
/// agree, so this also models the signed `ADD` instruction.
pub open spec fn byte_plus(a: u8, b: u8) -> u8 {
    ((a + b) % 256) as u8
}

/// Byte subtraction with silent two's-complement wraparound.
pub open spec fn byte_minus(a: u8, b: u8) -> u8 {
    (((a - b) + 256) % 256) as u8
}

/// A byte incremented by one, wrapping at 255.
pub open spec fn byte_inc(a: u8) -> u8 {
    byte_plus(a, 1)
}

/// The signed value (-128..=127) of a byte's two's-complement bit pattern.
pub open spec fn as_signed(v: u8) -> int {
    if v < 128 {
        v as int
    } else {
        v as int - 256
    }
}

/// Memory after the program counter cell is advanced past one byte.
pub open spec fn bump_pc(m: Seq<u8>) -> Seq<u8> {
    m.update(PC as int, byte_inc(m[PC as int]))
}

/// Memory after `v` is pushed: `v` is written at the address held in the
/// stack pointer cell, then the stack pointer is decremented. If the stack
/// pointer points at its own cell, the second write clobbers the first;
/// the model keeps that behaviour rather than hiding it.
pub open spec fn spec_push(m: Seq<u8>, v: u8) -> Seq<u8> {
    let pos = m[SP as int];
    m.update(pos as int, v).update(SP as int, byte_minus(pos, 1))
}

/// Memory and value after a pop: the stack pointer is incremented first and
/// the value is then read at the new stack pointer, so the stack pointer
/// always points one below the most recently pushed value.
pub open spec fn spec_pop(m: Seq<u8>) -> (Seq<u8>, u8) {
    let sp1 = byte_inc(m[SP as int]);
    let m1 = m.update(SP as int, sp1);
    (m1, m1[sp1 as int])
}

/// Whether a conditional jump with condition code `cond` (1..=6) is taken
/// for the popped comparison value `v`, compared as a signed byte against
/// zero. Codes outside 1..=6 never jump.
pub open spec fn spec_cond_holds(cond: u8, v: u8) -> bool {
    let d = as_signed(v);
    if cond == 1 {
        d > 0
    } else if cond == 2 {
        d < 0
    } else if cond == 3 {
        d >= 0
    } else if cond == 4 {
        d <= 0
    } else if cond == 5 {
        d == 0
    } else if cond == 6 {
        d != 0
    } else {
        false
    }
}

/// One instruction of the machine: fetch the opcode at the address held in
/// the program counter cell, execute it, then advance the program counter
/// past the opcode. A halted machine does not change. Unrecognized opcodes
/// and condition codes are silent no-ops by design.
pub open spec fn spec_step(s: VmState) -> VmState {
    if !s.running {
        s
    } else {
        let m = s.mem;
        let op = m[m[PC as int] as int];
        if op == 0x00 {
            // HALT
            VmState { mem: bump_pc(m), running: false }
        } else if op == 0x01 {
            // LOAD: pop an address, push the byte stored there
            let (m1, loc) = spec_pop(m);
            VmState { mem: bump_pc(spec_push(m1, m1[loc as int])), running: true }
        } else if op == 0x02 {
            // STORE: pop an address, pop a value, write the value there
            let (m1, loc) = spec_pop(m);
            let (m2, val) = spec_pop(m1);
            VmState { mem: bump_pc(m2.update(loc as int, val)), running: true }
        } else if op == 0x03 {
            // PUSH: advance past the opcode, push the immediate byte
            let m1 = bump_pc(m);
            VmState { mem: bump_pc(spec_push(m1, m1[m1[PC as int] as int])), running: true }
        } else if op == 0x04 {
            // POP: discard the top of the stack
            VmState { mem: bump_pc(spec_pop(m).0), running: true }
        } else if op == 0x05 {
            // ADD: pop two, push the wrapping signed sum
            let (m1, a) = spec_pop(m);
            let (m2, b) = spec_pop(m1);
            VmState { mem: bump_pc(spec_push(m2, byte_plus(b, a))), running: true }
        } else if op == 0x06 {
            // SUB: pop two, push the second popped minus the first popped,
            // wrapping, so that pushing x then y and subtracting gives x - y
            let (m1, a) = spec_pop(m);
            let (m2, b) = spec_pop(m1);
            VmState { mem: bump_pc(spec_push(m2, byte_minus(b, a))), running: true }
        } else if op == 0x07 {
            // AND
            let (m1, a) = spec_pop(m);
            let (m2, b) = spec_pop(m1);
            VmState { mem: bump_pc(spec_push(m2, a & b)), running: true }
        } else if op == 0x08 {
            // OR
            let (m1, a) = spec_pop(m);
            let (m2, b) = spec_pop(m1);
            VmState { mem: bump_pc(spec_push(m2, a | b)), running: true }
        } else if op == 0x09 {
            // XOR
            let (m1, a) = spec_pop(m);
            let (m2, b) = spec_pop(m1);
            VmState { mem: bump_pc(spec_push(m2, a ^ b)), running: true }
        } else if op == 0x0A {
            // JP: advance past the opcode, pop the target address, read the
            // condition code byte at the program counter; condition 0 jumps
            // unconditionally, 1..=6 pop a comparison value, anything else
            // never jumps. Jumping stores the target in the program counter
            // cell, which the final advance then increments.
            let m1 = bump_pc(m);
            let (m2, loc) = spec_pop(m1);
            let cond = m2[m2[PC as int] as int];
            if cond == 0 {
                VmState { mem: bump_pc(m2.update(PC as int, loc)), running: true }
            } else if 1 <= cond && cond <= 6 {
                let (m3, v) = spec_pop(m2);
                let m4 = if spec_cond_holds(cond, v) {
                    m3.update(PC as int, loc)
                } else {
                    m3
                };
                VmState { mem: bump_pc(m4), running: true }
            } else {
                VmState { mem: bump_pc(m2), running: true }
            }
        } else {
            // unrecognized opcode: silently continue
            VmState { mem: bump_pc(m), running: true }
        }
    }
}

/// The machine after `n` instructions.
pub open spec fn spec_steps(s: VmState, n: nat) -> VmState
    decreases n,
{
    if n == 0 {
        s
    } else {
        spec_steps(spec_step(s), (n - 1) as nat)
    }
}

/// The machine reaches the halted state within `n` instructions.
pub open spec fn halts_within(s: VmState, n: nat) -> bool {
    !spec_steps(s, n).running
}

/// Memory contents of a freshly constructed machine: all cells zero except
/// the stack pointer cell, which holds the top of the usable stack region.
pub open spec fn init_mem() -> Seq<u8> {
    Seq::new(MEMORY_SIZE as nat, |i: int| if i == SP as int { STACK_TOP } else { 0u8 })
}

/// Taking one more step is the same as stepping once after `n` steps.
#[verifier::spinoff_prover]
#[verifier::rlimit(100)]
pub proof fn lemma_steps_then_step(s: VmState, n: nat)
    ensures
        spec_steps(s, n + 1) == spec_step(spec_steps(s, n)),
    decreases n,
{
    assert(spec_steps(s, n + 1) == spec_steps(spec_step(s), n));
    if n == 0 {
        assert(spec_steps(spec_step(s), 0) == spec_step(s));
        assert(spec_steps(s, 0) == s);
    } else {
        lemma_steps_then_step(spec_step(s), (n - 1) as nat);
    }
}

/// The byte-oriented stack machine: a fixed 256-byte memory that holds the
/// program, the data, the stack, and the two control registers, plus the
/// flag that gates instruction fetching.
pub struct Emulator {
    pub memory: Vec<u8>,
    pub running: bool,
}

impl View for Emulator {
    type V = VmState;

    open spec fn view(&self) -> VmState {
        VmState { mem: self.memory@, running: self.running }
    }
}

impl Emulator {
    /// The machine owns exactly `MEMORY_SIZE` cells.
    pub open spec fn wf(&self) -> bool {
        self.memory@.len() == MEMORY_SIZE
    }

    /// A fresh machine: zeroed memory, program counter at 0, stack pointer
    /// at the top of the usable stack region, ready to run.
    pub fn new() -> (r: Emulator)
        ensures
            r.wf(),
            r@.running,
            r@.mem == init_mem(),
    {
        let mut memory: Vec<u8> = Vec::new();
        let mut i: usize = 0;
        while i < MEMORY_SIZE
            invariant
                i <= MEMORY_SIZE,
                memory@.len() == i,
                forall|j: int| 0 <= j < i ==> memory@[j] == 0u8,
            decreases MEMORY_SIZE - i,
        {
            memory.push(0);
            i += 1;
        }
        memory[SP] = STACK_TOP;
        let r = Emulator { memory, running: true };
        proof {
            assert(r@.mem =~= init_mem());
        }
        r
    }

    /// The byte at address `pos`.
    pub fn read(&self, pos: usize) -> (r: u8)
        requires
            self.wf(),
            pos < MEMORY_SIZE,
        ensures
            r == self@.mem[pos as int],
    {
        self.memory[pos]
    }

    /// Store `data` at address `pos`. The reserved register cells are
    /// ordinary addresses: writing them redirects the machine.
    pub fn write(&mut self, pos: usize, data: u8)
        requires
            old(self).wf(),
            pos < MEMORY_SIZE,
        ensures
            final(self).wf(),
            final(self)@.mem == old(self)@.mem.update(pos as int, data),
            final(self)@.running == old(self)@.running,
    {
        self.memory[pos] = data;
    }

    /// Copy a program image into memory starting at address 0, leaving the
    /// rest of memory, the registers and the running flag untouched.
    pub fn load(&mut self, program: &[u8])
        requires
            old(self).wf(),
            program@.len() <= MEMORY_SIZE,
        ensures
            final(self).wf(),
            final(self)@.running == old(self)@.running,
            forall|i: int| 0 <= i < program@.len() ==> final(self)@.mem[i] == program@[i],
            forall|i: int|
                program@.len() <= i < MEMORY_SIZE ==> final(self)@.mem[i] == old(self)@.mem[i],
    {
        let mut i: usize = 0;
        while i < program.len()
            invariant
                old(self).wf(),
                self.wf(),
                i <= program@.len() <= MEMORY_SIZE,
                self.running == old(self).running,
                forall|j: int| 0 <= j < i ==> self@.mem[j] == program@[j],
                forall|j: int| i <= j < MEMORY_SIZE ==> self@.mem[j] == old(self)@.mem[j],
            decreases program@.len() - i,
        {
            let b = program[i];
            self.write(i, b);
            i += 1;
        }
    }

    /// Force the running-to-halted transition from outside the fetch loop,
    /// for example under a host-imposed instruction budget.
    pub fn early_halt(&mut self)
        requires
            old(self).wf(),
        ensures
            final(self).wf(),
            !final(self)@.running,
            final(self)@.mem == old(self)@.mem,
    {
        self.running = false;
    }

    /// Return a halted machine to the running state: the program counter is
    /// reinitialized to 0 and the stack pointer to the top of the usable
    /// stack region, and no other memory cell changes, so loaded program
    /// bytes survive a reset.
    pub fn reset(&mut self)
        requires
            old(self).wf(),
        ensures
            final(self).wf(),
            final(self)@.running,
            final(self)@.mem[PC as int] == 0,
            final(self)@.mem[SP as int] == STACK_TOP,
            forall|i: int|
                0 <= i < MEMORY_SIZE && i != PC as int && i != SP as int ==> final(self)@.mem[i]
                    == old(self)@.mem[i],
    {
        self.write(PC, 0);
        self.write(SP, STACK_TOP);
        self.running = true;
    }

    /// Push one byte onto the stack.
    fn push(&mut self, data: u8)
        requires
            old(self).wf(),
        ensures
            final(self).wf(),
            final(self)@.mem == spec_push(old(self)@.mem, data),
            final(self)@.running == old(self)@.running,
    {
        let pos = self.memory[SP];
        self.memory[pos as usize] = data;
        let newsp: u8 = if pos == 0 {
            255
        } else {
            pos - 1
        };
        self.memory[SP] = newsp;
    }

    /// Pop one byte from the stack.
    fn pop(&mut self) -> (r: u8)
        requires
            old(self).wf(),
        ensures
            final(self).wf(),
            final(self)@.mem == spec_pop(old(self)@.mem).0,
            r == spec_pop(old(self)@.mem).1,
            final(self)@.running == old(self)@.running,
    {
        let sp0 = self.memory[SP];
        let sp1: u8 = if sp0 == 255 {
            0
        } else {
            sp0 + 1
        };
        self.memory[SP] = sp1;
        self.memory[sp1 as usize]
    }

    /// Advance the program counter cell past one byte.
    fn advance_pc(&mut self)
        requires
            old(self).wf(),
        ensures
            final(self).wf(),
            final(self)@.mem == bump_pc(old(self)@.mem),
            final(self)@.running == old(self)@.running,
    {
        let pc = self.memory[PC];
        let next: u8 = if pc == 255 {
            0
        } else {
            pc + 1
        };
        self.memory[PC] = next;
    }

    /// Fetch, decode and execute exactly one instruction.
    fn next(&mut self)
        requires
            old(self).wf(),
            old(self).running,
        ensures
            final(self).wf(),
            final(self)@ == spec_step(old(self)@),
    {
        let pc = self.memory[PC];
        let instruction = self.memory[pc as usize];

        match instruction {
            0x00 => {
                self.running = false;
            },
            0x01 => {
                let location = self.pop();
                let data = self.read(location as usize);
                self.push(data);
            },
            0x02 => {
                let location = self.pop();
                let data = self.pop();
                self.write(location as usize, data);
            },
            0x03 => {
                self.advance_pc();
                let location = self.memory[PC];
                let data = self.read(location as usize);
                self.push(data);
            },
            0x04 => {
                self.pop();
            },
            0x05 => {
                let a = self.pop();
                let b = self.pop();
                let sum: u8 = if (255 - a) >= b {
                    a + b
                } else {
                    // wrap around: a + b - 256
                    b - (255 - a) - 1
                };
                assert(sum == byte_plus(b, a));
                self.push(sum);
            },
            0x06 => {
                let a = self.pop();
                let b = self.pop();
                let diff: u8 = if b >= a {
                    b - a
                } else {
                    255 - (a - b) + 1
                };
                assert(diff == byte_minus(b, a));
                self.push(diff);
            },
            0x07 => {
                let a = self.pop();
                let b = self.pop();
                self.push(a & b);
            },
            0x08 => {
                let a = self.pop();
                let b = self.pop();
                self.push(a | b);
            },
            0x09 => {
                let a = self.pop();
                let b = self.pop();
                self.push(a ^ b);
            },
            0x0A => {
                self.advance_pc();
                let location = self.pop();
                let cond_location = self.memory[PC];
                let condition = self.read(cond_location as usize);
                let should_jump: bool = if condition == 0 {
                    true
                } else if 1 <= condition && condition <= 6 {
                    let data = self.pop();
                    let signed_nonneg = data < 128;
                    match condition {
                        1 => signed_nonneg && data != 0,
                        2 => !signed_nonneg,
                        3 => signed_nonneg,
                        4 => !signed_nonneg || data == 0,
                        5 => data == 0,
                        _ => data != 0,
                    }
                } else {
                    false
                };
                if should_jump {
                    self.write(PC, location);
                }
            },
            _ => {},
        }

        self.advance_pc();
    }

    /// Execute one instruction if the machine is running; do nothing once
    /// it has halted.
    pub fn step(&mut self)
        requires
            old(self).wf(),
        ensures
            final(self).wf(),
            final(self)@ == spec_step(old(self)@),
    {
        if self.running {
            self.next()
        }
    }

    /// Run until the HALT instruction executes. The machine must actually
    /// reach the halted state; a program that loops forever has no final
    /// state to promise anything about, and a caller needing a bound should
    /// drive execution through `step` under its own instruction budget.
    /// Because a halted machine no longer changes, the final state is
    /// exactly the state in which the program halted.
    pub fn run(&mut self)
        requires
            old(self).wf(),
            exists|n: nat| halts_within(old(self)@, n),
        ensures
            final(self).wf(),
            !final(self)@.running,
            exists|n: nat| final(self)@ == spec_steps(old(self)@, n),
    {
        let ghost start: VmState = self@;
        let ghost mut fuel: nat = choose|n: nat| halts_within(start, n);
        let ghost mut count: nat = 0;
        while self.running
            invariant
                self.wf(),
                self@ == spec_steps(start, count),
                halts_within(self@, fuel),
            decreases fuel,
        {
            proof {
                // still running, so at least one more step is needed
                assert(fuel > 0);
            }
            self.next();
            proof {
                lemma_steps_then_step(start, count);
                fuel = (fuel - 1) as nat;
                count = count + 1;
            }
        }
    }
}

/// Pushing `a`, pushing `b`, adding, pushing `b` again and subtracting
/// yields `a` back: `ADD` followed by `SUB` of the same operand is the
/// identity on bytes, with two's-complement wraparound honored at the
/// boundaries.
pub proof fn lemma_add_sub_round_trip(a: u8, b: u8)
    ensures
        byte_minus(byte_plus(a, b), b) == a,
{
}

/// The same round trip carried out on the machine's stack, through the
/// very push, pop and arithmetic operations that the `ADD` and `SUB`
/// instructions perform: pushing `a` and `b`, adding (pop twice, push the
/// wrapping sum), pushing `b` again and subtracting (pop twice, push the
/// wrapping difference) leaves `a` on top of the stack, in every memory
/// whose stack pointer lies in the usable stack region.
#[verifier::spinoff_prover]
#[verifier::rlimit(100)]
pub proof fn lemma_add_sub_stack(m: Seq<u8>, a: u8, b: u8)
    requires
        m.len() == MEMORY_SIZE,
        1 <= m[SP as int] <= STACK_TOP,
    ensures
        ({
            let m2 = spec_push(spec_push(m, a), b);
            let (m3, x) = spec_pop(m2);
            let (m4, y) = spec_pop(m3);
            let m5 = spec_push(m4, byte_plus(y, x));
            let m6 = spec_push(m5, b);
            let (m7, u) = spec_pop(m6);
            let (m8, v) = spec_pop(m7);
            let m9 = spec_push(m8, byte_minus(v, u));
            spec_pop(m9).1 == a
        }),
{
    let sp = m[SP as int];
    let p1 = byte_minus(sp, 1);
    let p2 = byte_minus(p1, 1);
    assert(p1 == sp - 1);
    assert(byte_inc(p1) == sp);
    assert(byte_inc(p2) == p1);

    let m1 = spec_push(m, a);
    assert(m1[SP as int] == p1 && m1[sp as int] == a);
    let m2 = spec_push(m1, b);
    assert(m2[SP as int] == p2 && m2[p1 as int] == b && m2[sp as int] == a);

    let (m3, x) = spec_pop(m2);
    assert(x == b && m3[SP as int] == p1 && m3[sp as int] == a);
    let (m4, y) = spec_pop(m3);
    assert(y == a && m4[SP as int] == sp);

    let m5 = spec_push(m4, byte_plus(y, x));
    assert(m5[SP as int] == p1 && m5[sp as int] == byte_plus(a, b));
    let m6 = spec_push(m5, b);
    assert(m6[SP as int] == p2 && m6[p1 as int] == b && m6[sp as int] == byte_plus(a, b));

    let (m7, u) = spec_pop(m6);
    assert(u == b && m7[SP as int] == p1 && m7[sp as int] == byte_plus(a, b));
    let (m8, v) = spec_pop(m7);
    assert(v == byte_plus(a, b) && m8[SP as int] == sp);

    let m9 = spec_push(m8, byte_minus(v, u));
    assert(m9[sp as int] == byte_minus(byte_plus(a, b), b));
    lemma_add_sub_round_trip(a, b);
    assert(spec_pop(m9).1 == a);
}

/// A conditional jump with condition `eq` is taken iff the popped
/// comparison value is exactly zero, and with condition `neq` iff it is
/// nonzero.
pub proof fn lemma_jump_eq_neq(v: u8)
    ensures
        spec_cond_holds(5, v) <==> v == 0,
        spec_cond_holds(6, v) <==> v != 0,
{
}

} // verus!
