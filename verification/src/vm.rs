use vstd::prelude::*;
use vstd::arithmetic::div_mod::{
    lemma_add_mod_noop, lemma_add_mod_noop_right, lemma_fundamental_div_mod,
    lemma_mod_division_less_than_divisor, lemma_mod_multiples_vanish, lemma_small_mod,
};
use std::collections::HashMap;

use crate::Instruction;

verus! {

broadcast use vstd::std_specs::hash::group_hash_axioms;

/// One past the largest address: pointer arithmetic wraps modulo this.
pub open spec fn address_space() -> int {
    usize::MAX as int + 1
}

/// The value of a sparse tape cell: 0 for any address never written.
pub open spec fn cell_at(cells: Map<usize, u8>, addr: usize) -> u8 {
    if cells.contains_key(addr) {
        cells[addr]
    } else {
        0
    }
}

/// Adding a delta to a cell always reduces modulo 256 (wrapping 8-bit
/// arithmetic in both directions).
pub open spec fn cell_add(c: u8, delta: int) -> u8 {
    (((c + delta) % 256)) as u8
}

/// Moving the data pointer wraps with unsigned modular arithmetic over the
/// whole address space, so moving left from address 0 wraps to the top.
pub open spec fn ptr_move(p: usize, delta: int) -> usize {
    (((p + delta) % address_space())) as usize
}

/// The whole observable state of a running program: instruction pointer,
/// data pointer, sparse cell store, input cursor and emitted output.
#[verifier::ext_equal]
pub ghost struct MachineState {
    pub ip: int,
    pub ptr: usize,
    pub cells: Map<usize, u8>,
    pub in_pos: int,
    pub output: Seq<u8>,
}

impl MachineState {
    /// Execution terminates when the instruction pointer runs past the end.
    pub open spec fn halted(self, prog: Seq<Instruction>) -> bool {
        !(0 <= self.ip < prog.len())
    }

    /// The byte an `Input` instruction stores: the next input byte, or 0 once
    /// the input is exhausted (end-of-input is a value, never an error).
    pub open spec fn next_input_byte(self, input: Seq<u8>) -> u8 {
        if 0 <= self.in_pos < input.len() {
            input[self.in_pos]
        } else {
            0
        }
    }

    /// One fetch-and-dispatch step of the execution engine. The instruction
    /// pointer advances first; a taken branch then overrides it. A halted
    /// state steps to itself.
    pub open spec fn step(self, prog: Seq<Instruction>, input: Seq<u8>) -> MachineState {
        if self.halted(prog) {
            self
        } else {
            let cur = cell_at(self.cells, self.ptr);
            match prog[self.ip] {
                Instruction::MovePointer(n) => MachineState {
                    ip: self.ip + 1,
                    ptr: ptr_move(self.ptr, n as int),
                    ..self
                },
                Instruction::Add(n) => MachineState {
                    ip: self.ip + 1,
                    cells: self.cells.insert(self.ptr, cell_add(cur, n as int)),
                    ..self
                },
                Instruction::Input => MachineState {
                    ip: self.ip + 1,
                    cells: self.cells.insert(self.ptr, self.next_input_byte(input)),
                    in_pos: if 0 <= self.in_pos < input.len() {
                        self.in_pos + 1
                    } else {
                        self.in_pos
                    },
                    ..self
                },
                Instruction::Output => MachineState {
                    ip: self.ip + 1,
                    output: self.output.push(cur),
                    ..self
                },
                Instruction::JumpIfZero(target) => MachineState {
                    ip: if cur == 0 {
                        target as int
                    } else {
                        self.ip + 1
                    },
                    ..self
                },
                Instruction::JumpIfNonZero(target) => MachineState {
                    ip: if cur != 0 {
                        target as int
                    } else {
                        self.ip + 1
                    },
                    ..self
                },
            }
        }
    }

    /// The state after `n` steps.
    pub open spec fn steps(self, prog: Seq<Instruction>, input: Seq<u8>, n: nat) -> MachineState
        decreases n,
    {
        if n == 0 {
            self
        } else {
            self.steps(prog, input, (n - 1) as nat).step(prog, input)
        }
    }
}

/// The direct execution engine: a tree-walking interpreter over the
/// instruction sequence, with a sparse, lazily initialized cell store.
/// Input and output are explicit buffers, so the engine itself is pure.
pub struct VM {
    pub instructions: Vec<Instruction>,
    pub ip: usize,
    pub cells: HashMap<usize, u8>,
    pub ptr: usize,
    pub input: Vec<u8>,
    pub in_pos: usize,
    pub out: Vec<u8>,
}

impl VM {
    /// The abstract machine state this engine currently holds.
    pub open spec fn state(self) -> MachineState {
        MachineState {
            ip: self.ip as int,
            ptr: self.ptr,
            cells: self.cells@,
            in_pos: self.in_pos as int,
            output: self.out@,
        }
    }

    /// A fresh engine: instruction pointer 0, data pointer 0, empty store,
    /// no input provided yet, nothing output yet.
    pub fn new(instructions: Vec<Instruction>) -> (vm: VM)
        ensures
            vm.instructions@ == instructions@,
            vm.input@ == Seq::<u8>::empty(),
            vm.state() == (MachineState {
                ip: 0,
                ptr: 0,
                cells: Map::<usize, u8>::empty(),
                in_pos: 0,
                output: Seq::<u8>::empty(),
            }),
    {
        VM {
            instructions,
            ip: 0,
            cells: HashMap::new(),
            ptr: 0,
            input: Vec::new(),
            in_pos: 0,
            out: Vec::new(),
        }
    }

    /// Provide the bytes the program may consume through `Input`.
    /// Replaces any input given before and rewinds the input cursor.
    pub fn set_input(&mut self, input: Vec<u8>)
        ensures
            final(self).input@ == input@,
            final(self).in_pos == 0,
            final(self).instructions@ == old(self).instructions@,
            final(self).ip == old(self).ip,
            final(self).cells@ == old(self).cells@,
            final(self).ptr == old(self).ptr,
            final(self).out@ == old(self).out@,
    {
        self.input = input;
        self.in_pos = 0;
    }

    /// Read the cell at an address, 0 if it was never written.
    pub fn get_cell(&self, idx: usize) -> (c: u8)
        ensures
            c == cell_at(self.cells@, idx),
    {
        match self.cells.get(&idx) {
            Some(c) => *c,
            None => 0,
        }
    }

    /// Read one byte of input. At end of input this always yields byte
    /// value 0, never an error, and asks for nothing further.
    fn read_input(&mut self) -> (b: u8)
        ensures
            b == old(self).state().next_input_byte(old(self).input@),
            final(self).in_pos == if old(self).in_pos < old(self).input@.len() {
                old(self).in_pos + 1
            } else {
                old(self).in_pos as int
            },
            final(self).input@ == old(self).input@,
            final(self).instructions@ == old(self).instructions@,
            final(self).ip == old(self).ip,
            final(self).cells@ == old(self).cells@,
            final(self).ptr == old(self).ptr,
            final(self).out@ == old(self).out@,
    {
        if self.in_pos < self.input.len() {
            let b = self.input[self.in_pos];
            self.in_pos = self.in_pos + 1;
            b
        } else {
            0
        }
    }

    /// Run the program for at most `max_steps` fetch-and-dispatch steps.
    /// Returns whether the program has halted (instruction pointer past the
    /// end). The final state is exactly the one the abstract machine reaches
    /// from the current state: either the program halts within the budget,
    /// or the whole budget is spent. All arithmetic wraps silently and end
    /// of input reads as 0, so a step itself never fails.
    pub fn execute(&mut self, max_steps: u64) -> (halted: bool)
        ensures
            final(self).instructions@ == old(self).instructions@,
            final(self).input@ == old(self).input@,
            halted == final(self).state().halted(old(self).instructions@),
            exists|n: nat|
                n <= max_steps && final(self).state() == old(self).state().steps(
                    old(self).instructions@,
                    old(self).input@,
                    n,
                ) && (halted || n == max_steps),
    {
        let ghost prog = self.instructions@;
        let ghost inp = self.input@;
        let ghost init = self.state();
        let ghost mut n: nat = 0;
        let mut remaining: u64 = max_steps;
        while remaining > 0 && self.ip < self.instructions.len()
            invariant
                self.instructions@ == prog,
                self.input@ == inp,
                n + remaining == max_steps,
                self.state() == init.steps(prog, inp, n),
            decreases remaining,
        {
            let ghost pre = self.state();
            let instr = self.instructions[self.ip];
            self.ip = self.ip + 1;
            match instr {
                Instruction::MovePointer(d) => {
                    self.ptr = move_ptr(self.ptr, d);
                },
                Instruction::Add(d) => {
                    let c = self.get_cell(self.ptr);
                    let c2 = add_to_cell(c, d);
                    self.cells.insert(self.ptr, c2);
                },
                Instruction::Input => {
                    let b = self.read_input();
                    self.cells.insert(self.ptr, b);
                },
                Instruction::Output => {
                    let c = self.get_cell(self.ptr);
                    self.out.push(c);
                },
                Instruction::JumpIfZero(target) => {
                    let c = self.get_cell(self.ptr);
                    if c == 0 {
                        self.ip = target;
                    }
                },
                Instruction::JumpIfNonZero(target) => {
                    let c = self.get_cell(self.ptr);
                    if c != 0 {
                        self.ip = target;
                    }
                },
            }
            proof {
                assert(self.state() =~= pre.step(prog, inp));
                n = n + 1;
            }
            remaining = remaining - 1;
        }
        proof {
            assert(n <= max_steps && self.state() == init.steps(prog, inp, n));
        }
        self.ip >= self.instructions.len()
    }

    /// The bytes emitted by `Output` instructions so far.
    pub fn output(&self) -> (o: &Vec<u8>)
        ensures
            o@ == self.out@,
    {
        &self.out
    }
}

/// A cell after the same delta has been applied a number of times in a row.
pub open spec fn cell_add_iter(c: u8, delta: int, times: nat) -> u8
    decreases times,
{
    if times == 0 {
        c
    } else {
        cell_add(cell_add_iter(c, delta, (times - 1) as nat), delta)
    }
}

/// Applying two deltas in a row is the same as applying their sum.
pub proof fn lemma_cell_add_compose(c: u8, a: int, b: int)
    ensures
        cell_add(cell_add(c, a), b) == cell_add(c, a + b),
{
    lemma_mod_division_less_than_divisor(c + a, 256);
    lemma_add_mod_noop(c + a, b, 256);
    lemma_add_mod_noop_right((c + a) % 256, b, 256);
}

/// Repeating a delta accumulates: `times` applications of `delta` amount to
/// one application of `delta * times`.
pub proof fn lemma_cell_add_iter_accumulates(c: u8, delta: int, times: nat)
    ensures
        cell_add_iter(c, delta, times) == cell_add(c, delta * times),
    decreases times,
{
    if times == 0 {
        lemma_small_mod(c as nat, 256);
        assert(delta * 0 == 0) by (nonlinear_arith);
    } else {
        lemma_cell_add_iter_accumulates(c, delta, (times - 1) as nat);
        lemma_cell_add_compose(c, delta * ((times - 1) as nat), delta);
        assert(delta * ((times - 1) as nat) + delta == delta * times) by (nonlinear_arith)
            requires times >= 1;
    }
}

/// Cell arithmetic is modulo 256 for all integers: adding 1 to a cell 256
/// times in a row returns the cell to its original value.
pub proof fn lemma_cell_add_cycle(c: u8)
    ensures
        cell_add_iter(c, 1, 256) == c,
{
    lemma_cell_add_iter_accumulates(c, 1, 256);
    lemma_mod_multiples_vanish(1, c as int, 256);
    lemma_small_mod(c as nat, 256);
}

/// Pointer arithmetic wraps cleanly: moving the pointer by any delta and
/// then by its negation returns it to where it was. In particular, moving
/// left from address 0 and then right again lands back on address 0 — no
/// failure, no negative address.
pub proof fn lemma_ptr_move_round_trip(p: usize, delta: int)
    ensures
        ptr_move(ptr_move(p, delta), -delta) == p,
{
    let m = address_space();
    let q = (p + delta) / m;
    lemma_mod_division_less_than_divisor(p + delta, m);
    lemma_fundamental_div_mod(p + delta, m);
    assert(ptr_move(p, delta) as int == p + delta - m * q);
    assert(m * (-q) + p == (p + delta - m * q) + (-delta));
    lemma_mod_multiples_vanish(-q, p as int, m);
    lemma_small_mod(p as nat, m as nat);
}

/// Add a (possibly huge, possibly negative) delta to a cell; the effect is
/// reduction modulo 256.
pub fn add_to_cell(c: u8, n: isize) -> (r: u8)
    ensures
        r == cell_add(c, n as int),
{
    if n >= 0 {
        let m: usize = (n as usize) % 256;
        proof {
            lemma_small_mod(c as nat, 256);
            lemma_add_mod_noop(c as int, n as int, 256);
        }
        (((c as usize) + m) % 256) as u8
    } else {
        let mag: usize = ((-(n + 1)) as usize) + 1;
        let m: usize = mag % 256;
        proof {
            lemma_fundamental_div_mod(mag as int, 256);
            // c + n differs from c + 256 - m by a multiple of 256
            lemma_mod_multiples_vanish(
                -((mag as int) / 256) - 1,
                (c as int) + 256 - (m as int),
                256,
            );
            lemma_small_mod(((c as int) + 256 - (m as int)) as nat % 256, 256);
        }
        (((c as usize) + 256 - m) % 256) as u8
    }
}

/// Shift the data pointer by a (possibly huge, possibly negative) delta;
/// the address wraps modulo the address space.
pub fn move_ptr(p: usize, n: isize) -> (r: usize)
    ensures
        r == ptr_move(p, n as int),
{
    if n >= 0 {
        let r = p.wrapping_add(n as usize);
        proof {
            if p + n <= usize::MAX {
                lemma_small_mod((p + n) as nat, address_space() as nat);
            } else {
                lemma_mod_multiples_vanish(-1, p + n, address_space());
                lemma_small_mod((p + n - address_space()) as nat, address_space() as nat);
            }
        }
        r
    } else {
        let mag: usize = ((-(n + 1)) as usize) + 1;
        let r = p.wrapping_sub(mag);
        proof {
            if p >= mag {
                lemma_small_mod((p - mag) as nat, address_space() as nat);
            } else {
                lemma_mod_multiples_vanish(1, p - mag, address_space());
                lemma_small_mod((p - mag + address_space()) as nat, address_space() as nat);
            }
        }
        r
    }
}

} // verus!
