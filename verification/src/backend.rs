use vstd::prelude::*;
use vstd::string::StringExecFns;

use crate::Instruction;
use crate::NUM_CELLS;

verus! {

/// The fixed runtime prelude emitted once per program: cell-address
/// computation, pointer movement, cell addition, input with end-of-stream
/// remapped to 0, and output.
pub const BUILTINS: &'static str = "
function l $get_cell_addr() {
@start
    %p =l loadl $pointer
    %cellp =l add $cells, %p
    ret %cellp
}

function $move_pointer(l %n) {
@start
    %p =l loadl $pointer
    %p =l add %p, %n
    storel %p, $pointer
    ret
}

function $add(w %n) {
@start
    %p =l call $get_cell_addr()
    %c =w loadsb %p
    %c =w add %c, %n
    storeb %c, %p
    ret
}

function $input() {
@start
    %c =w call $getchar()
    %t =w ceqw %c, -1
    jnz %t, @is_eof, @is_not_eof
@is_eof
    %c =w xor %c, %c
@is_not_eof
    %p =l call $get_cell_addr()
    storew %c, %p
    ret
}

function $output() {
@start
    %p =l call $get_cell_addr()
    %c =w loadsb %p
    call $putchar(w %c)
    ret
}
";

/// The decimal digit characters.
pub open spec fn digit_char(d: int) -> char {
    if d == 0 {
        '0'
    } else if d == 1 {
        '1'
    } else if d == 2 {
        '2'
    } else if d == 3 {
        '3'
    } else if d == 4 {
        '4'
    } else if d == 5 {
        '5'
    } else if d == 6 {
        '6'
    } else if d == 7 {
        '7'
    } else if d == 8 {
        '8'
    } else {
        '9'
    }
}

/// The shortest decimal rendering of a non-negative integer.
pub open spec fn dec_nat(n: nat) -> Seq<char>
    decreases n,
{
    if n < 10 {
        seq![digit_char(n as int)]
    } else {
        dec_nat(n / 10).push(digit_char((n % 10) as int))
    }
}

/// The decimal rendering of a signed integer, with a leading minus sign
/// for negative values.
pub open spec fn dec_int(n: int) -> Seq<char> {
    if n < 0 {
        seq!['-'] + dec_nat((-n) as nat)
    } else {
        dec_nat(n as nat)
    }
}

/// The text lowered for one instruction standing at index `idx`. Labels are
/// derived from the instruction's own index, so they are unique per index.
pub open spec fn instr_text(i: Instruction, idx: int) -> Seq<char> {
    match i {
        Instruction::MovePointer(n) => "    call $move_pointer(l "@ + dec_int(n as int) + ")\n"@,
        Instruction::Add(n) => "    call $add(w "@ + dec_int(n as int) + ")\n"@,
        Instruction::Input => "    call $input()\n"@,
        Instruction::Output => "    call $output()\n"@,
        Instruction::JumpIfZero(t) => "@L"@ + dec_nat(idx as nat)
            + "\n    %p =l call $get_cell_addr()\n    %c =w loadsb %p\n    %t =w ceqw %c, 0\n    jnz %t, @L"@
            + dec_nat(t as nat) + ", @L"@ + dec_nat(idx as nat) + ".fallthrough\n@L"@ + dec_nat(
            idx as nat,
        ) + ".fallthrough\n"@,
        Instruction::JumpIfNonZero(t) => "    %p =l call $get_cell_addr()\n    %c =w loadsb %p\n    jnz %c, @L"@
            + dec_nat(t as nat) + ", @L"@ + dec_nat(idx as nat) + "\n@L"@ + dec_nat(idx as nat)
            + "\n"@,
    }
}

/// The lowered text of the first `k` instructions, in program order.
pub open spec fn body_text(instrs: Seq<Instruction>, k: int) -> Seq<char>
    decreases k,
{
    if k <= 0 {
        Seq::empty()
    } else {
        body_text(instrs, k - 1) + instr_text(instrs[k - 1], k - 1)
    }
}

/// Everything the backend emits after the prelude: the two global data
/// declarations (a zero block of `NUM_CELLS` cells and one machine-word
/// pointer), the exported entry function around the lowered body, and the
/// closing return of status 0.
pub open spec fn main_text(instrs: Seq<Instruction>) -> Seq<char> {
    "data $cells = { z "@ + dec_nat(NUM_CELLS as nat)
        + " }\ndata $pointer = { l 1 }\n\nexport function w $main() {\n@start\n"@ + body_text(
        instrs,
        instrs.len() as int,
    ) + "    ret 0\n}\n"@
}

/// The complete rendered program for an instruction sequence.
pub open spec fn program_text(instrs: Seq<Instruction>) -> Seq<char> {
    BUILTINS@ + main_text(instrs)
}

/// Append the shortest decimal rendering of `n`.
fn push_dec_usize(s: &mut String, n: usize)
    ensures
        final(s)@ == old(s)@ + dec_nat(n as nat),
    decreases n,
{
    if n >= 10 {
        push_dec_usize(s, n / 10);
    }
    let d = n % 10;
    if d == 0 {
        s.append("0");
    } else if d == 1 {
        s.append("1");
    } else if d == 2 {
        s.append("2");
    } else if d == 3 {
        s.append("3");
    } else if d == 4 {
        s.append("4");
    } else if d == 5 {
        s.append("5");
    } else if d == 6 {
        s.append("6");
    } else if d == 7 {
        s.append("7");
    } else if d == 8 {
        s.append("8");
    } else {
        s.append("9");
    }
    proof {
        reveal_strlit("0");
        reveal_strlit("1");
        reveal_strlit("2");
        reveal_strlit("3");
        reveal_strlit("4");
        reveal_strlit("5");
        reveal_strlit("6");
        reveal_strlit("7");
        reveal_strlit("8");
        reveal_strlit("9");
        assert(final(s)@ =~= old(s)@ + dec_nat(n as nat));
    }
}

/// Append the decimal rendering of a signed integer.
fn push_dec_isize(s: &mut String, n: isize)
    ensures
        final(s)@ == old(s)@ + dec_int(n as int),
{
    if n < 0 {
        s.append("-");
        let mag: usize = ((-(n + 1)) as usize) + 1;
        push_dec_usize(s, mag);
        proof {
            reveal_strlit("-");
            assert(final(s)@ =~= old(s)@ + dec_int(n as int));
        }
    } else {
        push_dec_usize(s, n as usize);
    }
}

/// The code-generation backend: renders an instruction sequence, after the
/// fixed runtime prelude, as a complete textual low-level program for an
/// external assembler. It never executes anything itself; byte-exact output
/// is pinned down by `program_text`.
pub struct QBE {
    pub instructions: Vec<Instruction>,
    pub text: String,
}

impl QBE {
    /// A backend loaded with an instruction sequence and the fixed prelude.
    pub fn new(instructions: Vec<Instruction>) -> (q: QBE)
        ensures
            q.instructions@ == instructions@,
            q.text@ == BUILTINS@,
    {
        QBE { instructions, text: String::from_str(BUILTINS) }
    }

    /// Render the whole program: global data declarations, the exported
    /// entry function with every instruction lowered in order, and the
    /// closing return. Appends to the text held so far, so a backend made
    /// by `new` yields exactly `program_text` of its instruction sequence.
    pub fn compile(self) -> (r: String)
        ensures
            r@ == self.text@ + main_text(self.instructions@),
    {
        let ghost orig = self.text@;
        let ghost prog = self.instructions@;
        let mut q = self;
        q.text.append("data $cells = { z ");
        push_dec_usize(&mut q.text, NUM_CELLS);
        q.text.append(" }\ndata $pointer = { l 1 }\n\nexport function w $main() {\n@start\n");
        q.compile_main();
        q.text.append("    ret 0\n}\n");
        proof {
            assert(q.text@ =~= orig + main_text(prog));
        }
        q.text
    }

    /// Lower each instruction in order, appending its text.
    fn compile_main(&mut self)
        ensures
            final(self).instructions@ == old(self).instructions@,
            final(self).text@ == old(self).text@ + body_text(
                old(self).instructions@,
                old(self).instructions@.len() as int,
            ),
    {
        let ghost orig = self.text@;
        let ghost prog = self.instructions@;
        let n = self.instructions.len();
        let mut i: usize = 0;
        while i < n
            invariant
                n == self.instructions.len(),
                i <= n,
                self.instructions@ == prog,
                self.text@ == orig + body_text(prog, i as int),
            decreases n - i,
        {
            let instr = self.instructions[i];
            match instr {
                Instruction::MovePointer(d) => {
                    self.text.append("    call $move_pointer(l ");
                    push_dec_isize(&mut self.text, d);
                    self.text.append(")\n");
                },
                Instruction::Add(d) => {
                    self.text.append("    call $add(w ");
                    push_dec_isize(&mut self.text, d);
                    self.text.append(")\n");
                },
                Instruction::Input => {
                    self.text.append("    call $input()\n");
                },
                Instruction::Output => {
                    self.text.append("    call $output()\n");
                },
                Instruction::JumpIfZero(t) => {
                    self.text.append("@L");
                    push_dec_usize(&mut self.text, i);
                    self.text.append(
                        "\n    %p =l call $get_cell_addr()\n    %c =w loadsb %p\n    %t =w ceqw %c, 0\n    jnz %t, @L",
                    );
                    push_dec_usize(&mut self.text, t);
                    self.text.append(", @L");
                    push_dec_usize(&mut self.text, i);
                    self.text.append(".fallthrough\n@L");
                    push_dec_usize(&mut self.text, i);
                    self.text.append(".fallthrough\n");
                },
                Instruction::JumpIfNonZero(t) => {
                    self.text.append(
                        "    %p =l call $get_cell_addr()\n    %c =w loadsb %p\n    jnz %c, @L",
                    );
                    push_dec_usize(&mut self.text, t);
                    self.text.append(", @L");
                    push_dec_usize(&mut self.text, i);
                    self.text.append("\n@L");
                    push_dec_usize(&mut self.text, i);
                    self.text.append("\n");
                },
            }
            proof {
                assert(self.text@ =~= orig + body_text(prog, i as int + 1));
            }
            i = i + 1;
        }
    }
}

} // verus!
