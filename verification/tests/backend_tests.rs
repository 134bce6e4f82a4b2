use brainfuck::backend::{QBE, BUILTINS};
use brainfuck::compiler::Compiler;
use brainfuck::Instruction;

fn compile_to_text(src: &str) -> String {
    let instrs = Compiler::new(src.chars().collect()).compile().unwrap();
    QBE::new(instrs).compile()
}

#[test]
fn empty_program_is_prelude_data_and_bare_main() {
    let text = QBE::new(Vec::new()).compile();
    let expected = String::from(BUILTINS)
        + "data $cells = { z 30000 }\n\
           data $pointer = { l 1 }\n\
           \n\
           export function w $main() {\n\
           @start\n    ret 0\n}\n";
    assert_eq!(text, expected);
}

#[test]
fn add_then_output_lowers_to_two_calls_and_no_labels() {
    let text = compile_to_text("+.");
    assert_eq!(text.matches("call $add(w 1)").count(), 1);
    assert_eq!(text.matches("call $output()").count(), 1);
    let add_at = text.find("    call $add(w 1)\n").unwrap();
    let out_at = text.find("    call $output()\n").unwrap();
    assert!(add_at < out_at);
    // no branch labels: nothing references any per-index label
    assert_eq!(text.matches("@L").count(), 0);
}

#[test]
fn negative_payloads_render_with_a_minus_sign() {
    let text = compile_to_text("<<<--");
    assert_eq!(text.matches("    call $move_pointer(l -3)\n").count(), 1);
    assert_eq!(text.matches("    call $add(w -2)\n").count(), 1);
}

#[test]
fn loop_lowers_to_mutually_referencing_labels() {
    let text = compile_to_text("[-]");
    // instruction 0 jumps past its partner at index 2, or falls through
    assert_eq!(
        text.matches("@L0\n    %p =l call $get_cell_addr()\n    %c =w loadsb %p\n    %t =w ceqw %c, 0\n    jnz %t, @L2, @L0.fallthrough\n@L0.fallthrough\n").count(),
        1
    );
    // instruction 2 jumps back to index 0 while the cell is nonzero
    assert_eq!(
        text.matches("    %p =l call $get_cell_addr()\n    %c =w loadsb %p\n    jnz %c, @L0, @L2\n@L2\n").count(),
        1
    );
    assert_eq!(text.matches("    call $add(w -1)\n").count(), 1);
}

#[test]
fn input_and_output_lower_to_plain_calls() {
    let text = compile_to_text(",.");
    assert_eq!(text.matches("    call $input()\n").count(), 1);
    assert_eq!(text.matches("    call $output()\n").count(), 1);
}

#[test]
fn rendering_is_reproducible() {
    let instrs = vec![
        Instruction::Add(5),
        Instruction::JumpIfZero(3),
        Instruction::Add(-1),
        Instruction::JumpIfNonZero(1),
        Instruction::Output,
    ];
    let a = QBE::new(instrs.clone()).compile();
    let b = QBE::new(instrs).compile();
    assert_eq!(a, b);
}
