use brainfuck::compiler::repeated_instructions_pass;
use brainfuck::compiler::Compiler;
use brainfuck::CompileError;
use brainfuck::Instruction;

#[test]
fn test_repeated_instructions_pass() {
    assert_eq!(
        repeated_instructions_pass(vec![
            Instruction::MovePointer(1),
            Instruction::MovePointer(-1),
            Instruction::MovePointer(1)
        ])
        .unwrap(),
        vec![Instruction::MovePointer(1)]
    );
    assert_eq!(
        repeated_instructions_pass(vec![
            Instruction::Add(1),
            Instruction::Add(1),
            Instruction::Add(-1),
        ])
        .unwrap(),
        vec![Instruction::Add(1)]
    );
}

#[test]
fn fusion_pass_is_idempotent_on_fused_input() {
    let fused = repeated_instructions_pass(vec![
        Instruction::Add(1),
        Instruction::Add(1),
        Instruction::MovePointer(1),
        Instruction::MovePointer(1),
    ])
    .unwrap();
    assert_eq!(
        fused,
        vec![Instruction::Add(2), Instruction::MovePointer(2)]
    );
    let again = repeated_instructions_pass(fused.clone()).unwrap();
    assert_eq!(again, fused);
}

#[test]
fn unmatched_close_is_a_syntax_error() {
    let r = Compiler::new("][".chars().collect()).compile();
    assert_eq!(r, Err(CompileError::SyntaxError));
}

#[test]
fn lone_close_is_a_syntax_error() {
    let r = Compiler::new("+]".chars().collect()).compile();
    assert_eq!(r, Err(CompileError::SyntaxError));
}

#[test]
fn empty_source_gives_empty_program() {
    let r = Compiler::new(Vec::new()).compile().unwrap();
    assert_eq!(r, Vec::new());
}

#[test]
fn comments_are_ignored() {
    let r = Compiler::new("a + b + c\n".chars().collect()).compile().unwrap();
    assert_eq!(r, vec![Instruction::Add(2)]);
}

#[test]
fn simple_loop_brackets_point_at_each_other() {
    let r = Compiler::new("[-]".chars().collect()).compile().unwrap();
    assert_eq!(
        r,
        vec![
            Instruction::JumpIfZero(2),
            Instruction::Add(-1),
            Instruction::JumpIfNonZero(0)
        ]
    );
}

#[test]
fn nested_loop_brackets_pair_without_interleaving() {
    let r = Compiler::new("[[]]".chars().collect()).compile().unwrap();
    assert_eq!(
        r,
        vec![
            Instruction::JumpIfZero(3),
            Instruction::JumpIfZero(2),
            Instruction::JumpIfNonZero(1),
            Instruction::JumpIfNonZero(0)
        ]
    );
}

#[test]
fn resolution_recovers_the_recorded_pairing() {
    // re-resolving an already translated program changes nothing
    let r = Compiler::new("+[>[-]<]".chars().collect()).compile().unwrap();
    let again = repeated_instructions_pass(r.clone()).unwrap();
    assert_eq!(again, r);
}

#[test]
fn unmatched_open_is_not_detected() {
    let r = Compiler::new("[".chars().collect()).compile().unwrap();
    assert_eq!(r, vec![Instruction::JumpIfZero(0)]);
}

#[test]
fn fusion_does_not_merge_across_other_instructions() {
    let r = Compiler::new("+.+".chars().collect()).compile().unwrap();
    assert_eq!(
        r,
        vec![
            Instruction::Add(1),
            Instruction::Output,
            Instruction::Add(1)
        ]
    );
}

#[test]
fn opposite_moves_cancel_to_a_zero_payload() {
    let r = Compiler::new("+-".chars().collect()).compile().unwrap();
    assert_eq!(r, vec![Instruction::Add(0)]);
}
