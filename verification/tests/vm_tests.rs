use brainfuck::compiler::Compiler;
use brainfuck::vm::{add_to_cell, move_ptr, VM};

const FUEL: u64 = 1_000_000;

fn compile(src: &str) -> Vec<brainfuck::Instruction> {
    Compiler::new(src.chars().collect()).compile().unwrap()
}

#[test]
fn outputs_three_after_three_increments() {
    let mut vm = VM::new(compile("+++."));
    let halted = vm.execute(FUEL);
    assert!(halted);
    assert_eq!(vm.output(), &vec![3u8]);
}

#[test]
fn echoes_input_until_end_of_stream() {
    let mut vm = VM::new(compile(",[.,]"));
    vm.set_input(vec![b'A', b'B']);
    let halted = vm.execute(FUEL);
    assert!(halted);
    assert_eq!(vm.output(), &vec![b'A', b'B']);
}

#[test]
fn loop_on_zero_cell_never_enters_the_body() {
    let mut vm = VM::new(compile("[-]"));
    let halted = vm.execute(FUEL);
    assert!(halted);
    assert_eq!(vm.output(), &Vec::<u8>::new());
    assert_eq!(vm.get_cell(0), 0);
}

#[test]
fn transfer_loop_moves_the_value_one_cell_right() {
    let mut vm = VM::new(compile("++[->+<]"));
    let halted = vm.execute(FUEL);
    assert!(halted);
    assert_eq!(vm.get_cell(1), 2);
    assert_eq!(vm.get_cell(0), 0);
}

#[test]
fn end_of_input_reads_as_zero() {
    // one real byte, then end-of-stream: the second read stores 0
    let mut vm = VM::new(compile(",.,."));
    vm.set_input(vec![65]);
    let halted = vm.execute(FUEL);
    assert!(halted);
    assert_eq!(vm.output(), &vec![65u8, 0u8]);
}

#[test]
fn end_of_input_with_no_input_at_all_reads_as_zero() {
    let mut vm = VM::new(compile(",."));
    let halted = vm.execute(FUEL);
    assert!(halted);
    assert_eq!(vm.output(), &vec![0u8]);
}

#[test]
fn cell_arithmetic_is_modulo_256() {
    let mut c: u8 = 7;
    for _ in 0..256 {
        c = add_to_cell(c, 1);
    }
    assert_eq!(c, 7);
    assert_eq!(add_to_cell(200, 100), 44);
    assert_eq!(add_to_cell(3, -5), 254);
    assert_eq!(add_to_cell(0, 1000), 232);
    assert_eq!(add_to_cell(0, -1000), 24);
}

#[test]
fn pointer_arithmetic_wraps_around_the_address_space() {
    assert_eq!(move_ptr(0, -1), usize::MAX);
    assert_eq!(move_ptr(usize::MAX, 1), 0);
    assert_eq!(move_ptr(move_ptr(0, -5), 5), 0);
    assert_eq!(move_ptr(7, 3), 10);
}

#[test]
fn moving_left_from_zero_and_back_runs_without_failure() {
    let mut vm = VM::new(compile("<+>."));
    let halted = vm.execute(FUEL);
    assert!(halted);
    // the increment landed on the wrapped-around topmost cell
    assert_eq!(vm.output(), &vec![0u8]);
    assert_eq!(vm.get_cell(usize::MAX), 1);
}

#[test]
fn execute_reports_an_unfinished_program() {
    // an endless loop spends the whole step budget and is not halted
    let mut vm = VM::new(compile("+[]"));
    let halted = vm.execute(10_000);
    assert!(!halted);
    let halted_later = vm.execute(10_000);
    assert!(!halted_later);
}

#[test]
fn huge_fused_increment_wraps() {
    // 260 pluses fuse into one Add whose effect is 260 mod 256
    let src: String = "+".repeat(260) + ".";
    let mut vm = VM::new(compile(&src));
    let halted = vm.execute(FUEL);
    assert!(halted);
    assert_eq!(vm.output(), &vec![4u8]);
}
