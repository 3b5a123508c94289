use ccbf::compile_source;
use ccbf::parser::ParseError;
use ccbf::vm::{EvalOutcome, Instruction, RuntimeError, VM};

const BUDGET: usize = 1_000_000;

#[test]
fn cant_decrement_zero_mem_register() {
    let mut vm = VM::default();
    vm.eval_one(&Instruction::Increment(-1))
        .expect_err("Expected operation to fail");
}

#[test]
fn cant_move_past_last_memory_cell() {
    let mut vm = VM::default();
    vm.eval(&[Instruction::Shift(29999)], BUDGET).unwrap();
    vm.eval_one(&Instruction::Shift(1))
        .expect_err("Expected operation to fail");
}

#[test]
fn cant_move_before_first_memory_cell() {
    let mut vm = VM::default();
    vm.eval_one(&Instruction::Shift(-1))
        .expect_err("Expected operation to fail");
}

#[test]
fn program_outputs_one_byte_with_value_three() {
    let code = compile_source("+++.").unwrap();
    let mut vm = VM::default();
    assert_eq!(vm.eval(&code, BUDGET), Ok(EvalOutcome::Halted));
    assert_eq!(vm.output(), &vec![3u8]);
}

#[test]
fn clear_loop_terminates_with_zeroed_cell() {
    let code = compile_source("+[-]").unwrap();
    let mut vm = VM::default();
    assert_eq!(vm.eval(&code, BUDGET), Ok(EvalOutcome::Halted));
    assert_eq!(vm.cell(0), 0);
}

#[test]
fn transfer_loop_moves_value_to_next_cell() {
    let code = compile_source("++[>+<-]").unwrap();
    let mut vm = VM::default();
    assert_eq!(vm.eval(&code, BUDGET), Ok(EvalOutcome::Halted));
    assert_eq!(vm.cell(0), 0);
    assert_eq!(vm.cell(1), 2);
}

#[test]
fn unmatched_open_fails_to_compile() {
    assert_eq!(compile_source("[+"), Err(ParseError::UnbalancedBrackets));
}

#[test]
fn shift_left_from_cell_zero_fails_and_keeps_pointer() {
    let mut vm = VM::default();
    let got = vm.eval_one(&Instruction::Shift(-1));
    assert_eq!(got, Err(RuntimeError::NoMoreCells));
    assert_eq!(vm.mem_ptr(), 0);
}

#[test]
fn decrement_of_zero_cell_fails_and_keeps_value() {
    let mut vm = VM::default();
    let got = vm.eval_one(&Instruction::Increment(-1));
    assert_eq!(got, Err(RuntimeError::NegativeRegister));
    assert_eq!(vm.cell(0), 0);
}

#[test]
fn runtime_errors_propagate_from_eval() {
    let code = compile_source("<").unwrap();
    let mut vm = VM::default();
    assert_eq!(vm.eval(&code, BUDGET), Err(RuntimeError::NoMoreCells));

    let code = compile_source("-").unwrap();
    let mut vm = VM::default();
    assert_eq!(vm.eval(&code, BUDGET), Err(RuntimeError::NegativeRegister));
}

#[test]
fn increment_saturates_at_byte_ceiling() {
    let mut vm = VM::default();
    assert_eq!(vm.eval_one(&Instruction::Increment(300)), Ok(1));
    assert_eq!(vm.cell(0), 255);
}

#[test]
fn read_takes_bytes_from_the_input_stream() {
    let code = compile_source(",>,").unwrap();
    let mut vm = VM::with_input(vec![65, 66]);
    assert_eq!(vm.eval(&code, BUDGET), Ok(EvalOutcome::Halted));
    assert_eq!(vm.cell(0), 65);
    assert_eq!(vm.cell(1), 66);
}

#[test]
fn read_past_end_of_input_leaves_cell_unchanged() {
    let code = compile_source("+,").unwrap();
    let mut vm = VM::default();
    assert_eq!(vm.eval(&code, BUDGET), Ok(EvalOutcome::Halted));
    assert_eq!(vm.cell(0), 1);
}

#[test]
fn exhausted_budget_pauses_and_resumes() {
    let code = compile_source("+++.").unwrap();
    let mut vm = VM::default();
    assert_eq!(vm.eval(&code, 1), Ok(EvalOutcome::Paused));
    assert_eq!(vm.eval(&code, BUDGET), Ok(EvalOutcome::Halted));
    assert_eq!(vm.output(), &vec![3u8]);
    assert_eq!(vm.i_ptr(), code.len());
}

#[test]
fn skipped_loop_body_never_runs() {
    // the starting cell is zero, so the loop body (which would fail by
    // shifting left) is jumped over
    let code = compile_source("[<]+").unwrap();
    let mut vm = VM::default();
    assert_eq!(vm.eval(&code, BUDGET), Ok(EvalOutcome::Halted));
    assert_eq!(vm.cell(0), 1);
}

#[test]
fn nested_loops_transfer_through_two_cells() {
    let code = compile_source("++[>++[>+<-]<-]").unwrap();
    let mut vm = VM::default();
    assert_eq!(vm.eval(&code, BUDGET), Ok(EvalOutcome::Halted));
    assert_eq!(vm.cell(0), 0);
    assert_eq!(vm.cell(1), 0);
    assert_eq!(vm.cell(2), 4);
}
