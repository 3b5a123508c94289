use ccbf::parser::Statement;
use ccbf::vm::{compile, resolve_jumps, Instruction};

#[test]
fn compile_multiple_increments() {
    let got = compile(&vec![
        Statement::Increment,
        Statement::Increment,
        Statement::Increment,
    ]);

    assert_eq!(got, vec![Instruction::Increment(3)]);
}

#[test]
fn net_multiple_increments() {
    let got = compile(&vec![
        Statement::Increment,
        Statement::Decrement,
        Statement::Increment,
    ]);

    assert_eq!(got, vec![Instruction::Increment(1)]);
}

#[test]
fn ignore_noops() {
    let got = compile(&vec![Statement::Increment, Statement::Decrement]);
    assert_eq!(got, vec![]);
}

#[test]
fn compile_multiple_shifts() {
    let got = compile(&vec![
        Statement::ShiftRight,
        Statement::ShiftLeft,
        Statement::ShiftRight,
    ]);

    assert_eq!(got, vec![Instruction::Shift(1)]);
}

#[test]
fn compile_shifts_and_increments() {
    let got = compile(&vec![
        Statement::Increment,
        Statement::ShiftRight,
        Statement::ShiftRight,
        Statement::Increment,
    ]);

    assert_eq!(
        got,
        vec![
            Instruction::Increment(1),
            Instruction::Shift(2),
            Instruction::Increment(1)
        ]
    );
}

#[test]
fn compile_with_print() {
    let got = compile(&vec![Statement::Increment, Statement::Print]);

    assert_eq!(got, vec![Instruction::Increment(1), Instruction::Print]);
}

#[test]
fn vm_nested_jump_expressions() {
    let got = compile(&vec![
        Statement::Increment,
        Statement::JumpIfZero(0),
        Statement::JumpIfZero(1),
        Statement::ShiftLeft,
        Statement::JumpIfNotZero(1),
        Statement::Decrement,
        Statement::JumpIfNotZero(0),
    ]);

    assert_eq!(
        got,
        vec![
            Instruction::Increment(1),
            Instruction::JumpIfZero(6),
            Instruction::JumpIfZero(4),
            Instruction::Shift(-1),
            Instruction::JumpIfNotZero(2),
            Instruction::Increment(-1),
            Instruction::JumpIfNotZero(1)
        ]
    );
}

#[test]
fn mixed_shifts_fold_to_net_delta() {
    let got = compile(&vec![
        Statement::ShiftRight,
        Statement::ShiftLeft,
        Statement::ShiftLeft,
        Statement::ShiftLeft,
    ]);
    assert_eq!(got, vec![Instruction::Shift(-2)]);

    let cancelled = compile(&vec![
        Statement::ShiftRight,
        Statement::ShiftRight,
        Statement::ShiftLeft,
        Statement::ShiftLeft,
    ]);
    assert_eq!(cancelled, vec![]);
}

#[test]
fn compile_lowers_read() {
    let got = compile(&vec![Statement::Read, Statement::Print]);
    assert_eq!(got, vec![Instruction::Read, Instruction::Print]);
}

#[test]
fn sibling_loops_resolve_symmetrically() {
    let got = compile(&vec![
        Statement::JumpIfZero(0),
        Statement::JumpIfNotZero(0),
        Statement::JumpIfZero(0),
        Statement::JumpIfNotZero(0),
    ]);
    assert_eq!(
        got,
        vec![
            Instruction::JumpIfZero(1),
            Instruction::JumpIfNotZero(0),
            Instruction::JumpIfZero(3),
            Instruction::JumpIfNotZero(2)
        ]
    );
    // every resolved open targets a close that targets it back
    for (i, ins) in got.iter().enumerate() {
        if let Instruction::JumpIfZero(j) = ins {
            assert_eq!(got[*j], Instruction::JumpIfNotZero(i));
        }
    }
}

#[test]
fn resolve_jumps_rewrites_both_targets() {
    let mut code = vec![
        Instruction::Increment(1),
        Instruction::JumpIfZero(0),
        Instruction::Increment(-1),
        Instruction::JumpIfNotZero(0),
    ];
    resolve_jumps(&mut code);
    assert_eq!(
        code,
        vec![
            Instruction::Increment(1),
            Instruction::JumpIfZero(3),
            Instruction::Increment(-1),
            Instruction::JumpIfNotZero(1)
        ]
    );
}
