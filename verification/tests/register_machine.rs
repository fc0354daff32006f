use abstract_machines::register_machine::{ProgramState, RegisterInstruction, RegisterMachine};

#[test]
fn test_calculation() {
    let register_machine = RegisterMachine::from_vec(vec![
        RegisterInstruction::INC(2, 1),
        RegisterInstruction::DEC(2, 2, 3),
        RegisterInstruction::INC(0, 1),
    ]);
    let mut input_state = ProgramState::from_vec(vec![5, 3]);
    assert_eq!(input_state.compute(&register_machine), 6);
}

#[test]
fn increment_updates_register_and_counter() {
    let mut state = ProgramState::from_vec(vec![5, 3]);
    state.do_instruction(&RegisterInstruction::INC(1, 7));
    assert_eq!(state.registers(), &vec![5, 4]);
    assert_eq!(state.current_instruction(), 7);
    assert!(!state.halted());
}

#[test]
fn increment_extends_registers_with_zeros() {
    let mut state = ProgramState::from_vec(vec![]);
    state.do_instruction(&RegisterInstruction::INC(2, 1));
    assert_eq!(state.registers(), &vec![0, 0, 1]);
    assert_eq!(state.current_instruction(), 1);
}

#[test]
fn decrement_positive_register() {
    let mut state = ProgramState::from_vec(vec![3]);
    state.do_instruction(&RegisterInstruction::DEC(0, 4, 9));
    assert_eq!(state.registers(), &vec![2]);
    assert_eq!(state.current_instruction(), 4);
}

#[test]
fn decrement_zero_register_takes_alternative_jump() {
    let mut state = ProgramState::from_vec(vec![0]);
    state.do_instruction(&RegisterInstruction::DEC(0, 4, 9));
    assert_eq!(state.registers(), &vec![0]);
    assert_eq!(state.current_instruction(), 9);
}

#[test]
fn decrement_extends_registers_with_zeros() {
    let mut state = ProgramState::from_vec(vec![]);
    state.do_instruction(&RegisterInstruction::DEC(1, 4, 9));
    assert_eq!(state.registers(), &vec![0, 0]);
    assert_eq!(state.current_instruction(), 9);
}

#[test]
fn compute_sets_halted_and_returns_register_zero() {
    let machine = RegisterMachine::from_vec(vec![RegisterInstruction::INC(0, 1)]);
    let mut state = ProgramState::from_vec(vec![]);
    assert!(!state.halted());
    assert_eq!(state.compute(&machine), 1);
    assert!(state.halted());
}

#[test]
fn compute_on_empty_program_returns_zero_without_registers() {
    let machine = RegisterMachine::from_vec(vec![]);
    let mut state = ProgramState::from_vec(vec![]);
    assert_eq!(state.compute(&machine), 0);
    assert!(state.halted());
    assert_eq!(state.current_instruction(), 0);
}

#[test]
fn machine_keeps_instruction_list() {
    let machine = RegisterMachine::from_vec(vec![
        RegisterInstruction::INC(2, 1),
        RegisterInstruction::DEC(2, 2, 3),
    ]);
    assert_eq!(
        machine.instructions(),
        &vec![
            RegisterInstruction::INC(2, 1),
            RegisterInstruction::DEC(2, 2, 3),
        ]
    );
}

#[test]
fn state_rebuilt_from_parts() {
    let mut state = ProgramState::from_parts(1, vec![5, 3, 1], false);
    let machine = RegisterMachine::from_vec(vec![
        RegisterInstruction::INC(2, 1),
        RegisterInstruction::DEC(2, 2, 3),
        RegisterInstruction::INC(0, 1),
    ]);
    assert_eq!(state.compute(&machine), 6);
    assert!(state.halted());
}
