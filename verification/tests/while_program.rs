use abstract_machines::while_program::{
    AssignType, WhileError, WhileInstruction, WhileProgram, WhileState,
};

#[test]
fn assign_zero() {
    let instruction = WhileInstruction::Assign(String::from("x"), AssignType::Zero);
    let second_instruction =
        WhileInstruction::Assign(String::from("refrigerator"), AssignType::Zero);
    let mut state = WhileState::new();
    state.do_instruction(&instruction).unwrap();
    state.do_instruction(&second_instruction).unwrap();
    assert_eq!(state.get("x"), Some(&0));
    assert_eq!(state.get("refrigerator"), Some(&0));
}

#[test]
fn assign_variable() {
    let instruction = WhileInstruction::Assign(String::from("x"), AssignType::Zero);
    let second_instruction = WhileInstruction::Assign(
        String::from("refrigerator"),
        AssignType::Variable(String::from("x")),
    );
    let mut state = WhileState::new();
    state.do_instruction(&instruction).unwrap();
    state.do_instruction(&second_instruction).unwrap();
    assert_eq!(state.get("x"), Some(&0));
    assert_eq!(state.get("refrigerator"), Some(&0));
}

#[test]
fn assign_variable_incremented() {
    let instruction = WhileInstruction::Assign(String::from("x"), AssignType::Zero);
    let second_instruction = WhileInstruction::Assign(
        String::from("refrigerator"),
        AssignType::VariableIncremented(String::from("x")),
    );
    let mut state = WhileState::new();
    state.do_instruction(&instruction).unwrap();
    state.do_instruction(&second_instruction).unwrap();
    assert_eq!(state.get("x"), Some(&0));
    assert_eq!(state.get("refrigerator"), Some(&1));
}

#[test]
fn run_assignment_program() {
    let program = WhileProgram::from_vec(vec![
        WhileInstruction::Assign(String::from("x"), AssignType::Zero),
        WhileInstruction::Assign(
            String::from("refrigerator"),
            AssignType::VariableIncremented(String::from("x")),
        ),
    ]);
    let mut state = WhileState::new();
    program.run(&mut state).unwrap();
    assert_eq!(state.get("x"), Some(&0));
    assert_eq!(state.get("refrigerator"), Some(&1));
}

#[test]
fn run_if_program() {
    let program = WhileProgram::from_vec(vec![
        WhileInstruction::Assign(String::from("x"), AssignType::Zero),
        WhileInstruction::Assign(
            String::from("refrigerator"),
            AssignType::VariableIncremented(String::from("x")),
        ),
        WhileInstruction::If(
            String::from("x"),
            String::from("refrigerator"),
            Box::new(WhileProgram::from_vec(vec![WhileInstruction::Assign(
                String::from("x"),
                AssignType::VariableIncremented(String::from("x")),
            )])),
            Box::new(WhileProgram::from_vec(vec![WhileInstruction::Assign(
                String::from("y"),
                AssignType::VariableIncremented(String::from("x")),
            )])),
        ),
    ]);
    let mut state = WhileState::new();
    program.run(&mut state).unwrap();
    assert_eq!(state.get("x"), Some(&1));
    assert_eq!(state.get("refrigerator"), Some(&1));
    assert_eq!(state.get("y"), None);
}

#[test]
fn run_for_program() {
    let program = WhileProgram::from_vec(vec![WhileInstruction::For(
        String::from("x"),
        Box::new(WhileProgram::from_vec(vec![WhileInstruction::For(
            String::from("x"),
            Box::new(WhileProgram::from_vec(vec![
                WhileInstruction::Assign(
                    String::from("x"),
                    AssignType::VariableIncremented(String::from("x")),
                ),
                WhileInstruction::Assign(
                    String::from("y"),
                    AssignType::VariableIncremented(String::from("y")),
                ),
            ])),
        )])),
    )]);
    let mut state = WhileState::new();
    state.insert(String::from("x"), 3);
    state.insert(String::from("y"), 0);
    program.run(&mut state).unwrap();
    assert_eq!(state.get("x"), Some(&24));
    assert_eq!(state.get("y"), Some(&21));
}

#[test]
fn run_while_program() {
    let program = WhileProgram::from_vec(vec![WhileInstruction::While(
        String::from("y"),
        String::from("x"),
        Box::new(WhileProgram::from_vec(vec![
            WhileInstruction::Assign(
                String::from("y"),
                AssignType::VariableIncremented(String::from("y")),
            ),
            WhileInstruction::For(
                String::from("x"),
                Box::new(WhileProgram::from_vec(vec![
                    WhileInstruction::Assign(
                        String::from("x"),
                        AssignType::VariableIncremented(String::from("x")),
                    ),
                    WhileInstruction::Assign(
                        String::from("y"),
                        AssignType::VariableIncremented(String::from("y")),
                    ),
                ])),
            ),
        ])),
    )]);
    let mut state = WhileState::new();
    state.insert(String::from("x"), 4);
    state.insert(String::from("y"), 0);
    program.run(&mut state).unwrap();
    assert_eq!(state.get("x"), Some(&64));
    assert_eq!(state.get("y"), Some(&64));
}

#[test]
fn assign_zero_overwrites_and_is_idempotent() {
    let instruction = WhileInstruction::Assign(String::from("x"), AssignType::Zero);
    let mut state = WhileState::new();
    state.insert(String::from("x"), 7);
    state.do_instruction(&instruction).unwrap();
    assert_eq!(state.get("x"), Some(&0));
    state.do_instruction(&instruction).unwrap();
    assert_eq!(state.get("x"), Some(&0));
}

#[test]
fn repeat_for_zero_bound_is_noop() {
    let program = WhileProgram::from_vec(vec![WhileInstruction::For(
        String::from("x"),
        Box::new(WhileProgram::from_vec(vec![WhileInstruction::Assign(
            String::from("y"),
            AssignType::VariableIncremented(String::from("y")),
        )])),
    )]);
    let mut state = WhileState::new();
    state.insert(String::from("x"), 0);
    state.insert(String::from("y"), 5);
    program.run(&mut state).unwrap();
    assert_eq!(state.get("x"), Some(&0));
    assert_eq!(state.get("y"), Some(&5));
}

#[test]
fn assign_variable_unbound_fails() {
    let instruction = WhileInstruction::Assign(
        String::from("y"),
        AssignType::Variable(String::from("x")),
    );
    let mut state = WhileState::new();
    let outcome = state.do_instruction(&instruction);
    assert!(matches!(outcome, Err(WhileError::UndefinedVariable(name)) if name == "x"));
    assert_eq!(state.get("y"), None);
}

#[test]
fn assign_incremented_unbound_fails() {
    let instruction = WhileInstruction::Assign(
        String::from("y"),
        AssignType::VariableIncremented(String::from("x")),
    );
    let mut state = WhileState::new();
    let outcome = state.do_instruction(&instruction);
    assert!(matches!(outcome, Err(WhileError::UndefinedVariable(name)) if name == "x"));
}

#[test]
fn assign_incremented_overflow_fails() {
    let instruction = WhileInstruction::Assign(
        String::from("y"),
        AssignType::VariableIncremented(String::from("x")),
    );
    let mut state = WhileState::new();
    state.insert(String::from("x"), usize::MAX);
    let outcome = state.do_instruction(&instruction);
    assert!(matches!(outcome, Err(WhileError::ValueOverflow(name)) if name == "x"));
    assert_eq!(state.get("y"), None);
}

#[test]
fn if_unbound_condition_fails() {
    let instruction = WhileInstruction::If(
        String::from("a"),
        String::from("b"),
        Box::new(WhileProgram::from_vec(vec![])),
        Box::new(WhileProgram::from_vec(vec![])),
    );
    let mut state = WhileState::new();
    let outcome = state.do_instruction(&instruction);
    assert!(matches!(outcome, Err(WhileError::UndefinedVariable(name)) if name == "a"));
}

#[test]
fn while_unbound_condition_fails() {
    let program = WhileProgram::from_vec(vec![WhileInstruction::While(
        String::from("a"),
        String::from("b"),
        Box::new(WhileProgram::from_vec(vec![])),
    )]);
    let mut state = WhileState::new();
    state.insert(String::from("a"), 0);
    let outcome = program.run(&mut state);
    assert!(matches!(outcome, Err(WhileError::UndefinedVariable(name)) if name == "b"));
}

#[test]
fn if_equal_values_select_else_branch() {
    let program = WhileProgram::from_vec(vec![WhileInstruction::If(
        String::from("x"),
        String::from("y"),
        Box::new(WhileProgram::from_vec(vec![WhileInstruction::Assign(
            String::from("then_ran"),
            AssignType::Zero,
        )])),
        Box::new(WhileProgram::from_vec(vec![WhileInstruction::Assign(
            String::from("else_ran"),
            AssignType::Zero,
        )])),
    )]);
    let mut state = WhileState::new();
    state.insert(String::from("x"), 1);
    state.insert(String::from("y"), 1);
    program.run(&mut state).unwrap();
    assert_eq!(state.get("then_ran"), None);
    assert_eq!(state.get("else_ran"), Some(&0));
}

#[test]
fn while_false_at_entry_runs_no_iteration() {
    let program = WhileProgram::from_vec(vec![WhileInstruction::While(
        String::from("y"),
        String::from("x"),
        Box::new(WhileProgram::from_vec(vec![WhileInstruction::Assign(
            String::from("y"),
            AssignType::VariableIncremented(String::from("y")),
        )])),
    )]);
    let mut state = WhileState::new();
    state.insert(String::from("x"), 1);
    state.insert(String::from("y"), 5);
    program.run(&mut state).unwrap();
    assert_eq!(state.get("y"), Some(&5));
}

#[test]
fn insert_overwrites_earlier_binding() {
    let mut state = WhileState::new();
    state.insert(String::from("x"), 1);
    state.insert(String::from("x"), 2);
    assert_eq!(state.get("x"), Some(&2));
    assert_eq!(state.get("z"), None);
}
