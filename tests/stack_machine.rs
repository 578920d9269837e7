use rx_automata::stack_machine::{execute, StackError, StackInstruction, StackOperation};

#[test]
fn push_and_add() -> Result<(), StackError> {
    let res = execute(
        vec![
            StackInstruction::Operation(StackOperation::Push),
            StackInstruction::Data(2),
            StackInstruction::Operation(StackOperation::Add),
        ],
        vec![1],
    )?;
    assert_eq!(res, 3);
    Ok(())
}

#[test]
fn push_and_four_ops() -> Result<(), StackError> {
    let res = execute(
        vec![
            StackInstruction::Operation(StackOperation::Push),
            StackInstruction::Data(5),
            StackInstruction::Operation(StackOperation::Push),
            StackInstruction::Data(2),
            StackInstruction::Operation(StackOperation::Sub),
            StackInstruction::Operation(StackOperation::Mul),
            StackInstruction::Operation(StackOperation::Push),
            StackInstruction::Data(4),
            StackInstruction::Operation(StackOperation::Div),
        ],
        vec![2],
    )?;
    assert_eq!(res, 1);
    Ok(())
}

fn op(o: StackOperation) -> StackInstruction {
    StackInstruction::Operation(o)
}

#[test]
fn stack_machine_errors() {
    assert_eq!(execute(vec![], vec![]), Err(StackError::EmptyStack));
    assert_eq!(execute(vec![], vec![7, 9]), Ok(9));
    assert_eq!(execute(vec![op(StackOperation::Add)], vec![1]), Err(StackError::EmptyStack));
    assert_eq!(execute(vec![op(StackOperation::Push)], vec![1]), Err(StackError::EmptyStack));
    assert_eq!(
        execute(vec![op(StackOperation::Push), op(StackOperation::Add)], vec![1]),
        Err(StackError::ExpectedData)
    );
    assert_eq!(execute(vec![StackInstruction::Data(3)], vec![1]), Err(StackError::ExpectedOperation));
    assert_eq!(
        execute(vec![op(StackOperation::Add)], vec![i32::MAX, 1]),
        Err(StackError::Overflow)
    );
    assert_eq!(
        execute(vec![op(StackOperation::Div)], vec![i32::MIN, -1]),
        Err(StackError::Overflow)
    );
    assert_eq!(execute(vec![op(StackOperation::Div)], vec![5, 0]), Err(StackError::DivisionByZero));
}

#[test]
fn stack_machine_operand_order() {
    assert_eq!(execute(vec![op(StackOperation::Sub)], vec![10, 3]), Ok(7));
    assert_eq!(execute(vec![op(StackOperation::Div)], vec![-7, 2]), Ok(-3));
    assert_eq!(execute(vec![op(StackOperation::Mul)], vec![4, -3]), Ok(-12));
}
