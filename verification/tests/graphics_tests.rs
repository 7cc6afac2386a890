use pdf_engine_core::content::ContentOperation;
use pdf_engine_core::error::PdfError;
use pdf_engine_core::graphics::{
    graphics_command, operation_text, path_command, GraphicsCommand, Number, PathCommand, StateStack,
};
use pdf_engine_core::object::{PdfObject, PdfReal};

fn op(operator: &str, operands: Vec<PdfObject>) -> ContentOperation {
    ContentOperation { operator: operator.to_string(), operands }
}

#[test]
fn line_width_and_save_restore_commands() {
    let w = graphics_command(&op("w", vec![PdfObject::Real(PdfReal::from_scaled(5, 0))])).unwrap();
    assert_eq!(w, GraphicsCommand::LineWidth(Number::Real(PdfReal::from_scaled(5, 0))));
    assert_eq!(graphics_command(&op("q", vec![])).unwrap(), GraphicsCommand::Save);
    assert_eq!(graphics_command(&op("Q", vec![])).unwrap(), GraphicsCommand::Restore);
}

#[test]
fn concat_matrix_command_reads_six_numbers() {
    let operands = vec![2, 0, 0, 2, 10, 10].into_iter().map(PdfObject::Integer).collect();
    let cm = graphics_command(&op("cm", operands)).unwrap();
    assert_eq!(
        cm,
        GraphicsCommand::Concat(vec![
            Number::Int(2),
            Number::Int(0),
            Number::Int(0),
            Number::Int(2),
            Number::Int(10),
            Number::Int(10),
        ])
    );
}

#[test]
fn matrix_with_wrong_operand_count_is_refused() {
    let res = graphics_command(&op("cm", vec![PdfObject::Integer(1)]));
    assert_eq!(res, Err(PdfError::InvalidGraphicOperator("Matrix requires 6 operands".to_string())));
}

#[test]
fn missing_and_non_number_operands_are_refused() {
    assert_eq!(
        graphics_command(&op("w", vec![])),
        Err(PdfError::InvalidGraphicOperator("Missing Operand".to_string()))
    );
    assert_eq!(
        graphics_command(&op("g", vec![PdfObject::Boolean(true)])),
        Err(PdfError::InvalidGraphicOperator("Expected Number".to_string()))
    );
    assert_eq!(
        graphics_command(&op("Tf", vec![PdfObject::Integer(1), PdfObject::Integer(12)])),
        Err(PdfError::InvalidGraphicOperator("Expected Name".to_string()))
    );
}

#[test]
fn font_and_text_position_commands() {
    let tf = graphics_command(&op("Tf", vec![PdfObject::Name("F1".to_string()), PdfObject::Integer(12)]));
    assert_eq!(tf, Ok(GraphicsCommand::Font("F1".to_string(), Number::Int(12))));
    let td = graphics_command(&op("Td", vec![PdfObject::Integer(100), PdfObject::Integer(200)]));
    assert_eq!(td, Ok(GraphicsCommand::MoveText(Number::Int(100), Number::Int(200))));
    assert_eq!(graphics_command(&op("BT", vec![])), Ok(GraphicsCommand::BeginText));
    assert_eq!(graphics_command(&op("Tj", vec![])), Ok(GraphicsCommand::Other));
}

#[test]
fn shown_text_of_tj_and_tj_array() {
    let tj = operation_text(&op("Tj", vec![PdfObject::String(b"Hello".to_vec())]));
    assert_eq!(tj, Some("Hello".to_string()));
    let arr = operation_text(&op(
        "TJ",
        vec![PdfObject::Array(vec![
            PdfObject::String(b"W".to_vec()),
            PdfObject::Integer(120),
            PdfObject::String(b"orld".to_vec()),
        ])],
    ));
    assert_eq!(arr, Some("World".to_string()));
    assert_eq!(operation_text(&op("Tj", vec![PdfObject::Integer(3)])), None);
    assert_eq!(operation_text(&op("cm", vec![])), None);
}

#[test]
fn shown_text_replaces_invalid_utf8() {
    let t = operation_text(&op("'", vec![PdfObject::String(vec![0x41, 0xFF, 0x42])]));
    assert_eq!(t, Some("A\u{FFFD}B".to_string()));
}

#[test]
fn path_commands() {
    let m = path_command(&op("m", vec![PdfObject::Integer(10), PdfObject::Integer(10)]));
    assert_eq!(m, Ok(PathCommand::MoveTo(Number::Int(10), Number::Int(10))));
    let l = path_command(&op("l", vec![PdfObject::Integer(90), PdfObject::Integer(90)]));
    assert_eq!(l, Ok(PathCommand::LineTo(Number::Int(90), Number::Int(90))));
    assert_eq!(path_command(&op("S", vec![])), Ok(PathCommand::Stroke));
    assert_eq!(path_command(&op("F", vec![])), Ok(PathCommand::Fill));
    assert_eq!(path_command(&op("h", vec![])), Ok(PathCommand::Close));
    assert!(path_command(&op("c", vec![PdfObject::Integer(1)])).is_err());
}

#[test]
fn state_stack_restore_gives_back_saved_state() {
    let mut stack: StateStack<u32> = StateStack::new();
    stack.save(5);
    assert_eq!(stack.depth(), 1);
    assert_eq!(stack.restore(), Ok(5));
    assert_eq!(stack.depth(), 0);
}

#[test]
fn state_stack_underflow() {
    let mut stack: StateStack<u32> = StateStack::new();
    assert_eq!(stack.restore(), Err(PdfError::GraphicsStackUnderflow));
    stack.save(1);
    stack.save(2);
    assert_eq!(stack.restore(), Ok(2));
    assert_eq!(stack.restore(), Ok(1));
    assert_eq!(stack.restore(), Err(PdfError::GraphicsStackUnderflow));
}
