use clox::chunk::{Chunk, OpCode, Span, Value};

#[test]
fn shared_line_is_shown_once() {
    let mut chunk = Chunk::new();
    let c = chunk.add_constant(Value { bits: 1.2f64.to_bits() });
    chunk.write(OpCode::Constant(c), Span { line: 123, column: 1 }).unwrap();
    chunk.write(OpCode::Return, Span { line: 123, column: 5 }).unwrap();
    let texts = vec![format!("{}", 1.2f64)];
    let listing = String::from_utf8(chunk.disassemble_chunk("test chunk", &texts)).unwrap();
    assert_eq!(
        listing,
        "== test chunk ==\n0000  123 OP_CONSTANT         0 '1.2'\n0001    | OP_RETURN\n"
    );
}

#[test]
fn changed_line_is_shown_again() {
    let mut chunk = Chunk::new();
    chunk.write(OpCode::Negate, Span { line: 1, column: 1 }).unwrap();
    chunk.write(OpCode::Add, Span { line: 2, column: 1 }).unwrap();
    chunk.write(OpCode::Subtract, Span { line: 2, column: 3 }).unwrap();
    let texts: Vec<String> = vec![];
    let lines: Vec<String> = (0..3)
        .map(|k| String::from_utf8(chunk.disassemble_instruction(k, &texts)).unwrap())
        .collect();
    assert_eq!(lines, vec!["0000    1 OP_NEGATE\n", "0001    2 OP_ADD\n", "0002    | OP_SUBTRACT\n"]);
}

#[test]
fn wide_offsets_and_lines_are_not_truncated() {
    let mut chunk = Chunk::new();
    for _ in 0..10001 {
        chunk.write(OpCode::Multiply, Span { line: 12345, column: 1 }).unwrap();
    }
    chunk.write(OpCode::Divide, Span { line: 12346, column: 1 }).unwrap();
    let texts: Vec<String> = vec![];
    assert_eq!(String::from_utf8(chunk.disassemble_instruction(0, &texts)).unwrap(), "0000 12345 OP_MULTIPLY\n");
    assert_eq!(String::from_utf8(chunk.disassemble_instruction(10001, &texts)).unwrap(), "10001 12346 OP_DIVIDE\n");
}
