use edt_core::lexer::{tokenize, Token, TokenKind};
use edt_core::parser::{generate, Instruction, IrProgram, OpCode, Operand, ParseError};
use edt_core::symbols::{ParseValue, SymbolTable};

fn compile(src: &str) -> Result<IrProgram, ParseError> {
    let tokens = tokenize(src).unwrap();
    generate(&tokens)
}

#[test]
fn constant_expression_is_folded() {
    let prog = compile("let a = 1 + 2 * 3 ;").unwrap();
    assert_eq!(prog.instructions.len(), 0);
    assert_eq!(prog.symbols.get("a"), Some(ParseValue::Constant(7)));
}

#[test]
fn string_is_loaded_once_and_shared() {
    let prog = compile("let s = \"hi\" ;").unwrap();
    assert_eq!(prog.instructions.len(), 1);
    assert_eq!(
        prog.instructions[0],
        Instruction {
            op: OpCode::LoadString,
            dest: Some(0),
            args: vec![Operand::StringLiteral("hi".to_string())]
        }
    );
    assert_eq!(prog.symbols.get("s"), Some(ParseValue::RuntimeReg(0)));

    let prog = compile("let s = \"hi\" ; let t = s ;").unwrap();
    assert_eq!(prog.instructions.len(), 1);
    assert_eq!(prog.symbols.get("t"), Some(ParseValue::RuntimeReg(0)));
    assert_eq!(prog.symbols.get("t"), prog.symbols.get("s"));
}

#[test]
fn constant_division_by_zero_fails() {
    let err = compile("let z = 4 / 0 ;").unwrap_err();
    assert_eq!(err, ParseError::DivisionByZero { line: 1 });
}

#[test]
fn folded_zero_divisor_fails() {
    let err = compile("let z = 4 / 2 - 2 ;\nlet w = 8 / z ;").unwrap_err();
    assert_eq!(err, ParseError::DivisionByZero { line: 2 });
}

#[test]
fn undefined_reference_names_the_variable() {
    let err = compile("let x = y ;").unwrap_err();
    assert_eq!(err, ParseError::UndefinedVariable { name: "y".to_string(), line: 1 });
}

#[test]
fn runtime_operand_emits_instruction() {
    let prog = compile("let s = \"a\" ; let u = s + 1 ;").unwrap();
    assert_eq!(prog.instructions.len(), 2);
    assert_eq!(
        prog.instructions[1],
        Instruction {
            op: OpCode::Add,
            dest: Some(1),
            args: vec![Operand::RegisterRef(0), Operand::IntegerConstant(1)]
        }
    );
    assert_eq!(prog.symbols.get("u"), Some(ParseValue::RuntimeReg(1)));
}

#[test]
fn products_bind_tighter_and_associate_left() {
    let prog = compile("let s = \"x\" ; let m = 2 * s * 3 ;").unwrap();
    assert_eq!(prog.instructions.len(), 3);
    assert_eq!(
        prog.instructions[1].args,
        vec![Operand::IntegerConstant(2), Operand::RegisterRef(0)]
    );
    assert_eq!(prog.instructions[1].op, OpCode::Mul);
    assert_eq!(
        prog.instructions[2].args,
        vec![Operand::RegisterRef(1), Operand::IntegerConstant(3)]
    );
    assert_eq!(prog.symbols.get("m"), Some(ParseValue::RuntimeReg(2)));
}

#[test]
fn mixed_precedence_with_runtime_values() {
    let prog = compile("let s = \"x\" ; let r = 1 + s * 2 - 3 ;").unwrap();
    let ops: Vec<OpCode> = prog.instructions.iter().map(|i| i.op).collect();
    assert_eq!(ops, vec![OpCode::LoadString, OpCode::Mul, OpCode::Add, OpCode::Sub]);
    assert_eq!(
        prog.instructions[2].args,
        vec![Operand::IntegerConstant(1), Operand::RegisterRef(1)]
    );
    assert_eq!(
        prog.instructions[3].args,
        vec![Operand::RegisterRef(2), Operand::IntegerConstant(3)]
    );
}

#[test]
fn subtraction_and_division_fold_left_to_right() {
    let prog = compile("let a = 10 - 3 - 2 ; let b = 7 / 2 ; let c = 0 - 7 / 2 ;").unwrap();
    assert_eq!(prog.symbols.get("a"), Some(ParseValue::Constant(5)));
    assert_eq!(prog.symbols.get("b"), Some(ParseValue::Constant(3)));
    assert_eq!(prog.symbols.get("c"), Some(ParseValue::Constant(-3)));
    assert_eq!(prog.instructions.len(), 0);
}

#[test]
fn names_refer_to_folded_constants() {
    let prog = compile("let a = 6 ; let b = a * a - 1 ;").unwrap();
    assert_eq!(prog.symbols.get("b"), Some(ParseValue::Constant(35)));
    assert_eq!(prog.instructions.len(), 0);
}

#[test]
fn rebinding_overwrites() {
    let prog = compile("let a = 1 ; let a = 2 ;").unwrap();
    assert_eq!(prog.symbols.get("a"), Some(ParseValue::Constant(2)));
}

#[test]
fn other_statement_tokens_are_skipped() {
    let prog = compile("fn ( ) { } 5 ; let a = 2 ; x").unwrap();
    assert_eq!(prog.instructions.len(), 0);
    assert_eq!(prog.symbols.get("a"), Some(ParseValue::Constant(2)));
    assert_eq!(prog.symbols.get("x"), None);
}

#[test]
fn constant_overflow_fails() {
    let err = compile("let a = 9223372036854775807 + 1 ;").unwrap_err();
    assert_eq!(err, ParseError::ConstantOverflow { line: 1 });
}

#[test]
fn oversized_literal_fails() {
    let err = compile("let a = 99999999999999999999 ;").unwrap_err();
    assert_eq!(
        err,
        ParseError::InvalidInteger { value: "99999999999999999999".to_string(), line: 1 }
    );
}

#[test]
fn largest_literal_is_accepted() {
    let prog = compile("let a = 9223372036854775807 ;").unwrap();
    assert_eq!(prog.symbols.get("a"), Some(ParseValue::Constant(i64::MAX)));
}

#[test]
fn missing_semicolon_fails() {
    let err = compile("let a = 1").unwrap_err();
    assert_eq!(
        err,
        ParseError::UnexpectedToken {
            expected: TokenKind::Semicolon,
            found: TokenKind::EOF,
            line: 1
        }
    );
}

#[test]
fn missing_name_fails() {
    let err = compile("let = 1 ;").unwrap_err();
    assert_eq!(
        err,
        ParseError::UnexpectedToken {
            expected: TokenKind::Identifier,
            found: TokenKind::Equal,
            line: 1
        }
    );
}

#[test]
fn missing_equal_fails() {
    let err = compile("\nlet a 1 ;").unwrap_err();
    assert_eq!(
        err,
        ParseError::UnexpectedToken { expected: TokenKind::Equal, found: TokenKind::Int, line: 2 }
    );
}

#[test]
fn missing_operand_fails() {
    let err = compile("let a = ;").unwrap_err();
    assert_eq!(err, ParseError::ExpectedExpression { found: TokenKind::Semicolon, line: 1 });
    let err = compile("let a = 1 + ;").unwrap_err();
    assert_eq!(err, ParseError::ExpectedExpression { found: TokenKind::Semicolon, line: 1 });
    let err = compile("let a = 1.5 ;").unwrap_err();
    assert_eq!(err, ParseError::ExpectedExpression { found: TokenKind::Float, line: 1 });
}

#[test]
fn token_list_without_end_marker() {
    let tokens = vec![
        Token { kind: TokenKind::Let, value: "let".to_string(), line: 1 },
        Token { kind: TokenKind::Identifier, value: "a".to_string(), line: 1 },
        Token { kind: TokenKind::Equal, value: "=".to_string(), line: 1 },
        Token { kind: TokenKind::Int, value: "4".to_string(), line: 1 },
        Token { kind: TokenKind::Semicolon, value: ";".to_string(), line: 1 },
    ];
    let prog = generate(&tokens).unwrap();
    assert_eq!(prog.symbols.get("a"), Some(ParseValue::Constant(4)));
    let empty: Vec<Token> = Vec::new();
    let prog = generate(&empty).unwrap();
    assert_eq!(prog.instructions.len(), 0);
}

#[test]
fn non_digit_integer_token_is_rejected() {
    let tokens = vec![
        Token { kind: TokenKind::Let, value: "let".to_string(), line: 3 },
        Token { kind: TokenKind::Identifier, value: "a".to_string(), line: 3 },
        Token { kind: TokenKind::Equal, value: "=".to_string(), line: 3 },
        Token { kind: TokenKind::Int, value: "4x".to_string(), line: 3 },
        Token { kind: TokenKind::Semicolon, value: ";".to_string(), line: 3 },
    ];
    let err = generate(&tokens).unwrap_err();
    assert_eq!(err, ParseError::InvalidInteger { value: "4x".to_string(), line: 3 });
}

#[test]
fn symbol_table_binds_and_rebinds() {
    let mut table = SymbolTable::new();
    assert_eq!(table.get("a"), None);
    table.bind("a".to_string(), ParseValue::Constant(1));
    table.bind("b".to_string(), ParseValue::RuntimeReg(4));
    table.bind("a".to_string(), ParseValue::Constant(9));
    assert_eq!(table.get("a"), Some(ParseValue::Constant(9)));
    assert_eq!(table.get("b"), Some(ParseValue::RuntimeReg(4)));
    assert_eq!(table.get("c"), None);
}
