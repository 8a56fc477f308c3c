//! The scanner, compiler and machine exercised end to end: the embedder
//! reads numeric literals and computes arithmetic with real binary64
//! floating point, the library does everything else.

use rlox::compiler::compile;
use rlox::scanner::Scanner;
use rlox::scanner::TokenType;
use rlox::value::Value;
use rlox::vm::Chunk;
use rlox::vm::Op;
use rlox::vm::Step;
use rlox::vm::VM;

fn parse_literal(s: &str) -> u64 {
    let cleaned: String = s.chars().filter(|c| *c != '_').collect();
    cleaned.parse::<f64>().unwrap().to_bits()
}

fn collect_nums(src: &str) -> Vec<u64> {
    let mut sc = Scanner::new(src);
    let mut out = Vec::new();
    loop {
        match sc.scan_token() {
            Some(t) => {
                if t.t_type == TokenType::Eof {
                    break;
                }
                if t.t_type == TokenType::Number {
                    out.push(parse_literal(t.slice));
                }
            }
            None => break,
        }
    }
    out
}

fn compile_src(src: &str) -> Result<Chunk, String> {
    compile(src, collect_nums(src))
}

fn run_vm(vm: &mut VM) -> Result<Value, String> {
    let mut step = vm.execute_loaded_chunk()?;
    loop {
        match step {
            Step::Done(v) => return Ok(v),
            Step::Arith(op, a, b) => {
                let x = f64::from_bits(a);
                let y = f64::from_bits(b);
                let r = match op {
                    Op::Add => x + y,
                    Op::Sub => x - y,
                    Op::Mul => x * y,
                    Op::Div => x / y,
                    _ => panic!("unexpected arithmetic request"),
                };
                step = vm.resume_arith(r.to_bits())?;
            }
        }
    }
}

#[test]
fn vm() {
    let mut chunk = Chunk::new();
    chunk.push_constant(Value::Number(5.0f64.to_bits()), 0);
    chunk.push_constant(Value::Number(5.0f64.to_bits()), 0);
    chunk.push_operation(Op::Add, 0);
    chunk.push_constant(Value::Number(4.0f64.to_bits()), 0);
    chunk.push_operation(Op::Sub, 0);
    chunk.push_constant(Value::Number(3.0f64.to_bits()), 0);
    chunk.push_operation(Op::Mul, 0);
    chunk.push_constant(Value::Number(2.0f64.to_bits()), 0);
    chunk.push_operation(Op::Div, 0);
    chunk.push_operation(Op::Negate, 0);
    chunk.push_operation(Op::Return, 0);
    let mut vm = VM::new();
    vm.load_chunk(chunk);
    assert_eq!(run_vm(&mut vm), Ok(Value::Number((-9.0f64).to_bits())));
}

#[test]
fn scanner() {
    // Test variable definition
    let src = "let x = 5;";
    let mut scanner = Scanner::new(src);

    assert_eq!(scanner.scan_token().unwrap().t_type, TokenType::Let);
    assert_eq!(scanner.scan_token().unwrap().t_type, TokenType::Identifier);
    assert_eq!(scanner.scan_token().unwrap().t_type, TokenType::Equal);
    assert_eq!(scanner.scan_token().unwrap().t_type, TokenType::Number);
    assert_eq!(scanner.scan_token().unwrap().t_type, TokenType::Semicolon);
    assert_eq!(scanner.scan_token().unwrap().t_type, TokenType::Eof);

    // Test number tokens
    let src = "5 5.0 5. .5";
    let mut scanner = Scanner::new(src);
    assert_eq!(scanner.scan_token().unwrap().t_type, TokenType::Number);
    assert_eq!(scanner.scan_token().unwrap().t_type, TokenType::Number);
    assert_eq!(scanner.scan_token().unwrap().t_type, TokenType::Number);
    assert_eq!(scanner.scan_token().unwrap().t_type, TokenType::Number);
    assert_eq!(scanner.scan_token().unwrap().t_type, TokenType::Eof);

    // Math
    let src = "5.0 + 5.0 - 5.0 * 5.0 / 5.0";
    let mut scanner = Scanner::new(src);
    assert_eq!(scanner.scan_token().unwrap().t_type, TokenType::Number);
    assert_eq!(scanner.scan_token().unwrap().t_type, TokenType::Plus);
    assert_eq!(scanner.scan_token().unwrap().t_type, TokenType::Number);
    assert_eq!(scanner.scan_token().unwrap().t_type, TokenType::Minus);
    assert_eq!(scanner.scan_token().unwrap().t_type, TokenType::Number);
    assert_eq!(scanner.scan_token().unwrap().t_type, TokenType::Star);
    assert_eq!(scanner.scan_token().unwrap().t_type, TokenType::Number);
    assert_eq!(scanner.scan_token().unwrap().t_type, TokenType::Slash);
    assert_eq!(scanner.scan_token().unwrap().t_type, TokenType::Number);
    assert_eq!(scanner.scan_token().unwrap().t_type, TokenType::Eof);

    // Function definition
    let src = "fn foo() { print(\"foo\"); }";
    let mut scanner = Scanner::new(src);
    assert_eq!(scanner.scan_token().unwrap().t_type, TokenType::Fn);
    assert_eq!(scanner.scan_token().unwrap().t_type, TokenType::Identifier);
    assert_eq!(scanner.scan_token().unwrap().t_type, TokenType::LParen);
    assert_eq!(scanner.scan_token().unwrap().t_type, TokenType::RParen);
    assert_eq!(scanner.scan_token().unwrap().t_type, TokenType::LBrace);
    assert_eq!(scanner.scan_token().unwrap().t_type, TokenType::Print);
    assert_eq!(scanner.scan_token().unwrap().t_type, TokenType::LParen);
    assert_eq!(scanner.scan_token().unwrap().t_type, TokenType::Str);
    assert_eq!(scanner.scan_token().unwrap().t_type, TokenType::RParen);
    assert_eq!(scanner.scan_token().unwrap().t_type, TokenType::Semicolon);
    assert_eq!(scanner.scan_token().unwrap().t_type, TokenType::RBrace);
    assert_eq!(scanner.scan_token().unwrap().t_type, TokenType::Eof);

    // stuct def
    let src = "struct Foo {\n
            x = 0;\n
            y = \"\";\n
        }";
    let mut scanner = Scanner::new(src);
    assert_eq!(scanner.scan_token().unwrap().t_type, TokenType::Struct);
    assert_eq!(scanner.scan_token().unwrap().t_type, TokenType::Identifier);
    assert_eq!(scanner.scan_token().unwrap().t_type, TokenType::LBrace);
    assert_eq!(scanner.scan_token().unwrap().t_type, TokenType::Identifier);
    assert_eq!(scanner.scan_token().unwrap().t_type, TokenType::Equal);
    assert_eq!(scanner.scan_token().unwrap().t_type, TokenType::Number);
    assert_eq!(scanner.scan_token().unwrap().t_type, TokenType::Semicolon);
    assert_eq!(scanner.scan_token().unwrap().t_type, TokenType::Identifier);
    assert_eq!(scanner.scan_token().unwrap().t_type, TokenType::Equal);
    assert_eq!(scanner.scan_token().unwrap().t_type, TokenType::Str);
    assert_eq!(scanner.scan_token().unwrap().t_type, TokenType::Semicolon);
    assert_eq!(scanner.scan_token().unwrap().t_type, TokenType::RBrace);
    assert_eq!(scanner.scan_token().unwrap().t_type, TokenType::Eof);
    // The source holds six newlines (each line break is an escaped newline
    // followed by a literal one), and the line counter is one-based.
    assert_eq!(scanner.line, 7);
}

#[test]
fn compiler() {
    // Test math expression
    let src = "-(5 + 4) * 2 / 2;";
    let chunk = compile_src(src).unwrap();

    let expected = [
        Op::LoadConst(0),
        Op::LoadConst(1),
        Op::Add,
        Op::Negate,
        Op::LoadConst(2),
        Op::Mul,
        Op::LoadConst(3),
        Op::Div,
        Op::Pop,
    ];

    assert_eq!(chunk.code.len(), expected.len() + 1);
    assert_eq!(chunk.code.last().unwrap().0, Op::Return);
    for (i, (op, _)) in chunk.code.iter().enumerate().take(expected.len()) {
        assert_eq!(*op, expected[i]);
    }

    // Test boolean expressions
    let src = "true and false or false and false;";
    let chunk = compile_src(src).unwrap();

    let expected = [
        Op::True,
        Op::False,
        Op::And,
        Op::False,
        Op::False,
        Op::And,
        Op::Or,
        Op::Pop,
    ];

    assert_eq!(chunk.code.len(), expected.len() + 1);
    assert_eq!(chunk.code.last().unwrap().0, Op::Return);
    for (i, (op, _)) in chunk.code.iter().enumerate().take(expected.len()) {
        assert_eq!(*op, expected[i]);
    }

    // Test strings
    let src = "\"Hello, \" + \"World\";";
    let chunk = compile_src(src).unwrap();

    let expected = [Op::LoadConst(0), Op::LoadConst(1), Op::Add, Op::Pop];

    assert_eq!(chunk.code.len(), expected.len() + 1);
    assert_eq!(chunk.code.last().unwrap().0, Op::Return);
    for (i, (op, _)) in chunk.code.iter().enumerate().take(expected.len()) {
        assert_eq!(*op, expected[i]);
    }

    // Test comparison
    let src = "5 == 5 and 5 != 4 and 5 > 4 and 4 < 5 and 5 >= 4 and 4 <= 5;";
    let chunk = compile_src(src).unwrap();

    let expected = [
        Op::LoadConst(0),
        Op::LoadConst(1),
        Op::Equal,
        Op::LoadConst(2),
        Op::LoadConst(3),
        Op::NotEqual,
        Op::And,
        Op::LoadConst(4),
        Op::LoadConst(5),
        Op::GreaterThan,
        Op::And,
        Op::LoadConst(6),
        Op::LoadConst(7),
        Op::LessThan,
        Op::And,
        Op::LoadConst(8),
        Op::LoadConst(9),
        Op::GreaterEq,
        Op::And,
        Op::LoadConst(10),
        Op::LoadConst(11),
        Op::LessEq,
        Op::And,
        Op::Pop,
    ];

    assert_eq!(chunk.code.len(), expected.len() + 1);
    assert_eq!(chunk.code.last().unwrap().0, Op::Return);
    for (i, (op, _)) in chunk.code.iter().enumerate().take(expected.len()) {
        assert_eq!(*op, expected[i]);
    }
}

#[test]
fn compiled_program_ends_in_return() {
    for src in ["5;", "let x = 1; print x;", "\"a\" + \"b\";", "true;"] {
        let chunk = compile_src(src).unwrap();
        assert_eq!(chunk.code.last().unwrap().0, Op::Return);
        let returns = chunk
            .code
            .iter()
            .filter(|(op, _)| *op == Op::Return)
            .count();
        assert_eq!(returns, 1);
    }
}

#[test]
fn statement_programs_return_nil() {
    for src in [
        "-(5 + 4) * 2 / 2;",
        "true and false or false and false;",
        "\"Hello, \" + \"World\";",
    ] {
        let chunk = compile_src(src).unwrap();
        let mut vm = VM::new();
        vm.load_chunk(chunk);
        assert_eq!(run_vm(&mut vm), Ok(Value::Nil));
    }
}

#[test]
fn bare_string_concat_returns_value() {
    // The expression chunk of `"Hello, " + "World"` with the closing `Pop`
    // replaced by a bare `Return` hands the concatenation back.
    let mut chunk = Chunk::new();
    chunk.push_constant(Value::from_str("Hello, "), 0);
    chunk.push_constant(Value::from_str("World"), 0);
    chunk.push_operation(Op::Add, 0);
    chunk.push_operation(Op::Return, 0);
    let mut vm = VM::new();
    vm.load_chunk(chunk);
    assert_eq!(run_vm(&mut vm), Ok(Value::Str("Hello, World".to_string())));
}

#[test]
fn comparison_chain_is_true() {
    let src = "print 5 == 5 and 5 != 4 and 5 > 4 and 4 < 5 and 5 >= 4 and 4 <= 5;";
    let chunk = compile_src(src).unwrap();
    let mut vm = VM::new();
    vm.load_chunk(chunk);
    assert_eq!(run_vm(&mut vm), Ok(Value::Nil));
    assert_eq!(vm.printed, vec![Value::Bool(true)]);
}

#[test]
fn assignment_and_print() {
    let src = "let x = 5; x = x + 1; print x;";
    let chunk = compile_src(src).unwrap();
    let mut vm = VM::new();
    vm.load_chunk(chunk);
    assert_eq!(run_vm(&mut vm), Ok(Value::Nil));
    assert_eq!(vm.printed, vec![Value::Number(6.0f64.to_bits())]);
    assert_eq!(format!("{}", f64::from_bits(6.0f64.to_bits())), "6");
    let x = vm
        .globals
        .iter()
        .find(|(name, _)| name == "x")
        .map(|(_, v)| v.clone());
    assert_eq!(x, Some(Value::Number(6.0f64.to_bits())));
}

#[test]
fn define_then_read_back() {
    // `let I = E; I;` hands the value of E back: a chunk that defines a
    // global and immediately reads it returns the defined value.
    let mut chunk = Chunk::new();
    let idx = chunk.add_constant(Value::Number(7.0f64.to_bits()));
    let name = chunk.add_constant(Value::from_str("q"));
    chunk.push_operation(Op::LoadConst(idx), 0);
    chunk.push_operation(Op::DefineGlobal(name), 0);
    chunk.push_operation(Op::GetGlobal(name), 0);
    chunk.push_operation(Op::Return, 0);
    let mut vm = VM::new();
    vm.load_chunk(chunk);
    assert_eq!(run_vm(&mut vm), Ok(Value::Number(7.0f64.to_bits())));
}

#[test]
fn globals_persist_across_chunks() {
    let mut vm = VM::new();
    let chunk = compile_src("let a = 2;").unwrap();
    vm.load_chunk(chunk);
    assert_eq!(run_vm(&mut vm), Ok(Value::Nil));
    let chunk = compile_src("print a + 1;").unwrap();
    vm.load_chunk(chunk);
    assert_eq!(run_vm(&mut vm), Ok(Value::Nil));
    assert_eq!(vm.printed, vec![Value::Number(3.0f64.to_bits())]);
}
