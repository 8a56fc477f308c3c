//! Every error kind with an input that produces it: lexical, compile and
//! runtime failures, each surfaced with its line number.

use rlox::compiler::compile;
use rlox::scanner::Scanner;
use rlox::scanner::TokenType;
use rlox::value::Value;
use rlox::vm::Chunk;
use rlox::vm::Op;
use rlox::vm::Step;
use rlox::vm::VM;

fn parse_literal(s: &str) -> u64 {
    let cleaned: String = s.chars().filter(|c| *c != '_').collect();
    cleaned.parse::<f64>().unwrap().to_bits()
}

fn collect_nums(src: &str) -> Vec<u64> {
    let mut sc = Scanner::new(src);
    let mut out = Vec::new();
    loop {
        match sc.scan_token() {
            Some(t) => {
                if t.t_type == TokenType::Eof {
                    break;
                }
                if t.t_type == TokenType::Number {
                    out.push(parse_literal(t.slice));
                }
            }
            None => break,
        }
    }
    out
}

fn compile_src(src: &str) -> Result<Chunk, String> {
    compile(src, collect_nums(src))
}

fn run_vm(vm: &mut VM) -> Result<Value, String> {
    let mut step = vm.execute_loaded_chunk()?;
    loop {
        match step {
            Step::Done(v) => return Ok(v),
            Step::Arith(op, a, b) => {
                let x = f64::from_bits(a);
                let y = f64::from_bits(b);
                let r = match op {
                    Op::Add => x + y,
                    Op::Sub => x - y,
                    Op::Mul => x * y,
                    Op::Div => x / y,
                    _ => panic!("unexpected arithmetic request"),
                };
                step = vm.resume_arith(r.to_bits())?;
            }
        }
    }
}

fn interpret(vm: &mut VM, src: &str) -> Result<Value, String> {
    let chunk = compile_src(src)?;
    vm.load_chunk(chunk);
    match run_vm(vm) {
        Ok(v) => Ok(v),
        Err(e) => Err(rlox::vm::runtime_error_message(vm.line, e.as_str())),
    }
}

#[test]
fn unterminated_string_is_lexical_error() {
    let r = compile_src("\"abc");
    assert_eq!(r, Err("Error at line 1: unterminated string".to_string()));
}

#[test]
fn unknown_character_is_lexical_error() {
    let r = compile_src("@;");
    assert_eq!(r, Err("Error at line 1: unknown character".to_string()));
}

#[test]
fn missing_expression() {
    let r = compile_src("+;");
    assert_eq!(r, Err("Error at line 1: expected expression.".to_string()));
}

#[test]
fn missing_closing_paren() {
    let r = compile_src("(5;");
    assert_eq!(
        r,
        Err("Error at line 1: expected ')' after expression.".to_string())
    );
}

#[test]
fn missing_semicolon() {
    let r = compile_src("5");
    assert_eq!(
        r,
        Err("Error at line 1: expected ';' after statement.".to_string())
    );
}

#[test]
fn missing_identifier_after_let() {
    let r = compile_src("let 5;");
    assert_eq!(r, Err("Error at line 1: expected identifier.".to_string()));
}

#[test]
fn reserved_keyword_is_compile_error() {
    let r = compile_src("if;");
    assert_eq!(r, Err("Error at line 1: expected expression.".to_string()));
}

#[test]
fn error_line_numbers_count_newlines() {
    let r = compile_src("let a = 1;\nlet b = ;");
    assert_eq!(r, Err("Error at line 2: expected expression.".to_string()));
}

#[test]
fn undefined_variable_is_runtime_error() {
    let mut vm = VM::new();
    let r = interpret(&mut vm, "let x = 1; y = 2;");
    assert_eq!(
        r,
        Err("Runtime error, at line 1: undefined variable.".to_string())
    );
    // The definition before the failure persists.
    assert!(vm.globals.iter().any(|(n, _)| n == "x"));
}

#[test]
fn add_type_mismatch_is_runtime_error() {
    let mut vm = VM::new();
    let r = interpret(&mut vm, "1 + \"a\";");
    assert_eq!(
        r,
        Err(
            "Runtime error, at line 1: type mismatch or invalid '+' operation."
                .to_string()
        )
    );
}

#[test]
fn unary_type_mismatch_is_runtime_error() {
    let mut vm = VM::new();
    let r = interpret(&mut vm, "-true;");
    assert_eq!(
        r,
        Err("Runtime error, at line 1: type mismatch on unary operation.".to_string())
    );
}

#[test]
fn comparison_of_strings_is_runtime_error() {
    let mut vm = VM::new();
    let r = interpret(&mut vm, "1 < \"a\";");
    assert_eq!(
        r,
        Err(
            "Runtime error, at line 1: only numerical types are comparable, near <"
                .to_string()
        )
    );
}

#[test]
fn logic_on_numbers_is_runtime_error() {
    let mut vm = VM::new();
    let r = interpret(&mut vm, "1 and 2;");
    assert_eq!(
        r,
        Err(
            "Runtime error, at line 1: only boolean values can be used for 'and' operation."
                .to_string()
        )
    );
}

#[test]
fn execute_without_chunk_fails() {
    let mut vm = VM::new();
    assert_eq!(
        vm.execute_loaded_chunk(),
        Err("no chunk has been loaded.".to_string())
    );
}
