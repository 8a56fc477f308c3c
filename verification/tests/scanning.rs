//! Scanner laws on concrete inputs: token slices reconstruct the source,
//! the line counter tracks newlines, comments and whitespace are skipped,
//! and literal round trips hold for the numbers the scanner accepts.

use rlox::compiler::compile;
use rlox::scanner::Scanner;
use rlox::scanner::TokenType;
use rlox::value::Value;
use rlox::vm::Chunk;

fn parse_literal(s: &str) -> u64 {
    let cleaned: String = s.chars().filter(|c| *c != '_').collect();
    cleaned.parse::<f64>().unwrap().to_bits()
}

fn collect_nums(src: &str) -> Vec<u64> {
    let mut sc = Scanner::new(src);
    let mut out = Vec::new();
    loop {
        match sc.scan_token() {
            Some(t) => {
                if t.t_type == TokenType::Eof {
                    break;
                }
                if t.t_type == TokenType::Number {
                    out.push(parse_literal(t.slice));
                }
            }
            None => break,
        }
    }
    out
}

fn compile_src(src: &str) -> Result<Chunk, String> {
    compile(src, collect_nums(src))
}

#[test]
fn slices_reconstruct_source_without_gaps() {
    // With nothing to skip, the token slices concatenate to the source.
    let src = "1+2*(3-4)<=5;";
    let mut sc = Scanner::new(src);
    let mut rebuilt = String::new();
    loop {
        let t = sc.scan_token().unwrap();
        if t.t_type == TokenType::Eof {
            break;
        }
        rebuilt.push_str(t.slice);
    }
    assert_eq!(rebuilt, src);
}

#[test]
fn slices_and_skipped_text_partition_source() {
    // With whitespace and comments, each token's slice sits at the scanner's
    // cursor, and the characters in between are only spaces, newlines and
    // comment text.
    let src = "let x = 5; # set x\nprint x;";
    let mut sc = Scanner::new(src);
    let chars: Vec<char> = src.chars().collect();
    let mut pos = 0usize;
    loop {
        let t = sc.scan_token().unwrap();
        if t.t_type == TokenType::Eof {
            break;
        }
        let end = sc.start;
        let slice_chars: Vec<char> = t.slice.chars().collect();
        let start = end - slice_chars.len();
        assert_eq!(&chars[start..end], &slice_chars[..]);
        // The skipped stretch is whitespace, possibly followed by a comment.
        let skipped: String = chars[pos..start].iter().collect();
        assert!(
            skipped
                .trim_start()
                .is_empty()
                || skipped.trim_start().starts_with('#')
        );
        pos = end;
    }
}

#[test]
fn line_counts_every_newline() {
    let src = "a\nb\n\nc";
    let mut sc = Scanner::new(src);
    while let Some(t) = sc.scan_token() {
        if t.t_type == TokenType::Eof {
            break;
        }
    }
    assert_eq!(sc.line, 4);

    // Newlines inside strings and after comments count too.
    let src = "\"a\nb\" # c\nx";
    let mut sc = Scanner::new(src);
    assert_eq!(sc.scan_token().unwrap().t_type, TokenType::Str);
    assert_eq!(sc.scan_token().unwrap().t_type, TokenType::Identifier);
    assert_eq!(sc.line, 3);
}

#[test]
fn comments_are_skipped() {
    let src = "# only a comment";
    let mut sc = Scanner::new(src);
    assert_eq!(sc.scan_token().unwrap().t_type, TokenType::Eof);

    let src = "1 # comment\n+ 2;";
    let mut sc = Scanner::new(src);
    assert_eq!(sc.scan_token().unwrap().t_type, TokenType::Number);
    assert_eq!(sc.scan_token().unwrap().t_type, TokenType::Plus);
    assert_eq!(sc.scan_token().unwrap().t_type, TokenType::Number);
    assert_eq!(sc.scan_token().unwrap().t_type, TokenType::Semicolon);
    assert_eq!(sc.scan_token().unwrap().t_type, TokenType::Eof);
}

#[test]
fn eof_repeats() {
    let mut sc = Scanner::new("x");
    assert_eq!(sc.scan_token().unwrap().t_type, TokenType::Identifier);
    assert_eq!(sc.scan_token().unwrap().t_type, TokenType::Eof);
    assert_eq!(sc.scan_token().unwrap().t_type, TokenType::Eof);
    assert_eq!(sc.scan_token().unwrap().t_type, TokenType::Eof);
}

#[test]
fn get_slice_shows_the_pending_window() {
    let sc = Scanner::new("abc");
    assert_eq!(sc.get_slice(), Some("a"));
    let sc = Scanner::new("");
    assert_eq!(sc.get_slice(), None);
}

#[test]
fn underscored_literal_round_trip() {
    // The scanner keeps underscores in the slice; the embedder strips them
    // before reading the number. The loaded constant renders back to the
    // cleaned literal.
    for (lit, rendered) in [
        ("5", "5"),
        ("5.0", "5"),
        ("5.", "5"),
        (".5", "0.5"),
        ("1_000", "1000"),
        ("2.5", "2.5"),
        ("1_0.2_5", "10.25"),
    ] {
        let src = format!("{lit};");
        let chunk = compile_src(&src).unwrap();
        match chunk.constants.array[0].clone() {
            Some(Value::Number(bits)) => {
                let cleaned: String = lit.chars().filter(|c| *c != '_').collect();
                assert_eq!(bits, cleaned.parse::<f64>().unwrap().to_bits());
                assert_eq!(format!("{}", f64::from_bits(bits)), rendered);
            }
            other => panic!("expected a number constant, got {other:?}"),
        }
    }
}
