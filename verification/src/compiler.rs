//! The compiler: a Pratt parser with one-token lookahead that pulls tokens
//! from the scanner and emits opcodes and constants straight into a chunk.
//! No syntax tree is built.
//!
//! The contracts are structural: every expression compiles to a balanced
//! opcode sequence (net stack effect plus one, never popping below its
//! start), an expression statement ends in exactly one `Pop`, a declaration
//! in exactly one `DefineGlobal`, a print statement in exactly one `Print`,
//! and a successfully compiled program is a runnable chunk whose last opcode
//! is its only `Return`, reached with an empty stack.

use vstd::prelude::*;

use crate::scanner::Scanner;
use crate::scanner::Token;
use crate::scanner::TokenType;
use crate::scanner::nl_count;
use crate::scanner::scan_err_at;
use crate::scanner::spec_skip;
use crate::scanner::token_end_at;
use crate::scanner::token_type_at;
use crate::text::dec_rep;
use crate::text::dec_string;
use crate::text::lit_string;
use crate::value::GValue;
use crate::value::Value;
use crate::vm::Chunk;
use crate::vm::Op;
use crate::vm::chunk_ops;
use crate::vm::code_ops;
use crate::vm::const_is_str;
use crate::vm::depth_at;
use crate::vm::n_consts;
use crate::vm::op_delta;
use crate::vm::op_pops;
use crate::vm::runnable;
use crate::vm::stack_safe;

verus! {

broadcast use vstd::string::group_string_axioms;

#[derive(Clone, Copy, Debug, PartialEq, Eq, Structural)]
pub enum Precedence {
    Lowest,
    Assignment,
    Or,
    And,
    Equality,
    Comparison,
    Term,
    Factor,
    Unary,
    Call,
    Primary,
}

/// The height of a precedence level in the lattice.
pub open spec fn prec_rank(p: Precedence) -> int {
    match p {
        Precedence::Lowest => 0,
        Precedence::Assignment => 1,
        Precedence::Or => 2,
        Precedence::And => 3,
        Precedence::Equality => 4,
        Precedence::Comparison => 5,
        Precedence::Term => 6,
        Precedence::Factor => 7,
        Precedence::Unary => 8,
        Precedence::Call => 9,
        Precedence::Primary => 10,
    }
}

fn rank(p: Precedence) -> (r: u8)
    ensures
        r as int == prec_rank(p),
{
    match p {
        Precedence::Lowest => 0,
        Precedence::Assignment => 1,
        Precedence::Or => 2,
        Precedence::And => 3,
        Precedence::Equality => 4,
        Precedence::Comparison => 5,
        Precedence::Term => 6,
        Precedence::Factor => 7,
        Precedence::Unary => 8,
        Precedence::Call => 9,
        Precedence::Primary => 10,
    }
}

/// The precedence level immediately above `p`, if there is one.
pub fn next_precedence(p: Precedence) -> (r: Option<Precedence>)
    ensures
        match r {
            Some(q) => prec_rank(q) == prec_rank(p) + 1 && q == spec_next_prec(p),
            None => p == Precedence::Primary,
        },
{
    match p {
        Precedence::Lowest => Some(Precedence::Assignment),
        Precedence::Assignment => Some(Precedence::Or),
        Precedence::Or => Some(Precedence::And),
        Precedence::And => Some(Precedence::Equality),
        Precedence::Equality => Some(Precedence::Comparison),
        Precedence::Comparison => Some(Precedence::Term),
        Precedence::Term => Some(Precedence::Factor),
        Precedence::Factor => Some(Precedence::Unary),
        Precedence::Unary => Some(Precedence::Call),
        Precedence::Call => Some(Precedence::Primary),
        Precedence::Primary => None,
    }
}

/// The prefix parselets.
#[derive(Clone, Copy, Debug, PartialEq, Eq, Structural)]
pub enum PrefixFn {
    Grouping,
    Unary,
    Number,
    Str,
    Variable,
    True,
    False,
    Nil,
}

/// One row of the parse-rule table: a token kind's prefix parselet, whether
/// it acts as a (left-associative binary) infix operator, and its infix
/// precedence.
pub struct ParseRule {
    pub prefix: Option<PrefixFn>,
    pub infix: bool,
    pub precedence: Precedence,
}

impl ParseRule {
    fn new(prefix: Option<PrefixFn>, infix: bool, precedence: Precedence) -> (r: ParseRule)
        ensures
            r.prefix == prefix,
            r.infix == infix,
            r.precedence == precedence,
    {
        ParseRule { prefix, infix, precedence }
    }

    fn empty() -> (r: ParseRule)
        ensures
            r.prefix is None,
            !r.infix,
            r.precedence == Precedence::Lowest,
    {
        ParseRule { prefix: None, infix: false, precedence: Precedence::Lowest }
    }

    /// The parse rule of a token kind, exactly the table `spec_rule` gives.
    /// The end-of-input sentinel has none, so a rule with a parselet or a
    /// precedence always came from a real token.
    fn get(t: TokenType) -> (r: ParseRule)
        ensures
            r == spec_rule(t),
            r.prefix is Some ==> t != TokenType::Eof,
            prec_rank(r.precedence) > 0 ==> t != TokenType::Eof,
    {
        match t {
            TokenType::LParen => ParseRule::new(Some(PrefixFn::Grouping), false, Precedence::Lowest),
            TokenType::Minus => ParseRule::new(Some(PrefixFn::Unary), true, Precedence::Term),
            TokenType::Plus => ParseRule::new(None, true, Precedence::Term),
            TokenType::Slash => ParseRule::new(None, true, Precedence::Factor),
            TokenType::Star => ParseRule::new(None, true, Precedence::Factor),
            TokenType::Bang => ParseRule::new(Some(PrefixFn::Unary), false, Precedence::Lowest),
            TokenType::Number => ParseRule::new(Some(PrefixFn::Number), false, Precedence::Lowest),
            TokenType::Str => ParseRule::new(Some(PrefixFn::Str), false, Precedence::Lowest),
            TokenType::Identifier => ParseRule::new(
                Some(PrefixFn::Variable),
                false,
                Precedence::Lowest,
            ),
            TokenType::True => ParseRule::new(Some(PrefixFn::True), false, Precedence::Lowest),
            TokenType::False => ParseRule::new(Some(PrefixFn::False), false, Precedence::Lowest),
            TokenType::Nil => ParseRule::new(Some(PrefixFn::Nil), false, Precedence::Lowest),
            TokenType::Equate => ParseRule::new(None, true, Precedence::Equality),
            TokenType::BangEqual => ParseRule::new(None, true, Precedence::Equality),
            TokenType::GreaterThan => ParseRule::new(None, true, Precedence::Comparison),
            TokenType::GreaterEq => ParseRule::new(None, true, Precedence::Comparison),
            TokenType::LessThan => ParseRule::new(None, true, Precedence::Comparison),
            TokenType::LessEq => ParseRule::new(None, true, Precedence::Comparison),
            TokenType::And => ParseRule::new(None, true, Precedence::And),
            TokenType::Or => ParseRule::new(None, true, Precedence::Or),
            _ => ParseRule::empty(),
        }
    }
}

/// Whether a run of opcodes never pops more than it has pushed over a stack
/// that starts `d` deep.
pub open spec fn fits(e: Seq<Op>, d: int) -> bool
    decreases e.len(),
{
    if e.len() == 0 {
        true
    } else {
        d >= op_pops(e[0]) && fits(e.drop_first(), d + op_delta(e[0]))
    }
}

/// The net stack effect of a run of opcodes.
pub open spec fn seq_delta(e: Seq<Op>) -> int
    decreases e.len(),
{
    if e.len() == 0 {
        0
    } else {
        op_delta(e[0]) + seq_delta(e.drop_first())
    }
}

/// Opcodes that may appear inside expression code: everything except the
/// statement terminators `Pop`, `DefineGlobal`, `Print` and `Return`.
pub open spec fn expr_only(e: Seq<Op>) -> bool {
    forall|i: int|
        0 <= i < e.len() ==> {
            &&& #[trigger] e[i] != Op::Pop
            &&& e[i] != Op::Return
            &&& e[i] != Op::Print
            &&& !(e[i] is DefineGlobal)
        }
}

/// What a compiled expression looks like: balanced, leaving exactly one
/// value, built from expression opcodes alone.
pub open spec fn balanced_expr(e: Seq<Op>) -> bool {
    &&& fits(e, 0)
    &&& seq_delta(e) == 1
    &&& expr_only(e)
}

/// What a compiled statement looks like: balanced, net stack effect zero,
/// expression code up to a single closing `Pop`, `DefineGlobal` or `Print`.
/// In particular an expression statement ends in exactly one `Pop`, and a
/// declaration emits exactly one `DefineGlobal` and no `Pop`.
pub open spec fn stmt_ops(e: Seq<Op>) -> bool {
    &&& e.len() >= 1
    &&& fits(e, 0)
    &&& seq_delta(e) == 0
    &&& expr_only(e.drop_last())
    &&& (e.last() == Op::Pop || e.last() is DefineGlobal || e.last() == Op::Print)
}

/// No opcode of the run is `Return`.
pub open spec fn no_return(e: Seq<Op>) -> bool {
    forall|i: int| 0 <= i < e.len() ==> #[trigger] e[i] != Op::Return
}

/// `c1` extends `c0`: the old instructions are an unchanged prefix.
pub open spec fn extends(c0: Seq<(Op, usize)>, c1: Seq<(Op, usize)>) -> bool {
    &&& c0.len() <= c1.len()
    &&& c1.take(c0.len() as int) == c0
}

/// The opcodes `c1` added after `c0`.
pub open spec fn added_ops(c0: Seq<(Op, usize)>, c1: Seq<(Op, usize)>) -> Seq<Op> {
    code_ops(c1.skip(c0.len() as int))
}

/// Later pool states keep every constant the earlier state had.
pub open spec fn consts_preserved(c0: Chunk, c1: Chunk) -> bool {
    &&& n_consts(c0) <= n_consts(c1)
    &&& forall|j: int|
        0 <= j < n_consts(c0) ==> c1.constants.slots()[j] == #[trigger] c0.constants.slots()[j]
}

/// Whether one opcode's constant reference is satisfied by the chunk.
pub open spec fn op_ref_ok(ch: Chunk, op: Op) -> bool {
    match op {
        Op::LoadConst(x) => (x as int) < n_consts(ch),
        Op::DefineGlobal(x) => (x as int) < n_consts(ch) && const_is_str(ch, x as int),
        Op::GetGlobal(x) => (x as int) < n_consts(ch) && const_is_str(ch, x as int),
        Op::SetGlobal(x) => (x as int) < n_consts(ch) && const_is_str(ch, x as int),
        _ => true,
    }
}

/// Every constant reference in the chunk's code is satisfied.
pub open spec fn refs_ok(ch: Chunk) -> bool {
    forall|i: int| 0 <= i < ch.code@.len() ==> op_ref_ok(ch, (#[trigger] ch.code@[i]).0)
}

/// The shape of a successfully compiled program: it ends in its only
/// `Return`, no opcode underflows a stack that starts empty, and the stack
/// is empty again when `Return` is reached.
pub open spec fn program_wf(ops: Seq<Op>) -> bool {
    &&& ops.len() >= 1
    &&& ops.last() == Op::Return
    &&& no_return(ops.drop_last())
    &&& stack_safe(ops)
    &&& depth_at(ops, ops.len() - 1) == 0
}


/// A token as the parser's mathematics sees it: its kind and its text.
pub struct GTok {
    pub t: TokenType,
    pub txt: Seq<char>,
}

/// The parser's cursor: the scanner position after the lookahead token,
/// the lookahead token itself, and how many numeric literals were read.
pub struct PState {
    pub pos: int,
    pub cur: GTok,
    pub nnum: int,
}

/// A parse failure: the line it is reported on, and its message.
pub struct PErr {
    pub line: int,
    pub msg: Seq<char>,
}

/// The one-based line of a source position.
pub open spec fn line_at(s: Seq<char>, pos: int) -> int {
    1 + nl_count(s, pos)
}

/// What scanning one token from position `i` yields: the token and the
/// position after it, or a lexical failure. This is the specification that
/// `Scanner::scan_token` meets, restated as a function.
pub open spec fn next_tok(s: Seq<char>, i: int) -> Result<(GTok, int), PErr> {
    let k = spec_skip(s, i);
    if k >= s.len() {
        Ok((GTok { t: TokenType::Eof, txt: "eof"@ }, k))
    } else if scan_err_at(s, k) {
        if s[k] == '"' {
            Err(PErr { line: line_at(s, s.len() as int), msg: "unterminated string"@ })
        } else {
            Err(PErr { line: line_at(s, k), msg: "unknown character"@ })
        }
    } else {
        let e = token_end_at(s, k);
        Ok((GTok { t: token_type_at(s, k), txt: s.subrange(k, e) }, e))
    }
}

/// The mirror of the parse-rule table.
pub open spec fn spec_rule(t: TokenType) -> ParseRule {
    match t {
        TokenType::LParen => ParseRule {
            prefix: Some(PrefixFn::Grouping),
            infix: false,
            precedence: Precedence::Lowest,
        },
        TokenType::Minus => ParseRule {
            prefix: Some(PrefixFn::Unary),
            infix: true,
            precedence: Precedence::Term,
        },
        TokenType::Plus => ParseRule { prefix: None, infix: true, precedence: Precedence::Term },
        TokenType::Slash => ParseRule { prefix: None, infix: true, precedence: Precedence::Factor },
        TokenType::Star => ParseRule { prefix: None, infix: true, precedence: Precedence::Factor },
        TokenType::Bang => ParseRule {
            prefix: Some(PrefixFn::Unary),
            infix: false,
            precedence: Precedence::Lowest,
        },
        TokenType::Number => ParseRule {
            prefix: Some(PrefixFn::Number),
            infix: false,
            precedence: Precedence::Lowest,
        },
        TokenType::Str => ParseRule {
            prefix: Some(PrefixFn::Str),
            infix: false,
            precedence: Precedence::Lowest,
        },
        TokenType::Identifier => ParseRule {
            prefix: Some(PrefixFn::Variable),
            infix: false,
            precedence: Precedence::Lowest,
        },
        TokenType::True => ParseRule {
            prefix: Some(PrefixFn::True),
            infix: false,
            precedence: Precedence::Lowest,
        },
        TokenType::False => ParseRule {
            prefix: Some(PrefixFn::False),
            infix: false,
            precedence: Precedence::Lowest,
        },
        TokenType::Nil => ParseRule {
            prefix: Some(PrefixFn::Nil),
            infix: false,
            precedence: Precedence::Lowest,
        },
        TokenType::Equate => ParseRule {
            prefix: None,
            infix: true,
            precedence: Precedence::Equality,
        },
        TokenType::BangEqual => ParseRule {
            prefix: None,
            infix: true,
            precedence: Precedence::Equality,
        },
        TokenType::GreaterThan => ParseRule {
            prefix: None,
            infix: true,
            precedence: Precedence::Comparison,
        },
        TokenType::GreaterEq => ParseRule {
            prefix: None,
            infix: true,
            precedence: Precedence::Comparison,
        },
        TokenType::LessThan => ParseRule {
            prefix: None,
            infix: true,
            precedence: Precedence::Comparison,
        },
        TokenType::LessEq => ParseRule {
            prefix: None,
            infix: true,
            precedence: Precedence::Comparison,
        },
        TokenType::And => ParseRule { prefix: None, infix: true, precedence: Precedence::And },
        TokenType::Or => ParseRule { prefix: None, infix: true, precedence: Precedence::Or },
        _ => ParseRule { prefix: None, infix: false, precedence: Precedence::Lowest },
    }
}

/// The precedence one level above, `Primary` capping the lattice.
pub open spec fn spec_next_prec(p: Precedence) -> Precedence {
    match p {
        Precedence::Lowest => Precedence::Assignment,
        Precedence::Assignment => Precedence::Or,
        Precedence::Or => Precedence::And,
        Precedence::And => Precedence::Equality,
        Precedence::Equality => Precedence::Comparison,
        Precedence::Comparison => Precedence::Term,
        Precedence::Term => Precedence::Factor,
        Precedence::Factor => Precedence::Unary,
        Precedence::Unary => Precedence::Call,
        Precedence::Call => Precedence::Primary,
        Precedence::Primary => Precedence::Primary,
    }
}

/// The opcode of an infix operator token.
pub open spec fn binop_of(t: TokenType) -> Option<Op> {
    match t {
        TokenType::Plus => Some(Op::Add),
        TokenType::Minus => Some(Op::Sub),
        TokenType::Star => Some(Op::Mul),
        TokenType::Slash => Some(Op::Div),
        TokenType::Equate => Some(Op::Equal),
        TokenType::BangEqual => Some(Op::NotEqual),
        TokenType::GreaterThan => Some(Op::GreaterThan),
        TokenType::GreaterEq => Some(Op::GreaterEq),
        TokenType::LessThan => Some(Op::LessThan),
        TokenType::LessEq => Some(Op::LessEq),
        TokenType::And => Some(Op::And),
        TokenType::Or => Some(Op::Or),
        _ => None,
    }
}

/// How much input the parser has left: twice the unscanned source, plus
/// one while the lookahead is a real token. Consuming a real token makes
/// it smaller; it is the termination measure of the parsing functions
/// below (and of their executable counterparts).
pub open spec fn pmeasure(s: Seq<char>, st: PState) -> int {
    2 * (s.len() - st.pos) + if st.cur.t != TokenType::Eof {
        1int
    } else {
        0int
    }
}

/// The give-up failure of the recursion guards in the parsing functions
/// below. Scanning always moves forward, so the guards always pass and no
/// run of the parser produces it; it only makes the definitions total.
pub open spec fn stuck() -> Result<(Seq<Op>, Seq<GValue>, PState), PErr> {
    Err(PErr { line: 0, msg: Seq::empty() })
}

/// The mathematical parser. Each function takes the source, the attributed
/// numeric literals, the opcodes and constants emitted so far and the
/// cursor, and yields the extended opcodes and constants with the new
/// cursor, or the failure. They mirror, arm for arm, what the executable
/// parser does; `spec_compile` at the bottom is the whole pass.
pub open spec fn spec_parse_precedence(
    s: Seq<char>,
    nums: Seq<u64>,
    ops: Seq<Op>,
    ks: Seq<GValue>,
    st: PState,
    p: Precedence,
) -> Result<(Seq<Op>, Seq<GValue>, PState), PErr>
    decreases pmeasure(s, st), 1int,
{
    match next_tok(s, st.pos) {
        Err(e) => Err(e),
        Ok((cur2, pos2)) => {
            let prev = st.cur;
            let st2 = PState { pos: pos2, cur: cur2, nnum: st.nnum };
            let rule = spec_rule(prev.t);
            match rule.prefix {
                None => Err(PErr { line: line_at(s, pos2), msg: "expected expression."@ }),
                Some(pf) => {
                    if 0 <= pmeasure(s, st2) < pmeasure(s, st) {
                        let can_assign = prec_rank(p) <= 1;
                        let after = match pf {
                            PrefixFn::Grouping => spec_grouping(s, nums, ops, ks, st2),
                            PrefixFn::Unary => spec_unary(s, nums, ops, ks, st2, prev),
                            PrefixFn::Number => spec_number(s, nums, ops, ks, st2),
                            PrefixFn::Str => spec_string(ops, ks, st2, prev),
                            PrefixFn::Variable => spec_variable(
                                s,
                                nums,
                                ops,
                                ks,
                                st2,
                                prev,
                                can_assign,
                            ),
                            PrefixFn::True => Ok((ops.push(Op::True), ks, st2)),
                            PrefixFn::False => Ok((ops.push(Op::False), ks, st2)),
                            PrefixFn::Nil => Ok((ops.push(Op::Nil), ks, st2)),
                        };
                        match after {
                            Err(e) => Err(e),
                            Ok((o2, k2, st3)) => {
                                if 0 <= pmeasure(s, st3) < pmeasure(s, st) {
                                    spec_infix(s, nums, o2, k2, st3, p)
                                } else {
                                    stuck()
                                }
                            },
                        }
                    } else {
                        stuck()
                    }
                },
            }
        },
    }
}

/// One infix step after its operator token was consumed: the right
/// operand one level tighter than the operator binds, then the operator's
/// opcode.
pub open spec fn spec_binary_step(
    s: Seq<char>,
    nums: Seq<u64>,
    ops: Seq<Op>,
    ks: Seq<GValue>,
    st: PState,
    prevt: TokenType,
) -> Result<(Seq<Op>, Seq<GValue>, PState), PErr>
    decreases pmeasure(s, st), 2int,
{
    match spec_parse_precedence(s, nums, ops, ks, st, spec_next_prec(spec_rule(prevt).precedence)) {
        Err(e) => Err(e),
        Ok((o2, k2, st3)) => match binop_of(prevt) {
            None => Err(
                PErr {
                    line: line_at(s, st3.pos),
                    msg: "invalid operand for binary expression."@,
                },
            ),
            Some(op) => Ok((o2.push(op), k2, st3)),
        },
    }
}

/// The infix loop of `spec_parse_precedence`: while the lookahead is an
/// infix operator binding at least as tightly as `p`, consume it and take
/// one infix step.
pub open spec fn spec_infix(
    s: Seq<char>,
    nums: Seq<u64>,
    ops: Seq<Op>,
    ks: Seq<GValue>,
    st: PState,
    p: Precedence,
) -> Result<(Seq<Op>, Seq<GValue>, PState), PErr>
    decreases pmeasure(s, st), 0int,
{
    let crule = spec_rule(st.cur.t);
    if crule.infix && prec_rank(p) <= prec_rank(crule.precedence) {
        match next_tok(s, st.pos) {
            Err(e) => Err(e),
            Ok((cur2, pos2)) => {
                let prev = st.cur;
                let st2 = PState { pos: pos2, cur: cur2, nnum: st.nnum };
                if 0 <= pmeasure(s, st2) < pmeasure(s, st) {
                    match spec_binary_step(s, nums, ops, ks, st2, prev.t) {
                        Err(e) => Err(e),
                        Ok((o2, k2, st3)) => {
                            if 0 <= pmeasure(s, st3) < pmeasure(s, st) {
                                spec_infix(s, nums, o2, k2, st3, p)
                            } else {
                                stuck()
                            }
                        },
                    }
                } else {
                    stuck()
                }
            },
        }
    } else {
        Ok((ops, ks, st))
    }
}

/// A full expression: `spec_parse_precedence` at assignment level.
pub open spec fn spec_expression(
    s: Seq<char>,
    nums: Seq<u64>,
    ops: Seq<Op>,
    ks: Seq<GValue>,
    st: PState,
) -> Result<(Seq<Op>, Seq<GValue>, PState), PErr>
    decreases pmeasure(s, st), 2int,
{
    spec_parse_precedence(s, nums, ops, ks, st, Precedence::Assignment)
}

/// A parenthesised expression, closed by `)`.
pub open spec fn spec_grouping(
    s: Seq<char>,
    nums: Seq<u64>,
    ops: Seq<Op>,
    ks: Seq<GValue>,
    st: PState,
) -> Result<(Seq<Op>, Seq<GValue>, PState), PErr>
    decreases pmeasure(s, st), 3int,
{
    match spec_expression(s, nums, ops, ks, st) {
        Err(e) => Err(e),
        Ok((o2, k2, st2)) => {
            if st2.cur.t == TokenType::RParen {
                match next_tok(s, st2.pos) {
                    Err(e) => Err(e),
                    Ok((cur3, pos3)) => Ok(
                        (o2, k2, PState { pos: pos3, cur: cur3, nnum: st2.nnum }),
                    ),
                }
            } else {
                Err(PErr { line: line_at(s, st2.pos), msg: "expected ')' after expression."@ })
            }
        },
    }
}

/// A prefix operator: its operand at unary level, then `Negate` or `Not`.
pub open spec fn spec_unary(
    s: Seq<char>,
    nums: Seq<u64>,
    ops: Seq<Op>,
    ks: Seq<GValue>,
    st: PState,
    prev: GTok,
) -> Result<(Seq<Op>, Seq<GValue>, PState), PErr>
    decreases pmeasure(s, st), 3int,
{
    match spec_parse_precedence(s, nums, ops, ks, st, Precedence::Unary) {
        Err(e) => Err(e),
        Ok((o2, k2, st2)) => {
            if prev.t == TokenType::Minus {
                Ok((o2.push(Op::Negate), k2, st2))
            } else if prev.t == TokenType::Bang {
                Ok((o2.push(Op::Not), k2, st2))
            } else {
                Err(PErr { line: line_at(s, st2.pos), msg: "invalid unary operation."@ })
            }
        },
    }
}

/// A numeric literal: intern the next attributed bit pattern and load it.
pub open spec fn spec_number(
    s: Seq<char>,
    nums: Seq<u64>,
    ops: Seq<Op>,
    ks: Seq<GValue>,
    st: PState,
) -> Result<(Seq<Op>, Seq<GValue>, PState), PErr> {
    if st.nnum < nums.len() {
        Ok(
            (
                ops.push(Op::LoadConst(ks.len() as usize)),
                ks.push(GValue::Num(nums[st.nnum])),
                PState { pos: st.pos, cur: st.cur, nnum: st.nnum + 1 },
            ),
        )
    } else {
        Err(PErr { line: line_at(s, st.pos), msg: "expected a number literal."@ })
    }
}

/// A string literal: the token's text with the quotes stripped, interned
/// and loaded.
pub open spec fn spec_string(
    ops: Seq<Op>,
    ks: Seq<GValue>,
    st: PState,
    prev: GTok,
) -> Result<(Seq<Op>, Seq<GValue>, PState), PErr> {
    let inner = if prev.txt.len() >= 2 {
        prev.txt.subrange(1, prev.txt.len() - 1)
    } else {
        Seq::empty()
    };
    Ok((ops.push(Op::LoadConst(ks.len() as usize)), ks.push(GValue::Str(inner)), st))
}

/// An identifier: intern its name; with `=` following in assignment
/// position, compile the right-hand side and store, otherwise read.
pub open spec fn spec_variable(
    s: Seq<char>,
    nums: Seq<u64>,
    ops: Seq<Op>,
    ks: Seq<GValue>,
    st: PState,
    prev: GTok,
    can_assign: bool,
) -> Result<(Seq<Op>, Seq<GValue>, PState), PErr>
    decreases pmeasure(s, st), 3int,
{
    let idx = ks.len() as usize;
    let ks2 = ks.push(GValue::Str(prev.txt));
    if can_assign && st.cur.t == TokenType::Equal {
        match next_tok(s, st.pos) {
            Err(e) => Err(e),
            Ok((cur2, pos2)) => {
                let st2 = PState { pos: pos2, cur: cur2, nnum: st.nnum };
                if 0 <= pmeasure(s, st2) < pmeasure(s, st) {
                    match spec_expression(s, nums, ops, ks2, st2) {
                        Err(e) => Err(e),
                        Ok((o2, k2, st3)) => Ok((o2.push(Op::SetGlobal(idx)), k2, st3)),
                    }
                } else {
                    stuck()
                }
            },
        }
    } else {
        Ok((ops.push(Op::GetGlobal(idx)), ks2, st))
    }
}

/// A declaration after its `let`: the name, the initialiser (or nil), the
/// semicolon, and one `DefineGlobal` of the interned name.
pub open spec fn spec_declaration(
    s: Seq<char>,
    nums: Seq<u64>,
    ops: Seq<Op>,
    ks: Seq<GValue>,
    st: PState,
) -> Result<(Seq<Op>, Seq<GValue>, PState), PErr>
    decreases pmeasure(s, st), 4int,
{
    if st.cur.t == TokenType::Identifier {
        match next_tok(s, st.pos) {
            Err(e) => Err(e),
            Ok((cur2, pos2)) => {
                let prev = st.cur;
                let st2 = PState { pos: pos2, cur: cur2, nnum: st.nnum };
                let idx = ks.len() as usize;
                let ks2 = ks.push(GValue::Str(prev.txt));
                let initialised = if st2.cur.t == TokenType::Equal {
                    match next_tok(s, st2.pos) {
                        Err(e) => Err(e),
                        Ok((cur3, pos3)) => {
                            let st3 = PState { pos: pos3, cur: cur3, nnum: st2.nnum };
                            if 0 <= pmeasure(s, st3) < pmeasure(s, st) {
                                spec_expression(s, nums, ops, ks2, st3)
                            } else {
                                stuck()
                            }
                        },
                    }
                } else {
                    Ok((ops.push(Op::Nil), ks2, st2))
                };
                match initialised {
                    Err(e) => Err(e),
                    Ok((o2, k2, st4)) => {
                        if st4.cur.t == TokenType::Semicolon {
                            match next_tok(s, st4.pos) {
                                Err(e) => Err(e),
                                Ok((cur5, pos5)) => Ok(
                                    (
                                        o2.push(Op::DefineGlobal(idx)),
                                        k2,
                                        PState { pos: pos5, cur: cur5, nnum: st4.nnum },
                                    ),
                                ),
                            }
                        } else {
                            Err(
                                PErr {
                                    line: line_at(s, st4.pos),
                                    msg: "expected ';' after statement."@,
                                },
                            )
                        }
                    },
                }
            },
        }
    } else {
        Err(PErr { line: line_at(s, st.pos), msg: "expected identifier."@ })
    }
}

/// A print statement after its `print`: the expression, the semicolon, and
/// one `Print`.
pub open spec fn spec_print_statement(
    s: Seq<char>,
    nums: Seq<u64>,
    ops: Seq<Op>,
    ks: Seq<GValue>,
    st: PState,
) -> Result<(Seq<Op>, Seq<GValue>, PState), PErr>
    decreases pmeasure(s, st), 4int,
{
    match spec_expression(s, nums, ops, ks, st) {
        Err(e) => Err(e),
        Ok((o2, k2, st2)) => {
            if st2.cur.t == TokenType::Semicolon {
                match next_tok(s, st2.pos) {
                    Err(e) => Err(e),
                    Ok((cur3, pos3)) => Ok(
                        (
                            o2.push(Op::Print),
                            k2,
                            PState { pos: pos3, cur: cur3, nnum: st2.nnum },
                        ),
                    ),
                }
            } else {
                Err(PErr { line: line_at(s, st2.pos), msg: "expected ';' after statement."@ })
            }
        },
    }
}

/// An expression statement: the expression, the semicolon, and one `Pop`.
pub open spec fn spec_expression_statement(
    s: Seq<char>,
    nums: Seq<u64>,
    ops: Seq<Op>,
    ks: Seq<GValue>,
    st: PState,
) -> Result<(Seq<Op>, Seq<GValue>, PState), PErr>
    decreases pmeasure(s, st), 4int,
{
    match spec_expression(s, nums, ops, ks, st) {
        Err(e) => Err(e),
        Ok((o2, k2, st2)) => {
            if st2.cur.t == TokenType::Semicolon {
                match next_tok(s, st2.pos) {
                    Err(e) => Err(e),
                    Ok((cur3, pos3)) => Ok(
                        (
                            o2.push(Op::Pop),
                            k2,
                            PState { pos: pos3, cur: cur3, nnum: st2.nnum },
                        ),
                    ),
                }
            } else {
                Err(PErr { line: line_at(s, st2.pos), msg: "expected ';' after statement."@ })
            }
        },
    }
}

/// One top-level statement.
pub open spec fn spec_statement(
    s: Seq<char>,
    nums: Seq<u64>,
    ops: Seq<Op>,
    ks: Seq<GValue>,
    st: PState,
) -> Result<(Seq<Op>, Seq<GValue>, PState), PErr>
    decreases pmeasure(s, st), 5int,
{
    if st.cur.t == TokenType::Let {
        match next_tok(s, st.pos) {
            Err(e) => Err(e),
            Ok((cur2, pos2)) => {
                let st2 = PState { pos: pos2, cur: cur2, nnum: st.nnum };
                if 0 <= pmeasure(s, st2) < pmeasure(s, st) {
                    spec_declaration(s, nums, ops, ks, st2)
                } else {
                    stuck()
                }
            },
        }
    } else if st.cur.t == TokenType::Print {
        match next_tok(s, st.pos) {
            Err(e) => Err(e),
            Ok((cur2, pos2)) => {
                let st2 = PState { pos: pos2, cur: cur2, nnum: st.nnum };
                if 0 <= pmeasure(s, st2) < pmeasure(s, st) {
                    spec_print_statement(s, nums, ops, ks, st2)
                } else {
                    stuck()
                }
            },
        }
    } else {
        spec_expression_statement(s, nums, ops, ks, st)
    }
}

/// The statement sequence up to the end of input, closed by `Return`.
pub open spec fn spec_program(
    s: Seq<char>,
    nums: Seq<u64>,
    ops: Seq<Op>,
    ks: Seq<GValue>,
    st: PState,
) -> Result<(Seq<Op>, Seq<GValue>), PErr>
    decreases pmeasure(s, st), 6int,
{
    if st.cur.t == TokenType::Eof {
        Ok((ops.push(Op::Return), ks))
    } else {
        match spec_statement(s, nums, ops, ks, st) {
            Err(e) => Err(e),
            Ok((o2, k2, st2)) => {
                if 0 <= pmeasure(s, st2) < pmeasure(s, st) {
                    spec_program(s, nums, o2, k2, st2)
                } else {
                    Err(PErr { line: 0, msg: Seq::empty() })
                }
            },
        }
    }
}

/// The whole compilation pass over the source: scan the first lookahead,
/// then the statement sequence. On success it gives the chunk's exact
/// opcodes and constants; on failure, the failing line and message.
pub open spec fn spec_compile(s: Seq<char>, nums: Seq<u64>) -> Result<
    (Seq<Op>, Seq<GValue>),
    PErr,
> {
    match next_tok(s, 0) {
        Err(e) => Err(e),
        Ok((cur, pos)) => spec_program(
            s,
            nums,
            Seq::empty(),
            Seq::empty(),
            PState { pos, cur, nnum: 0 },
        ),
    }
}

/// The constants a chunk's pool holds, in allocation order.
pub open spec fn consts_of(ch: Chunk) -> Seq<GValue> {
    Seq::new(
        n_consts(ch) as nat,
        |j: int|
            match ch.constants.slots()[j] {
                Some(v) => v@,
                None => GValue::Nil,
            },
    )
}

proof fn lemma_fits_app(a: Seq<Op>, b: Seq<Op>, d: int)
    requires
        fits(a, d),
        fits(b, d + seq_delta(a)),
    ensures
        fits(a + b, d),
        seq_delta(a + b) == seq_delta(a) + seq_delta(b),
    decreases a.len(),
{
    if a.len() == 0 {
        assert(a + b =~= b);
    } else {
        assert((a + b).drop_first() =~= a.drop_first() + b);
        lemma_fits_app(a.drop_first(), b, d + op_delta(a[0]));
    }
}

proof fn lemma_fits_mono(e: Seq<Op>, d1: int, d2: int)
    requires
        fits(e, d1),
        d1 <= d2,
    ensures
        fits(e, d2),
    decreases e.len(),
{
    if e.len() > 0 {
        lemma_fits_mono(e.drop_first(), d1 + op_delta(e[0]), d2 + op_delta(e[0]));
    }
}

proof fn lemma_singleton(op: Op, d: int)
    requires
        d >= op_pops(op),
    ensures
        fits(seq![op], d),
        seq_delta(seq![op]) == op_delta(op),
{
    let s = seq![op];
    assert(s.len() == 1);
    assert(s[0] == op);
    assert(s.drop_first() =~= Seq::<Op>::empty());
    assert(fits(Seq::<Op>::empty(), d + op_delta(op)));
    assert(seq_delta(Seq::<Op>::empty()) == 0);
    assert(fits(s, d));
    assert(seq_delta(s) == op_delta(op));
}

proof fn lemma_fits_push(e: Seq<Op>, op: Op, d: int)
    requires
        fits(e, d),
        d + seq_delta(e) >= op_pops(op),
    ensures
        fits(e.push(op), d),
        seq_delta(e.push(op)) == seq_delta(e) + op_delta(op),
{
    lemma_singleton(op, d + seq_delta(e));
    lemma_fits_app(e, seq![op], d);
    assert(e + seq![op] =~= e.push(op));
}

proof fn lemma_depth_drop_first(e: Seq<Op>, i: int)
    requires
        1 <= i <= e.len(),
    ensures
        depth_at(e, i) == op_delta(e[0]) + depth_at(e.drop_first(), i - 1),
    decreases i,
{
    let df = e.drop_first();
    if i == 1 {
        assert(depth_at(e, 1) == depth_at(e, 0) + op_delta(e[0]));
        assert(depth_at(df, 0) == 0);
    } else {
        lemma_depth_drop_first(e, i - 1);
        assert(df[i - 2] == e[i - 1]);
        assert(depth_at(e, i) == depth_at(e, i - 1) + op_delta(e[i - 1]));
        assert(depth_at(df, i - 1) == depth_at(df, i - 2) + op_delta(df[i - 2]));
    }
}

proof fn lemma_fits_safe(e: Seq<Op>, d: int, i: int)
    requires
        fits(e, d),
        0 <= i < e.len(),
    ensures
        d + depth_at(e, i) >= op_pops(e[i]),
    decreases i,
{
    if i > 0 {
        lemma_fits_safe(e.drop_first(), d + op_delta(e[0]), i - 1);
        lemma_depth_drop_first(e, i);
        assert(e.drop_first()[i - 1] == e[i]);
    }
}

proof fn lemma_depth_prefix(a: Seq<Op>, b: Seq<Op>, i: int)
    requires
        0 <= i <= a.len(),
    ensures
        depth_at(a + b, i) == depth_at(a, i),
    decreases i,
{
    if i > 0 {
        lemma_depth_prefix(a, b, i - 1);
        assert((a + b)[i - 1] == a[i - 1]);
    }
}

proof fn lemma_depth_full(e: Seq<Op>)
    ensures
        depth_at(e, e.len() as int) == seq_delta(e),
    decreases e.len(),
{
    if e.len() > 0 {
        lemma_depth_full(e.drop_first());
        lemma_depth_drop_first(e, e.len() as int);
    }
}

proof fn lemma_expr_only_app(a: Seq<Op>, b: Seq<Op>)
    requires
        expr_only(a),
        expr_only(b),
    ensures
        expr_only(a + b),
{
    assert forall|i: int| 0 <= i < (a + b).len() implies {
        &&& #[trigger] (a + b)[i] != Op::Pop
        &&& (a + b)[i] != Op::Return
        &&& (a + b)[i] != Op::Print
        &&& !((a + b)[i] is DefineGlobal)
    } by {
        if i < a.len() {
            assert((a + b)[i] == a[i]);
        } else {
            assert((a + b)[i] == b[i - a.len()]);
        }
    }
}

/// Composition of two growth steps of the emitted code.
proof fn lemma_added_compose(c0: Seq<(Op, usize)>, c1: Seq<(Op, usize)>, c2: Seq<(Op, usize)>)
    requires
        extends(c0, c1),
        extends(c1, c2),
    ensures
        extends(c0, c2),
        added_ops(c0, c2) =~= added_ops(c0, c1) + added_ops(c1, c2),
{
    assert(c2.take(c0.len() as int) =~= c0);
    assert(c2.skip(c0.len() as int) =~= c1.skip(c0.len() as int) + c2.skip(c1.len() as int));
    assert(added_ops(c0, c2) =~= added_ops(c0, c1) + added_ops(c1, c2));
}

/// Growth of the emitted code by one instruction.
proof fn lemma_added_push(c0: Seq<(Op, usize)>, c1: Seq<(Op, usize)>, p: (Op, usize))
    requires
        extends(c0, c1),
    ensures
        extends(c0, c1.push(p)),
        added_ops(c0, c1.push(p)) =~= added_ops(c0, c1).push(p.0),
{
    assert(c1.push(p).take(c0.len() as int) =~= c0);
    assert(c1.push(p).skip(c0.len() as int) =~= c1.skip(c0.len() as int).push(p));
}

/// Growing the pool (without touching the code) keeps every reference good.
proof fn lemma_refs_ok_grow(c0: Chunk, c1: Chunk)
    requires
        refs_ok(c0),
        c1.code@ == c0.code@,
        consts_preserved(c0, c1),
    ensures
        refs_ok(c1),
{
    assert forall|i: int| 0 <= i < c1.code@.len() implies op_ref_ok(
        c1,
        (#[trigger] c1.code@[i]).0,
    ) by {
        assert(op_ref_ok(c0, c0.code@[i].0));
        lemma_op_ref_ok_grow(c0, c1, c0.code@[i].0);
    }
}

proof fn lemma_op_ref_ok_grow(c0: Chunk, c1: Chunk, op: Op)
    requires
        op_ref_ok(c0, op),
        consts_preserved(c0, c1),
    ensures
        op_ref_ok(c1, op),
{
    match op {
        Op::LoadConst(x) => {},
        Op::DefineGlobal(x) => {
            assert(c1.constants.slots()[x as int] == c0.constants.slots()[x as int]);
        },
        Op::GetGlobal(x) => {
            assert(c1.constants.slots()[x as int] == c0.constants.slots()[x as int]);
        },
        Op::SetGlobal(x) => {
            assert(c1.constants.slots()[x as int] == c0.constants.slots()[x as int]);
        },
        _ => {},
    }
}

/// Appending one checked instruction keeps the chunk's references good and
/// its code free of `Return` (when the new opcode is not one).
proof fn lemma_chunk_push(c0: Chunk, c1: Chunk, op: Op, line: usize)
    requires
        refs_ok(c0),
        no_return(chunk_ops(c0)),
        c1.code@ == c0.code@.push((op, line)),
        c1.constants == c0.constants,
        op_ref_ok(c1, op),
        op != Op::Return,
    ensures
        refs_ok(c1),
        no_return(chunk_ops(c1)),
        extends(c0.code@, c1.code@),
        added_ops(c0.code@, c1.code@) =~= seq![op],
        chunk_ops(c1) =~= chunk_ops(c0).push(op),
{
    assert forall|i: int| 0 <= i < c1.code@.len() implies op_ref_ok(
        c1,
        (#[trigger] c1.code@[i]).0,
    ) by {
        if i < c0.code@.len() {
            assert(c1.code@[i] == c0.code@[i]);
            assert(op_ref_ok(c0, c0.code@[i].0));
        }
    }
    assert(chunk_ops(c1) =~= chunk_ops(c0).push(op));
    assert forall|i: int| 0 <= i < chunk_ops(c1).len() implies #[trigger] chunk_ops(c1)[i]
        != Op::Return by {
        if i < c0.code@.len() {
            assert(chunk_ops(c0)[i] != Op::Return);
        }
    }
    assert(c1.code@.take(c0.code@.len() as int) =~= c0.code@);
    assert(c1.code@.skip(c0.code@.len() as int) =~= seq![(op, line)]);
    assert(added_ops(c0.code@, c1.code@) =~= seq![op]);
}


proof fn lemma_expr_only_push(e: Seq<Op>, op: Op)
    requires
        expr_only(e),
        op != Op::Pop,
        op != Op::Return,
        op != Op::Print,
        !(op is DefineGlobal),
    ensures
        expr_only(e.push(op)),
{
    assert forall|i: int| 0 <= i < e.push(op).len() implies {
        &&& #[trigger] e.push(op)[i] != Op::Pop
        &&& e.push(op)[i] != Op::Return
        &&& e.push(op)[i] != Op::Print
        &&& !(e.push(op)[i] is DefineGlobal)
    } by {
        if i < e.len() {
            assert(e.push(op)[i] == e[i]);
        }
    }
}

/// Adding one constant appends its shadow to the pool's contents.
proof fn lemma_consts_of_push(c0: Chunk, c1: Chunk, v: Value)
    requires
        n_consts(c1) == n_consts(c0) + 1,
        0 <= n_consts(c0),
        c1.constants.slots()[n_consts(c0)] == Some(v),
        forall|j: int| 0 <= j < n_consts(c0) ==> c1.constants.slots()[j] == #[trigger] c0.constants.slots()[j],
    ensures
        consts_of(c1) =~= consts_of(c0).push(v@),
{
}

proof fn lemma_consts_trans(a: Chunk, b: Chunk, c: Chunk)
    requires
        consts_preserved(a, b),
        consts_preserved(b, c),
    ensures
        consts_preserved(a, c),
{
    assert forall|j: int| 0 <= j < n_consts(a) implies c.constants.slots()[j]
        == #[trigger] a.constants.slots()[j] by {
        assert(b.constants.slots()[j] == a.constants.slots()[j]);
        assert(c.constants.slots()[j] == b.constants.slots()[j]);
    }
}

/// The emitted opcodes split at any earlier snapshot of the code.
proof fn lemma_code_split(c0: Seq<(Op, usize)>, c1: Seq<(Op, usize)>)
    requires
        extends(c0, c1),
    ensures
        code_ops(c1) =~= code_ops(c0) + added_ops(c0, c1),
{
    assert forall|i: int| 0 <= i < c1.len() implies #[trigger] code_ops(c1)[i] == (code_ops(c0)
        + added_ops(c0, c1))[i] by {
        if i < c0.len() {
            assert(c1.take(c0.len() as int)[i] == c1[i]);
        } else {
            assert(c1.skip(c0.len() as int)[i - c0.len()] == c1[i]);
        }
    }
}

/// The mathematical shadow of a token.
pub open spec fn gtok_of<'a>(t: Token<'a>) -> GTok {
    GTok { t: t.t_type, txt: t.slice@ }
}

pub struct Compiler<'a> {
    pub chunk: Chunk,
    pub scanner: Scanner<'a>,
    pub previous: Option<Token<'a>>,
    pub current: Option<Token<'a>>,
    pub nums: Vec<u64>,
    pub next_num: usize,
}

impl<'a> Compiler<'a> {
    /// Whether the lookahead token is a real one (not the end sentinel).
    pub open spec fn cur_real(self) -> bool {
        match self.current {
            Some(t) => t.t_type != TokenType::Eof,
            None => false,
        }
    }

    /// How much input is left: unscanned source, plus the buffered token.
    /// Every consumed real token makes it smaller.
    pub open spec fn measure(self) -> int {
        2 * (self.scanner.src().len() - self.scanner.pos()) + if self.cur_real() {
            1int
        } else {
            0int
        }
    }

    pub open spec fn wf(self) -> bool {
        &&& self.scanner.wf()
        &&& self.chunk.wf()
        &&& refs_ok(self.chunk)
        &&& no_return(chunk_ops(self.chunk))
    }

    /// Ready to parse: well-formed, a lookahead token in hand, no pending
    /// scan error; when the lookahead is the end sentinel, the scanner
    /// stands at the end of the source.
    pub open spec fn ready(self) -> bool {
        &&& self.wf()
        &&& self.current is Some
        &&& self.scanner.err@.len() == 0
        &&& (match self.current {
            Some(t) => t.t_type == TokenType::Eof ==> self.scanner.pos()
                == self.scanner.src().len(),
            None => true,
        })
    }

    /// The parser cursor this compiler stands at.
    pub open spec fn st_of(self) -> PState {
        PState {
            pos: self.scanner.pos(),
            cur: match self.current {
                Some(t) => gtok_of(t),
                None => GTok { t: TokenType::Eof, txt: Seq::empty() },
            },
            nnum: self.next_num as int,
        }
    }

    /// The state a failed parse leaves behind: the scanner is intact on the
    /// same source and its line is the failure's line.
    pub open spec fn err_state(c: Compiler<'a>, s: Seq<char>, l: int) -> bool {
        &&& c.scanner.wf()
        &&& c.scanner.src() == s
        &&& line_at(s, c.scanner.pos()) == l
        &&& c.scanner.line as int == l
    }

    /// The common guarantee of every parsing step: the compiler stays
    /// ready, works on the same source and number table, only appends to
    /// the emitted code, keeps every constant, and consumes input.
    pub open spec fn progress(pre: Compiler<'a>, post: Compiler<'a>) -> bool {
        &&& post.ready()
        &&& post.scanner.src() == pre.scanner.src()
        &&& post.nums@ == pre.nums@
        &&& extends(pre.chunk.code@, post.chunk.code@)
        &&& consts_preserved(pre.chunk, post.chunk)
        &&& post.measure() <= pre.measure()
    }

    pub fn new(source: &'a str, nums: Vec<u64>) -> (c: Compiler<'a>)
        requires
            source@.len() < usize::MAX as nat,
        ensures
            c.wf(),
            c.scanner.err@.len() == 0,
            c.current is None,
            c.scanner.src() == source@,
            c.scanner.pos() == 0,
            c.chunk.code@ =~= Seq::<(Op, usize)>::empty(),
            n_consts(c.chunk) == 0,
            c.nums@ == nums@,
            c.next_num == 0,
    {
        Compiler {
            chunk: Chunk::new(),
            scanner: Scanner::new(source),
            previous: None,
            current: None,
            nums,
            next_num: 0,
        }
    }

    /// Pull the next token: the lookahead becomes `previous` and the
    /// scanner's next token becomes the lookahead. A scan error is handed
    /// up.
    pub fn consume(&mut self) -> (r: Result<(), String>)
        requires
            old(self).wf(),
            old(self).scanner.err@.len() == 0,
        ensures
            r is Ok ==> {
                &&& final(self).ready()
                &&& final(self).previous == old(self).current
                &&& final(self).chunk == old(self).chunk
                &&& final(self).nums == old(self).nums
                &&& final(self).next_num == old(self).next_num
                &&& final(self).scanner.src() == old(self).scanner.src()
                &&& final(self).measure() <= old(self).measure()
                &&& (old(self).cur_real() ==> final(self).measure() < old(self).measure())
                &&& next_tok(old(self).scanner.src(), old(self).scanner.pos()) matches Ok(pr)
                    && final(self).st_of() == PState {
                    pos: pr.1,
                    cur: pr.0,
                    nnum: old(self).next_num as int,
                }
            },
            r matches Err(e) ==> {
                &&& next_tok(old(self).scanner.src(), old(self).scanner.pos()) matches Err(pe)
                    && e@ == pe.msg && Self::err_state(
                    *final(self),
                    old(self).scanner.src(),
                    pe.line,
                )
                &&& final(self).chunk == old(self).chunk
                &&& final(self).nums == old(self).nums
            },
    {
        self.previous = self.current;
        let t = self.scanner.scan_token();
        match t {
            Some(tok) => {
                self.current = Some(tok);
                Ok(())
            },
            None => Err(self.scanner.err.clone()),
        }
    }

    /// Consume the lookahead if it has the given kind; say whether it did.
    pub fn match_and_consume(&mut self, t: TokenType) -> (r: Result<bool, String>)
        requires
            old(self).ready(),
        ensures
            r == Ok::<bool, String>(true) ==> {
                &&& final(self).ready()
                &&& final(self).previous == old(self).current
                &&& old(self).current matches Some(tok) && tok.t_type == t
                &&& final(self).chunk == old(self).chunk
                &&& final(self).nums == old(self).nums
                &&& final(self).next_num == old(self).next_num
                &&& final(self).scanner.src() == old(self).scanner.src()
                &&& final(self).measure() <= old(self).measure()
                &&& (t != TokenType::Eof ==> final(self).measure() < old(self).measure())
                &&& next_tok(old(self).scanner.src(), old(self).scanner.pos()) matches Ok(pr)
                    && final(self).st_of() == PState {
                    pos: pr.1,
                    cur: pr.0,
                    nnum: old(self).next_num as int,
                }
            },
            r == Ok::<bool, String>(false) ==> *final(self) == *old(self) && (old(self).current
                matches Some(tok) && tok.t_type != t),
            r matches Err(e) ==> {
                &&& old(self).current matches Some(tok) && tok.t_type == t
                &&& next_tok(old(self).scanner.src(), old(self).scanner.pos()) matches Err(pe)
                    && e@ == pe.msg && Self::err_state(
                    *final(self),
                    old(self).scanner.src(),
                    pe.line,
                )
                &&& final(self).chunk == old(self).chunk
                &&& final(self).nums == old(self).nums
            },
    {
        let c = self.current.unwrap();
        if c.t_type == t {
            match self.consume() {
                Ok(()) => Ok(true),
                Err(e) => Err(e),
            }
        } else {
            Ok(false)
        }
    }

    /// Emit one opcode at the scanner's current line.
    fn emit_op(&mut self, op: Op)
        requires
            old(self).wf(),
            op_ref_ok(old(self).chunk, op),
            op != Op::Return,
        ensures
            final(self).wf(),
            final(self).chunk.code@ == old(self).chunk.code@.push(
                (op, old(self).scanner.line),
            ),
            final(self).chunk.constants == old(self).chunk.constants,
            final(self).scanner == old(self).scanner,
            final(self).previous == old(self).previous,
            final(self).current == old(self).current,
            final(self).nums == old(self).nums,
            final(self).next_num == old(self).next_num,
            extends(old(self).chunk.code@, final(self).chunk.code@),
            added_ops(old(self).chunk.code@, final(self).chunk.code@) =~= seq![op],
            consts_preserved(old(self).chunk, final(self).chunk),
            chunk_ops(final(self).chunk) =~= chunk_ops(old(self).chunk).push(op),
            consts_of(final(self).chunk) == consts_of(old(self).chunk),
    {
        let line = self.scanner.line;
        let ghost c0 = self.chunk;
        self.chunk.push_operation(op, line);
        proof {
            lemma_op_ref_ok_grow(c0, self.chunk, op);
            lemma_chunk_push(c0, self.chunk, op, line);
            assert(consts_of(self.chunk) =~= consts_of(c0));
        }
    }

    /// Intern a value in the pool and emit `LoadConst` of it.
    fn emit_constant(&mut self, value: Value)
        requires
            old(self).wf(),
        ensures
            final(self).wf(),
            final(self).scanner == old(self).scanner,
            final(self).previous == old(self).previous,
            final(self).current == old(self).current,
            final(self).nums == old(self).nums,
            final(self).next_num == old(self).next_num,
            extends(old(self).chunk.code@, final(self).chunk.code@),
            added_ops(old(self).chunk.code@, final(self).chunk.code@) =~= seq![
                Op::LoadConst(n_consts(old(self).chunk) as usize),
            ],
            consts_preserved(old(self).chunk, final(self).chunk),
            final(self).chunk.constants.slots()[n_consts(old(self).chunk)] == Some(value),
            n_consts(final(self).chunk) == n_consts(old(self).chunk) + 1,
            chunk_ops(final(self).chunk) =~= chunk_ops(old(self).chunk).push(
                Op::LoadConst(consts_of(old(self).chunk).len() as usize),
            ),
            consts_of(final(self).chunk) =~= consts_of(old(self).chunk).push(value@),
    {
        let line = self.scanner.line;
        let ghost c0 = self.chunk;
        let idx = self.chunk.add_constant(value);
        let ghost c_mid = self.chunk;
        proof {
            assert(consts_preserved(c0, c_mid));
            lemma_refs_ok_grow(c0, c_mid);
            assert(chunk_ops(c_mid) =~= chunk_ops(c0));
            assert(no_return(chunk_ops(c_mid)));
        }
        self.chunk.push_operation(Op::LoadConst(idx), line);
        proof {
            assert(op_ref_ok(c_mid, Op::LoadConst(idx)));
            lemma_op_ref_ok_grow(c_mid, self.chunk, Op::LoadConst(idx));
            lemma_chunk_push(c_mid, self.chunk, Op::LoadConst(idx), line);
            assert(Op::LoadConst(idx) == Op::LoadConst(n_consts(c0) as usize));
            lemma_consts_of_push(c0, c_mid, value);
            assert(consts_of(self.chunk) =~= consts_of(c_mid));
            assert(consts_of(c0).len() == n_consts(c0));
            assert(Op::LoadConst(idx) == Op::LoadConst(consts_of(c0).len() as usize));
        }
    }

    /// Parse an expression at binding power `p` or tighter: one prefix
    /// parselet, then infix operators while their precedence reaches `p`.
    /// On success the emitted opcodes are a balanced expression, exactly
    /// the ones `spec_parse_precedence` gives.
    #[verifier::rlimit(100)]
    pub fn parse_precedence(&mut self, p: Precedence) -> (r: Result<(), String>)
        requires
            old(self).ready(),
            prec_rank(p) >= 1,
        ensures
            r is Ok ==> {
                &&& Self::progress(*old(self), *final(self))
                &&& balanced_expr(added_ops(old(self).chunk.code@, final(self).chunk.code@))
                &&& final(self).measure() < old(self).measure()
            },
            ({
                let s = old(self).scanner.src();
                let sp = spec_parse_precedence(
                    s,
                    old(self).nums@,
                    chunk_ops(old(self).chunk),
                    consts_of(old(self).chunk),
                    old(self).st_of(),
                    p,
                );
                match r {
                    Ok(()) => sp matches Ok(out) && chunk_ops(final(self).chunk) == out.0
                        && consts_of(final(self).chunk) == out.1 && final(self).st_of() == out.2,
                    Err(e) => sp matches Err(pe) && e@ == pe.msg && Self::err_state(
                        *final(self),
                        s,
                        pe.line,
                    ),
                }
            }),
        decreases old(self).measure(), 0int,
    {
        let ghost pre = *old(self);
        let ghost c0 = self.chunk.code@;
        let ghost s = pre.scanner.src();
        let ghost ops0 = chunk_ops(pre.chunk);
        let ghost ks0 = consts_of(pre.chunk);
        let ghost st0 = pre.st_of();
        let ghost target = spec_parse_precedence(s, pre.nums@, ops0, ks0, st0, p);
        match self.consume() {
            Ok(()) => {},
            Err(e) => {
                return Err(e);
            },
        }
        let ghost post_consume = *self;
        let prev = self.previous.unwrap();
        let rule = ParseRule::get(prev.t_type);
        match rule.prefix {
            None => {
                proof {
                    assert(gtok_of(prev) == st0.cur);
                    assert(self.scanner.line as int == line_at(s, self.st_of().pos));
                    assert(target == Err::<(Seq<Op>, Seq<GValue>, PState), PErr>(
                        PErr { line: line_at(s, self.st_of().pos), msg: "expected expression."@ },
                    ));
                }
                Err(lit_string("expected expression."))
            },
            Some(pf) => {
                proof {
                    assert(pre.cur_real());
                    assert(gtok_of(prev) == st0.cur);
                    assert(pmeasure(s, post_consume.st_of()) == post_consume.measure());
                    assert(pmeasure(s, st0) == pre.measure());
                    assert(post_consume.measure() >= 0);
                }
                let can_assign = rank(p) <= rank(Precedence::Assignment);
                match pf {
                    PrefixFn::Grouping => {
                        match self.grouping() {
                            Ok(()) => {},
                            Err(e) => {
                                return Err(e);
                            },
                        }
                    },
                    PrefixFn::Unary => {
                        match self.unary() {
                            Ok(()) => {},
                            Err(e) => {
                                return Err(e);
                            },
                        }
                    },
                    PrefixFn::Number => {
                        match self.number() {
                            Ok(()) => {},
                            Err(e) => {
                                return Err(e);
                            },
                        }
                    },
                    PrefixFn::Str => {
                        match self.string_lit() {
                            Ok(()) => {},
                            Err(e) => {
                                return Err(e);
                            },
                        }
                    },
                    PrefixFn::Variable => {
                        match self.variable(can_assign) {
                            Ok(()) => {},
                            Err(e) => {
                                return Err(e);
                            },
                        }
                    },
                    PrefixFn::True => {
                        self.emit_op(Op::True);
                        proof {
                            lemma_singleton(Op::True, 0);
                        }
                    },
                    PrefixFn::False => {
                        self.emit_op(Op::False);
                        proof {
                            lemma_singleton(Op::False, 0);
                        }
                    },
                    PrefixFn::Nil => {
                        self.emit_op(Op::Nil);
                        proof {
                            lemma_singleton(Op::Nil, 0);
                        }
                    },
                }
                proof {
                    assert(pmeasure(s, self.st_of()) == self.measure());
                    assert(target == spec_infix(
                        s,
                        pre.nums@,
                        chunk_ops(self.chunk),
                        consts_of(self.chunk),
                        self.st_of(),
                        p,
                    ));
                }
                loop
                    invariant
                        self.ready(),
                        prec_rank(p) >= 1,
                        pre == *old(self),
                        c0 == pre.chunk.code@,
                        s == pre.scanner.src(),
                        ops0 == chunk_ops(pre.chunk),
                        ks0 == consts_of(pre.chunk),
                        st0 == pre.st_of(),
                        target == spec_parse_precedence(s, pre.nums@, ops0, ks0, st0, p),
                        self.scanner.src() == pre.scanner.src(),
                        self.nums@ == pre.nums@,
                        extends(c0, self.chunk.code@),
                        consts_preserved(pre.chunk, self.chunk),
                        balanced_expr(added_ops(c0, self.chunk.code@)),
                        self.measure() < pre.measure(),
                        target == spec_infix(
                            s,
                            pre.nums@,
                            chunk_ops(self.chunk),
                            consts_of(self.chunk),
                            self.st_of(),
                            p,
                        ),
                    ensures
                        self.ready(),
                        self.scanner.src() == pre.scanner.src(),
                        self.nums@ == pre.nums@,
                        extends(c0, self.chunk.code@),
                        consts_preserved(pre.chunk, self.chunk),
                        balanced_expr(added_ops(c0, self.chunk.code@)),
                        self.measure() < pre.measure(),
                        target == Ok::<(Seq<Op>, Seq<GValue>, PState), PErr>(
                            (chunk_ops(self.chunk), consts_of(self.chunk), self.st_of()),
                        ),
                    decreases self.measure(),
                {
                    let cur = self.current.unwrap();
                    let crule = ParseRule::get(cur.t_type);
                    if crule.infix && rank(p) <= rank(crule.precedence) {
                        let ghost acc = *self;
                        match self.consume() {
                            Ok(()) => {},
                            Err(e) => {
                                return Err(e);
                            },
                        }
                        let ghost mid = *self;
                        proof {
                            assert(pmeasure(s, mid.st_of()) == mid.measure());
                            assert(pmeasure(s, acc.st_of()) == acc.measure());
                            assert(mid.measure() >= 0);
                            assert(mid.previous.unwrap().t_type == acc.st_of().cur.t);
                        }
                        match self.binary() {
                            Ok(()) => {},
                            Err(e) => {
                                return Err(e);
                            },
                        }
                        proof {
                            assert(mid.chunk.code@ == acc.chunk.code@);
                            lemma_added_compose(c0, mid.chunk.code@, self.chunk.code@);
                            let ea = added_ops(c0, mid.chunk.code@);
                            let eb = added_ops(mid.chunk.code@, self.chunk.code@);
                            lemma_fits_app(ea, eb, 0);
                            lemma_expr_only_app(ea, eb);
                            lemma_consts_trans(pre.chunk, mid.chunk, self.chunk);
                        }
                    } else {
                        proof {
                            assert(spec_infix(
                                s,
                                pre.nums@,
                                chunk_ops(self.chunk),
                                consts_of(self.chunk),
                                self.st_of(),
                                p,
                            ) == Ok::<(Seq<Op>, Seq<GValue>, PState), PErr>(
                                (chunk_ops(self.chunk), consts_of(self.chunk), self.st_of()),
                            ));
                        }
                        break ;
                    }
                }
                Ok(())
            },
        }
    }

    /// Parse a full expression.
    pub fn expression(&mut self) -> (r: Result<(), String>)
        requires
            old(self).ready(),
        ensures
            r is Ok ==> {
                &&& Self::progress(*old(self), *final(self))
                &&& balanced_expr(added_ops(old(self).chunk.code@, final(self).chunk.code@))
                &&& final(self).measure() < old(self).measure()
            },
            ({
                let s = old(self).scanner.src();
                let sp = spec_expression(
                    s,
                    old(self).nums@,
                    chunk_ops(old(self).chunk),
                    consts_of(old(self).chunk),
                    old(self).st_of(),
                );
                match r {
                    Ok(()) => sp matches Ok(out) && chunk_ops(final(self).chunk) == out.0
                        && consts_of(final(self).chunk) == out.1 && final(self).st_of() == out.2,
                    Err(e) => sp matches Err(pe) && e@ == pe.msg && Self::err_state(
                        *final(self),
                        s,
                        pe.line,
                    ),
                }
            }),
        decreases old(self).measure(), 1int,
    {
        self.parse_precedence(Precedence::Assignment)
    }

    /// The parenthesis parselet: an inner expression closed by `)`.
    pub fn grouping(&mut self) -> (r: Result<(), String>)
        requires
            old(self).ready(),
        ensures
            r is Ok ==> {
                &&& Self::progress(*old(self), *final(self))
                &&& balanced_expr(added_ops(old(self).chunk.code@, final(self).chunk.code@))
                &&& final(self).measure() < old(self).measure()
            },
            ({
                let s = old(self).scanner.src();
                let sp = spec_grouping(
                    s,
                    old(self).nums@,
                    chunk_ops(old(self).chunk),
                    consts_of(old(self).chunk),
                    old(self).st_of(),
                );
                match r {
                    Ok(()) => sp matches Ok(out) && chunk_ops(final(self).chunk) == out.0
                        && consts_of(final(self).chunk) == out.1 && final(self).st_of() == out.2,
                    Err(e) => sp matches Err(pe) && e@ == pe.msg && Self::err_state(
                        *final(self),
                        s,
                        pe.line,
                    ),
                }
            }),
        decreases old(self).measure(), 3int,
    {
        match self.expression() {
            Ok(()) => {},
            Err(e) => {
                return Err(e);
            },
        }
        match self.match_and_consume(TokenType::RParen) {
            Ok(true) => Ok(()),
            Ok(false) => Err(lit_string("expected ')' after expression.")),
            Err(e) => Err(e),
        }
    }

    /// The prefix-operator parselet: `-` negates, `!` complements.
    pub fn unary(&mut self) -> (r: Result<(), String>)
        requires
            old(self).ready(),
            old(self).previous is Some,
        ensures
            r is Ok ==> {
                &&& Self::progress(*old(self), *final(self))
                &&& balanced_expr(added_ops(old(self).chunk.code@, final(self).chunk.code@))
                &&& final(self).measure() < old(self).measure()
            },
            ({
                let s = old(self).scanner.src();
                let sp = spec_unary(
                    s,
                    old(self).nums@,
                    chunk_ops(old(self).chunk),
                    consts_of(old(self).chunk),
                    old(self).st_of(),
                    gtok_of(old(self).previous.unwrap()),
                );
                match r {
                    Ok(()) => sp matches Ok(out) && chunk_ops(final(self).chunk) == out.0
                        && consts_of(final(self).chunk) == out.1 && final(self).st_of() == out.2,
                    Err(e) => sp matches Err(pe) && e@ == pe.msg && Self::err_state(
                        *final(self),
                        s,
                        pe.line,
                    ),
                }
            }),
        decreases old(self).measure(), 2int,
    {
        let ghost c0 = self.chunk.code@;
        let ghost pre = *old(self);
        let op_t = self.previous.unwrap().t_type;
        match self.parse_precedence(Precedence::Unary) {
            Ok(()) => {},
            Err(e) => {
                return Err(e);
            },
        }
        let ghost mid = *self;
        let op = match op_t {
            TokenType::Minus => Op::Negate,
            TokenType::Bang => Op::Not,
            _ => {
                return Err(lit_string("invalid unary operation."));
            },
        };
        self.emit_op(op);
        proof {
            let e1 = added_ops(c0, mid.chunk.code@);
            lemma_added_push(c0, mid.chunk.code@, (op, mid.scanner.line));
            lemma_fits_push(e1, op, 0);
            lemma_expr_only_push(e1, op);
            lemma_consts_trans(pre.chunk, mid.chunk, self.chunk);
        }
        Ok(())
    }

    /// The infix-operator parselet: parse the right operand one level
    /// tighter (left associativity), then emit the operator's opcode. The
    /// emitted run consumes the value already on the stack and leaves one.
    pub fn binary(&mut self) -> (r: Result<(), String>)
        requires
            old(self).ready(),
            old(self).previous is Some,
        ensures
            r is Ok ==> {
                &&& Self::progress(*old(self), *final(self))
                &&& ({
                    let e = added_ops(old(self).chunk.code@, final(self).chunk.code@);
                    fits(e, 1) && seq_delta(e) == 0 && expr_only(e)
                })
                &&& final(self).measure() < old(self).measure()
            },
            ({
                let s = old(self).scanner.src();
                let sp = spec_binary_step(
                    s,
                    old(self).nums@,
                    chunk_ops(old(self).chunk),
                    consts_of(old(self).chunk),
                    old(self).st_of(),
                    old(self).previous.unwrap().t_type,
                );
                match r {
                    Ok(()) => sp matches Ok(out) && chunk_ops(final(self).chunk) == out.0
                        && consts_of(final(self).chunk) == out.1 && final(self).st_of() == out.2,
                    Err(e) => sp matches Err(pe) && e@ == pe.msg && Self::err_state(
                        *final(self),
                        s,
                        pe.line,
                    ),
                }
            }),
        decreases old(self).measure(), 2int,
    {
        let ghost c0 = self.chunk.code@;
        let ghost pre = *old(self);
        let op_t = self.previous.unwrap().t_type;
        let rule = ParseRule::get(op_t);
        let nxt = match next_precedence(rule.precedence) {
            Some(q) => q,
            None => Precedence::Primary,
        };
        proof {
            assert(nxt == spec_next_prec(spec_rule(op_t).precedence));
        }
        match self.parse_precedence(nxt) {
            Ok(()) => {},
            Err(e) => {
                return Err(e);
            },
        }
        let ghost mid = *self;
        let op = match op_t {
            TokenType::Plus => Op::Add,
            TokenType::Minus => Op::Sub,
            TokenType::Star => Op::Mul,
            TokenType::Slash => Op::Div,
            TokenType::Equate => Op::Equal,
            TokenType::BangEqual => Op::NotEqual,
            TokenType::GreaterThan => Op::GreaterThan,
            TokenType::GreaterEq => Op::GreaterEq,
            TokenType::LessThan => Op::LessThan,
            TokenType::LessEq => Op::LessEq,
            TokenType::And => Op::And,
            TokenType::Or => Op::Or,
            _ => {
                return Err(lit_string("invalid operand for binary expression."));
            },
        };
        proof {
            assert(binop_of(op_t) == Some(op));
        }
        self.emit_op(op);
        proof {
            let e1 = added_ops(c0, mid.chunk.code@);
            lemma_added_push(c0, mid.chunk.code@, (op, mid.scanner.line));
            lemma_fits_mono(e1, 0, 1);
            lemma_fits_push(e1, op, 1);
            lemma_expr_only_push(e1, op);
            lemma_consts_trans(pre.chunk, mid.chunk, self.chunk);
        }
        Ok(())
    }

    /// The number parselet: intern the next attributed literal value and
    /// load it. Fails when the embedder supplied fewer numbers than the
    /// source has numeric literals.
    pub fn number(&mut self) -> (r: Result<(), String>)
        requires
            old(self).ready(),
        ensures
            r is Ok ==> {
                &&& Self::progress(*old(self), *final(self))
                &&& balanced_expr(added_ops(old(self).chunk.code@, final(self).chunk.code@))
            },
            ({
                let s = old(self).scanner.src();
                let sp = spec_number(
                    s,
                    old(self).nums@,
                    chunk_ops(old(self).chunk),
                    consts_of(old(self).chunk),
                    old(self).st_of(),
                );
                match r {
                    Ok(()) => sp matches Ok(out) && chunk_ops(final(self).chunk) == out.0
                        && consts_of(final(self).chunk) == out.1 && final(self).st_of() == out.2,
                    Err(e) => sp matches Err(pe) && e@ == pe.msg && Self::err_state(
                        *final(self),
                        s,
                        pe.line,
                    ),
                }
            }),
    {
        if self.next_num < self.nums.len() {
            let bits = self.nums[self.next_num];
            self.next_num = self.next_num + 1;
            self.emit_constant(Value::Number(bits));
            proof {
                lemma_singleton(
                    added_ops(old(self).chunk.code@, self.chunk.code@)[0],
                    0,
                );
            }
            Ok(())
        } else {
            Err(lit_string("expected a number literal."))
        }
    }

    /// The string parselet: strip the quotes off the previous token and
    /// load the text as a constant.
    pub fn string_lit(&mut self) -> (r: Result<(), String>)
        requires
            old(self).ready(),
            old(self).previous is Some,
        ensures
            r is Ok ==> {
                &&& Self::progress(*old(self), *final(self))
                &&& balanced_expr(added_ops(old(self).chunk.code@, final(self).chunk.code@))
            },
            ({
                let sp = spec_string(
                    chunk_ops(old(self).chunk),
                    consts_of(old(self).chunk),
                    old(self).st_of(),
                    gtok_of(old(self).previous.unwrap()),
                );
                r matches Ok(u) && sp matches Ok(out) && chunk_ops(final(self).chunk) == out.0
                    && consts_of(final(self).chunk) == out.1 && final(self).st_of() == out.2
            }),
    {
        let tok = self.previous.unwrap();
        let sl = tok.slice;
        let n = sl.unicode_len();
        let inner = if n >= 2 {
            sl.substring_char(1, n - 1)
        } else {
            proof {
                reveal_strlit("");
            }
            ""
        };
        self.emit_constant(Value::from_str(inner));
        proof {
            lemma_singleton(added_ops(old(self).chunk.code@, self.chunk.code@)[0], 0);
            assert(inner@ =~= (if tok.slice@.len() >= 2 {
                tok.slice@.subrange(1, tok.slice@.len() - 1)
            } else {
                Seq::<char>::empty()
            }));
        }
        Ok(())
    }

    /// The identifier parselet: intern the name; in assignment position
    /// with an `=` following, compile the right-hand side and store into
    /// the global, otherwise read the global.
    pub fn variable(&mut self, can_assign: bool) -> (r: Result<(), String>)
        requires
            old(self).ready(),
            old(self).previous is Some,
        ensures
            r is Ok ==> {
                &&& Self::progress(*old(self), *final(self))
                &&& balanced_expr(added_ops(old(self).chunk.code@, final(self).chunk.code@))
            },
            ({
                let s = old(self).scanner.src();
                let sp = spec_variable(
                    s,
                    old(self).nums@,
                    chunk_ops(old(self).chunk),
                    consts_of(old(self).chunk),
                    old(self).st_of(),
                    gtok_of(old(self).previous.unwrap()),
                    can_assign,
                );
                match r {
                    Ok(()) => sp matches Ok(out) && chunk_ops(final(self).chunk) == out.0
                        && consts_of(final(self).chunk) == out.1 && final(self).st_of() == out.2,
                    Err(e) => sp matches Err(pe) && e@ == pe.msg && Self::err_state(
                        *final(self),
                        s,
                        pe.line,
                    ),
                }
            }),
        decreases old(self).measure(), 3int,
    {
        let ghost pre = *old(self);
        let ghost c0 = self.chunk.code@;
        let tok = self.previous.unwrap();
        let name = Value::from_str(tok.slice);
        let ghost namev = name;
        let idx = self.chunk.add_constant(name);
        proof {
            lemma_refs_ok_grow(pre.chunk, self.chunk);
            assert(chunk_ops(self.chunk) =~= chunk_ops(pre.chunk));
            lemma_consts_of_push(pre.chunk, self.chunk, namev);
            assert(consts_of(self.chunk) =~= consts_of(pre.chunk).push(GValue::Str(tok.slice@)));
            assert(idx == consts_of(pre.chunk).len() as usize);
        }
        let ghost ca = *self;
        proof {
            assert(const_is_str(ca.chunk, idx as int));
        }
        if can_assign {
            let m = self.match_and_consume(TokenType::Equal);
            match m {
                Ok(true) => {
                    let ghost ca2 = *self;
                    proof {
                        assert(pmeasure(pre.scanner.src(), ca2.st_of()) == ca2.measure());
                        assert(pmeasure(pre.scanner.src(), pre.st_of()) == pre.measure());
                    }
                    match self.expression() {
                        Ok(()) => {},
                        Err(e) => {
                            return Err(e);
                        },
                    }
                    let ghost mid = *self;
                    proof {
                        assert(const_is_str(mid.chunk, idx as int));
                    }
                    self.emit_op(Op::SetGlobal(idx));
                    proof {
                        let e1 = added_ops(c0, mid.chunk.code@);
                        lemma_added_push(c0, mid.chunk.code@, (Op::SetGlobal(idx), mid.scanner.line));
                        lemma_fits_push(e1, Op::SetGlobal(idx), 0);
                        lemma_expr_only_push(e1, Op::SetGlobal(idx));
                        lemma_consts_trans(pre.chunk, mid.chunk, self.chunk);
                    }
                    Ok(())
                },
                Ok(false) => {
                    self.emit_op(Op::GetGlobal(idx));
                    proof {
                        lemma_singleton(Op::GetGlobal(idx), 0);
                        lemma_consts_trans(pre.chunk, ca.chunk, self.chunk);
                    }
                    Ok(())
                },
                Err(e) => Err(e),
            }
        } else {
            self.emit_op(Op::GetGlobal(idx));
            proof {
                lemma_singleton(Op::GetGlobal(idx), 0);
                lemma_consts_trans(pre.chunk, ca.chunk, self.chunk);
            }
            Ok(())
        }
    }

    /// A declaration after its `let`: `IDENT ( = expression )? ;` interns
    /// the name, compiles the initialiser (or nil), and emits exactly one
    /// `DefineGlobal` and no `Pop`.
    pub fn declaration(&mut self) -> (r: Result<(), String>)
        requires
            old(self).ready(),
        ensures
            r is Ok ==> {
                &&& Self::progress(*old(self), *final(self))
                &&& stmt_ops(added_ops(old(self).chunk.code@, final(self).chunk.code@))
            },
            ({
                let s = old(self).scanner.src();
                let sp = spec_declaration(
                    s,
                    old(self).nums@,
                    chunk_ops(old(self).chunk),
                    consts_of(old(self).chunk),
                    old(self).st_of(),
                );
                match r {
                    Ok(()) => sp matches Ok(out) && chunk_ops(final(self).chunk) == out.0
                        && consts_of(final(self).chunk) == out.1 && final(self).st_of() == out.2,
                    Err(e) => sp matches Err(pe) && e@ == pe.msg && Self::err_state(
                        *final(self),
                        s,
                        pe.line,
                    ),
                }
            }),
        decreases old(self).measure(), 4int,
    {
        let ghost pre = *old(self);
        let ghost c0 = self.chunk.code@;
        let ghost s = pre.scanner.src();
        proof {
            assert(pre.scanner.line as int == line_at(s, pre.st_of().pos));
        }
        let m = self.match_and_consume(TokenType::Identifier);
        match m {
            Ok(true) => {},
            Ok(false) => {
                return Err(lit_string("expected identifier."));
            },
            Err(e) => {
                return Err(e);
            },
        }
        let tok = self.previous.unwrap();
        let ghost before_add = *self;
        let name = Value::from_str(tok.slice);
        let ghost namev = name;
        let idx = self.chunk.add_constant(name);
        proof {
            lemma_refs_ok_grow(before_add.chunk, self.chunk);
            assert(chunk_ops(self.chunk) =~= chunk_ops(before_add.chunk));
            lemma_consts_of_push(before_add.chunk, self.chunk, namev);
            assert(consts_of(self.chunk) =~= consts_of(before_add.chunk).push(
                GValue::Str(tok.slice@),
            ));
            assert(idx == consts_of(pre.chunk).len() as usize);
        }
        let ghost ca = *self;
        proof {
            assert(const_is_str(ca.chunk, idx as int));
            assert(consts_preserved(pre.chunk, ca.chunk));
            assert(pmeasure(s, pre.st_of()) == pre.measure());
            assert(pmeasure(s, ca.st_of()) == ca.measure());
        }
        let eq = self.match_and_consume(TokenType::Equal);
        match eq {
            Ok(true) => {
                proof {
                    assert(pmeasure(s, self.st_of()) == self.measure());
                    assert(self.measure() >= 0);
                }
                match self.expression() {
                    Ok(()) => {},
                    Err(e) => {
                        return Err(e);
                    },
                }
            },
            Ok(false) => {
                self.emit_op(Op::Nil);
                proof {
                    lemma_singleton(Op::Nil, 0);
                }
            },
            Err(e) => {
                return Err(e);
            },
        }
        let ghost mid = *self;
        proof {
            assert(balanced_expr(added_ops(c0, mid.chunk.code@)));
            assert(const_is_str(mid.chunk, idx as int));
            assert(mid.scanner.line as int == line_at(s, mid.st_of().pos));
        }
        let sm = self.match_and_consume(TokenType::Semicolon);
        match sm {
            Ok(true) => {},
            Ok(false) => {
                return Err(lit_string("expected ';' after statement."));
            },
            Err(e) => {
                return Err(e);
            },
        }
        let ghost mid2 = *self;
        self.emit_op(Op::DefineGlobal(idx));
        proof {
            let e1 = added_ops(c0, mid2.chunk.code@);
            lemma_added_push(c0, mid2.chunk.code@, (Op::DefineGlobal(idx), mid2.scanner.line));
            lemma_fits_push(e1, Op::DefineGlobal(idx), 0);
            assert(added_ops(c0, self.chunk.code@).drop_last() =~= e1);
            lemma_consts_trans(pre.chunk, mid2.chunk, self.chunk);
        }
        Ok(())
    }

    /// A print statement after its `print`: the expression, `;`, and
    /// exactly one `Print`.
    pub fn print_statement(&mut self) -> (r: Result<(), String>)
        requires
            old(self).ready(),
        ensures
            r is Ok ==> {
                &&& Self::progress(*old(self), *final(self))
                &&& stmt_ops(added_ops(old(self).chunk.code@, final(self).chunk.code@))
            },
            ({
                let s = old(self).scanner.src();
                let sp = spec_print_statement(
                    s,
                    old(self).nums@,
                    chunk_ops(old(self).chunk),
                    consts_of(old(self).chunk),
                    old(self).st_of(),
                );
                match r {
                    Ok(()) => sp matches Ok(out) && chunk_ops(final(self).chunk) == out.0
                        && consts_of(final(self).chunk) == out.1 && final(self).st_of() == out.2,
                    Err(e) => sp matches Err(pe) && e@ == pe.msg && Self::err_state(
                        *final(self),
                        s,
                        pe.line,
                    ),
                }
            }),
        decreases old(self).measure(), 4int,
    {
        let ghost pre = *old(self);
        let ghost c0 = self.chunk.code@;
        let ghost s = pre.scanner.src();
        match self.expression() {
            Ok(()) => {},
            Err(e) => {
                return Err(e);
            },
        }
        let ghost mid = *self;
        proof {
            assert(mid.scanner.line as int == line_at(s, mid.st_of().pos));
        }
        let sm = self.match_and_consume(TokenType::Semicolon);
        match sm {
            Ok(true) => {},
            Ok(false) => {
                return Err(lit_string("expected ';' after statement."));
            },
            Err(e) => {
                return Err(e);
            },
        }
        let ghost mid2 = *self;
        self.emit_op(Op::Print);
        proof {
            let e1 = added_ops(c0, mid2.chunk.code@);
            lemma_added_push(c0, mid2.chunk.code@, (Op::Print, mid2.scanner.line));
            lemma_fits_push(e1, Op::Print, 0);
            assert(added_ops(c0, self.chunk.code@).drop_last() =~= e1);
            lemma_consts_trans(pre.chunk, mid2.chunk, self.chunk);
        }
        Ok(())
    }

    /// An expression statement: the expression, `;`, and exactly one `Pop`
    /// discarding its value.
    pub fn expression_statement(&mut self) -> (r: Result<(), String>)
        requires
            old(self).ready(),
        ensures
            r is Ok ==> {
                &&& Self::progress(*old(self), *final(self))
                &&& stmt_ops(added_ops(old(self).chunk.code@, final(self).chunk.code@))
                &&& final(self).measure() < old(self).measure()
            },
            ({
                let s = old(self).scanner.src();
                let sp = spec_expression_statement(
                    s,
                    old(self).nums@,
                    chunk_ops(old(self).chunk),
                    consts_of(old(self).chunk),
                    old(self).st_of(),
                );
                match r {
                    Ok(()) => sp matches Ok(out) && chunk_ops(final(self).chunk) == out.0
                        && consts_of(final(self).chunk) == out.1 && final(self).st_of() == out.2,
                    Err(e) => sp matches Err(pe) && e@ == pe.msg && Self::err_state(
                        *final(self),
                        s,
                        pe.line,
                    ),
                }
            }),
        decreases old(self).measure(), 4int,
    {
        let ghost pre = *old(self);
        let ghost c0 = self.chunk.code@;
        let ghost s = pre.scanner.src();
        match self.expression() {
            Ok(()) => {},
            Err(e) => {
                return Err(e);
            },
        }
        let ghost mid = *self;
        proof {
            assert(mid.scanner.line as int == line_at(s, mid.st_of().pos));
        }
        let sm = self.match_and_consume(TokenType::Semicolon);
        match sm {
            Ok(true) => {},
            Ok(false) => {
                return Err(lit_string("expected ';' after statement."));
            },
            Err(e) => {
                return Err(e);
            },
        }
        let ghost mid2 = *self;
        self.emit_op(Op::Pop);
        proof {
            let e1 = added_ops(c0, mid2.chunk.code@);
            lemma_added_push(c0, mid2.chunk.code@, (Op::Pop, mid2.scanner.line));
            lemma_fits_push(e1, Op::Pop, 0);
            assert(added_ops(c0, self.chunk.code@).drop_last() =~= e1);
            lemma_consts_trans(pre.chunk, mid2.chunk, self.chunk);
        }
        Ok(())
    }

    /// One top-level statement: a declaration, a print statement or an
    /// expression statement. Always consumes at least one token.
    pub fn statement(&mut self) -> (r: Result<(), String>)
        requires
            old(self).ready(),
            old(self).cur_real(),
        ensures
            r is Ok ==> {
                &&& Self::progress(*old(self), *final(self))
                &&& stmt_ops(added_ops(old(self).chunk.code@, final(self).chunk.code@))
                &&& final(self).measure() < old(self).measure()
            },
            ({
                let s = old(self).scanner.src();
                let sp = spec_statement(
                    s,
                    old(self).nums@,
                    chunk_ops(old(self).chunk),
                    consts_of(old(self).chunk),
                    old(self).st_of(),
                );
                match r {
                    Ok(()) => sp matches Ok(out) && chunk_ops(final(self).chunk) == out.0
                        && consts_of(final(self).chunk) == out.1 && final(self).st_of() == out.2,
                    Err(e) => sp matches Err(pe) && e@ == pe.msg && Self::err_state(
                        *final(self),
                        s,
                        pe.line,
                    ),
                }
            }),
        decreases old(self).measure(), 5int,
    {
        let ghost pre = *old(self);
        let ghost s = pre.scanner.src();
        proof {
            assert(pmeasure(s, pre.st_of()) == pre.measure());
        }
        let ml = self.match_and_consume(TokenType::Let);
        match ml {
            Ok(true) => {
                proof {
                    assert(pmeasure(s, self.st_of()) == self.measure());
                    assert(self.measure() >= 0);
                }
                match self.declaration() {
                    Ok(()) => Ok(()),
                    Err(e) => Err(e),
                }
            },
            Ok(false) => {
                let mp = self.match_and_consume(TokenType::Print);
                match mp {
                    Ok(true) => {
                        proof {
                            assert(pmeasure(s, self.st_of()) == self.measure());
                            assert(self.measure() >= 0);
                        }
                        match self.print_statement() {
                            Ok(()) => Ok(()),
                            Err(e) => Err(e),
                        }
                    },
                    Ok(false) => {
                        match self.expression_statement() {
                            Ok(()) => Ok(()),
                            Err(e) => Err(e),
                        }
                    },
                    Err(e) => Err(e),
                }
            },
            Err(e) => Err(e),
        }
    }
}

/// Compile a whole program: statements up to the end of input, then a
/// closing `Return`. `nums` attributes a binary64 bit pattern to each
/// numeric literal of the source, in scanning order; the embedder reads
/// them out of the literal text.
///
/// The result is exactly what the mathematical pass says of the source:
/// compilation succeeds precisely when `spec_compile` does, a compiled
/// chunk holds exactly its opcodes and constants (and so is runnable and
/// well shaped, its last opcode its only `Return`, reached with an empty
/// stack), and a failure carries exactly its message on its line.
#[verifier::rlimit(100)]
pub fn compile<'a>(source: &'a str, nums: Vec<u64>) -> (r: Result<Chunk, String>)
    requires
        source@.len() < usize::MAX as nat,
    ensures
        ({
            let sp = spec_compile(source@, nums@);
            match r {
                Ok(ch) => {
                    &&& sp matches Ok(pr) && chunk_ops(ch) == pr.0 && consts_of(ch) == pr.1
                    &&& ch.wf() && runnable(ch) && program_wf(chunk_ops(ch))
                },
                Err(e) => sp matches Err(pe) && e@ == "Error at line "@ + dec_rep(pe.line) + ": "@
                    + pe.msg,
            }
        }),
{
    let ghost s = source@;
    let mut compiler = Compiler::new(source, nums);
    let ghost target = spec_compile(s, nums@);
    let pump = compiler.consume();
    match pump {
        Ok(()) => {},
        Err(e) => {
            let line = compiler.scanner.line;
            let msg = error_at_line(line, e.as_str());
            proof {
                assert(msg@ == "Error at line "@ + dec_rep(line as int) + ": "@ + e@);
            }
            return Err(msg);
        },
    }
    proof {
        assert(chunk_ops(compiler.chunk) =~= Seq::<Op>::empty());
        assert(consts_of(compiler.chunk) =~= Seq::<GValue>::empty());
        assert(target == spec_program(
            s,
            nums@,
            chunk_ops(compiler.chunk),
            consts_of(compiler.chunk),
            compiler.st_of(),
        ));
    }
    loop
        invariant
            compiler.ready(),
            compiler.scanner.src() == s,
            compiler.nums@ == nums@,
            s == source@,
            fits(chunk_ops(compiler.chunk), 0),
            seq_delta(chunk_ops(compiler.chunk)) == 0,
            target == spec_compile(s, nums@),
            target == spec_program(
                s,
                nums@,
                chunk_ops(compiler.chunk),
                consts_of(compiler.chunk),
                compiler.st_of(),
            ),
        ensures
            compiler.ready(),
            fits(chunk_ops(compiler.chunk), 0),
            seq_delta(chunk_ops(compiler.chunk)) == 0,
            target == Ok::<(Seq<Op>, Seq<GValue>), PErr>(
                (chunk_ops(compiler.chunk).push(Op::Return), consts_of(compiler.chunk)),
            ),
        decreases compiler.measure(),
    {
        let ghost at_top = compiler;
        let me = compiler.match_and_consume(TokenType::Eof);
        match me {
            Ok(true) => {
                proof {
                    assert(target == Ok::<(Seq<Op>, Seq<GValue>), PErr>(
                        (chunk_ops(compiler.chunk).push(Op::Return), consts_of(compiler.chunk)),
                    ));
                }
                break ;
            },
            Ok(false) => {
                let ghost cpre = compiler.chunk;
                proof {
                    assert(pmeasure(s, compiler.st_of()) == compiler.measure());
                }
                let st = compiler.statement();
                match st {
                    Ok(()) => {
                        proof {
                            let body = chunk_ops(cpre);
                            let added = added_ops(cpre.code@, compiler.chunk.code@);
                            lemma_code_split(cpre.code@, compiler.chunk.code@);
                            lemma_fits_app(body, added, 0);
                            assert(chunk_ops(compiler.chunk) == body + added);
                            assert(pmeasure(s, compiler.st_of()) == compiler.measure());
                        }
                    },
                    Err(e) => {
                        let line = compiler.scanner.line;
                        let msg = error_at_line(line, e.as_str());
                        proof {
                            assert(msg@ == "Error at line "@ + dec_rep(line as int) + ": "@
                                + e@);
                        }
                        return Err(msg);
                    },
                }
            },
            Err(e) => {
                proof {
                    assert(at_top.scanner.pos() == s.len());
                    assert(spec_skip(s, s.len() as int) == s.len() as int);
                    assert(false);
                }
                let line = compiler.scanner.line;
                let msg = error_at_line(line, e.as_str());
                return Err(msg);
            },
        }
    }
    let ghost cpre = compiler.chunk;
    let line = compiler.scanner.line;
    compiler.chunk.push_operation(Op::Return, line);
    proof {
        let body = chunk_ops(cpre);
        let ops = chunk_ops(compiler.chunk);
        assert(ops =~= body.push(Op::Return));
        assert(consts_of(compiler.chunk) =~= consts_of(cpre));
        lemma_fits_push(body, Op::Return, 0);
        assert(fits(ops, 0));
        assert forall|i: int| 0 <= i < ops.len() implies depth_at(ops, i) >= op_pops(
            #[trigger] ops[i],
        ) by {
            lemma_fits_safe(ops, 0, i);
        }
        assert(ops.drop_last() =~= body);
        assert(ops =~= body + seq![Op::Return]);
        lemma_depth_prefix(body, seq![Op::Return], body.len() as int);
        lemma_depth_full(body);
        assert(depth_at(ops, ops.len() - 1) == 0);
        // Every constant reference is satisfied at run time.
        assert forall|i: int| 0 <= i < compiler.chunk.code@.len() implies match (
        #[trigger] compiler.chunk.code@[i]).0 {
            Op::LoadConst(x) => (x as int) < compiler.chunk.constants.slots().len()
                && compiler.chunk.constants.slots()[x as int] is Some,
            Op::DefineGlobal(x) => const_is_str(compiler.chunk, x as int),
            Op::GetGlobal(x) => const_is_str(compiler.chunk, x as int),
            Op::SetGlobal(x) => const_is_str(compiler.chunk, x as int),
            _ => true,
        } by {
            if i < cpre.code@.len() {
                assert(compiler.chunk.code@[i] == cpre.code@[i]);
                assert(op_ref_ok(cpre, cpre.code@[i].0));
            }
        }
    }
    Ok(compiler.chunk)
}

/// A compile error annotated with the line it arose on.
pub fn error_at_line(line: usize, msg: &str) -> (r: String)
    ensures
        r@ == "Error at line "@ + dec_rep(line as int) + ": "@ + msg@,
{
    let mut s = lit_string("Error at line ");
    let d = dec_string(line);
    s.append(d.as_str());
    s.append(": ");
    s.append(msg);
    s
}

} // verus!
