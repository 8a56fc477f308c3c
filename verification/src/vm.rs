//! The chunk format and the virtual machine.
//!
//! A chunk is a sequence of (opcode, line) pairs plus a constant pool; the
//! machine executes a loaded chunk linearly over a value stack and a global
//! environment. Execution is specified against `spec_run`, a mathematical
//! interpreter over shadow values: the machine either finishes with a value,
//! fails with a runtime error, or stops at an arithmetic opcode on two
//! numbers and reports their bit patterns, to be combined by the embedder
//! and handed back through `resume_arith`.

use vstd::prelude::*;

use crate::text::lit_string;
use crate::util::KeyedArray;
use crate::value::Eval;
use crate::value::GEval;
use crate::value::GValue;
use crate::value::Value;
use crate::value::nan_bits;
use crate::value::negate_bits;
use crate::value::num_lt_bits;
use crate::value::num_le_bits;
use crate::value::val_eq;

verus! {

broadcast use vstd::string::group_string_axioms;

#[derive(Clone, Copy, Debug, PartialEq, Eq, Structural)]
pub enum Op {
    LoadConst(usize),
    DefineGlobal(usize),
    GetGlobal(usize),
    SetGlobal(usize),
    Pop,
    True,
    False,
    Nil,
    Not,
    Negate,
    Equal,
    NotEqual,
    GreaterThan,
    GreaterEq,
    LessThan,
    LessEq,
    And,
    Or,
    Add,
    Sub,
    Mul,
    Div,
    Print,
    Return,
}

#[derive(Debug, Clone)]
pub enum StaticMem {
    Str(String),
}

/// How many stack entries an opcode consumes.
pub open spec fn op_pops(op: Op) -> int {
    match op {
        Op::LoadConst(_) => 0,
        Op::DefineGlobal(_) => 1,
        Op::GetGlobal(_) => 0,
        Op::SetGlobal(_) => 1,
        Op::Pop => 1,
        Op::True => 0,
        Op::False => 0,
        Op::Nil => 0,
        Op::Not => 1,
        Op::Negate => 1,
        Op::Print => 1,
        Op::Return => 0,
        _ => 2,
    }
}

/// How many stack entries an opcode leaves behind.
pub open spec fn op_pushes(op: Op) -> int {
    match op {
        Op::LoadConst(_) => 1,
        Op::DefineGlobal(_) => 0,
        Op::GetGlobal(_) => 1,
        Op::SetGlobal(_) => 1,
        Op::Pop => 0,
        Op::True => 1,
        Op::False => 1,
        Op::Nil => 1,
        Op::Not => 1,
        Op::Negate => 1,
        Op::Print => 0,
        Op::Return => 0,
        _ => 1,
    }
}

/// Net stack effect of an opcode.
pub open spec fn op_delta(op: Op) -> int {
    op_pushes(op) - op_pops(op)
}

/// The stack depth before the `i`-th opcode, for a run that starts empty.
pub open spec fn depth_at(ops: Seq<Op>, i: int) -> int
    decreases i,
{
    if i <= 0 {
        0
    } else {
        depth_at(ops, i - 1) + op_delta(ops[i - 1])
    }
}

/// Whether every opcode finds the entries it pops: no stack underflow.
pub open spec fn stack_safe(ops: Seq<Op>) -> bool {
    forall|i: int| 0 <= i < ops.len() ==> depth_at(ops, i) >= op_pops(#[trigger] ops[i])
}

/// The shadow of a constant pool: each slot's value, if allocated.
pub open spec fn consts_view(slots: Seq<Option<Value>>) -> Seq<Option<GValue>> {
    slots.map_values(
        |o: Option<Value>|
            match o {
                Some(v) => Some(v@),
                None => None,
            },
    )
}

/// Whether a chunk can be executed without the machine ever failing on its
/// own bookkeeping: every constant index an opcode carries is allocated,
/// the global opcodes name string constants, and no opcode underflows the
/// stack.
pub open spec fn runnable(ch: Chunk) -> bool {
    &&& stack_safe(chunk_ops(ch))
    &&& forall|i: int|
        0 <= i < ch.code@.len() ==> match #[trigger] ch.code@[i].0 {
            Op::LoadConst(x) => x < ch.constants.slots().len() && ch.constants.slots()[x as int]
                is Some,
            Op::DefineGlobal(x) => const_is_str(ch, x as int),
            Op::GetGlobal(x) => const_is_str(ch, x as int),
            Op::SetGlobal(x) => const_is_str(ch, x as int),
            _ => true,
        }
}

/// Whether constant `x` of the chunk is an allocated string constant.
pub open spec fn const_is_str(ch: Chunk, x: int) -> bool {
    &&& 0 <= x < ch.constants.slots().len()
    &&& match ch.constants.slots()[x] {
        Some(v) => v@ is Str,
        None => false,
    }
}

/// The opcodes of an instruction sequence, without the line numbers.
pub open spec fn code_ops(c: Seq<(Op, usize)>) -> Seq<Op> {
    c.map_values(|p: (Op, usize)| p.0)
}

/// The opcodes of a chunk, without their line numbers.
pub open spec fn chunk_ops(ch: Chunk) -> Seq<Op> {
    code_ops(ch.code@)
}

/// How many slots of the pool the chunk's constant pool has filled.
pub open spec fn n_consts(ch: Chunk) -> int {
    ch.constants.slots().len() - ch.constants.free().len()
}

#[derive(Debug, Clone, PartialEq)]
pub struct Chunk {
    pub code: Vec<(Op, usize)>,
    pub constants: KeyedArray<Value>,
}

const POOL_SIZE: usize = 128;

impl Chunk {
    /// Well-formedness of the pool: the allocated slots are exactly the
    /// first `n_consts` ones, and the free list hands the rest out in
    /// index order.
    pub open spec fn wf(self) -> bool {
        &&& self.constants.wf()
        &&& forall|i: int|
            0 <= i < self.constants.slots().len() ==> (#[trigger] self.constants.slots()[i]
                is Some <==> i < n_consts(self))
        &&& forall|i: int|
            0 <= i < self.constants.free().len() ==> #[trigger] self.constants.free()[i] as int
                == self.constants.slots().len() - 1 - i
    }

    pub fn new() -> (ch: Chunk)
        ensures
            ch.wf(),
            ch.code@ =~= Seq::<(Op, usize)>::empty(),
            n_consts(ch) == 0,
    {
        Chunk { code: Vec::new(), constants: KeyedArray::new(POOL_SIZE) }
    }

    /// Put a value into the pool and return its index: constants are
    /// numbered in the order they are added, and earlier ones keep their
    /// slots and values.
    pub fn add_constant(&mut self, value: Value) -> (idx: usize)
        requires
            old(self).wf(),
        ensures
            final(self).wf(),
            final(self).code == old(self).code,
            idx as int == n_consts(*old(self)),
            n_consts(*final(self)) == n_consts(*old(self)) + 1,
            final(self).constants.slots()[idx as int] == Some(value),
            forall|j: int|
                0 <= j < n_consts(*old(self)) ==> final(self).constants.slots()[j] == old(
                    self,
                ).constants.slots()[j],
    {
        proof {
            if self.constants.free().len() > 0 {
                assert(self.constants.free().last() as int == self.constants.slots().len() - 1 - (
                self.constants.free().len() - 1));
            }
        }
        let idx = self.constants.push(value);
        proof {
            assert forall|i: int|
                0 <= i < self.constants.slots().len() implies (#[trigger] self.constants.slots()[i]
                is Some <==> i < n_consts(*self)) by {
                if old(self).constants.free().len() == 0 {
                    assert(n_consts(*old(self)) == old(self).constants.slots().len());
                }
            }
        }
        idx
    }

    /// Add a constant and emit `LoadConst` of it.
    pub fn push_constant(&mut self, value: Value, line: usize)
        requires
            old(self).wf(),
        ensures
            final(self).wf(),
            final(self).code@ =~= old(self).code@.push(
                (Op::LoadConst(n_consts(*old(self)) as usize), line),
            ),
            n_consts(*final(self)) == n_consts(*old(self)) + 1,
            final(self).constants.slots()[n_consts(*old(self))] == Some(value),
            forall|j: int|
                0 <= j < n_consts(*old(self)) ==> final(self).constants.slots()[j] == old(
                    self,
                ).constants.slots()[j],
    {
        let idx = self.add_constant(value);
        self.code.push((Op::LoadConst(idx), line));
    }

    /// Emit an opcode.
    pub fn push_operation(&mut self, op: Op, line: usize)
        requires
            old(self).wf(),
        ensures
            final(self).wf(),
            final(self).code@ =~= old(self).code@.push((op, line)),
            final(self).constants == old(self).constants,
    {
        self.code.push((op, line));
    }
}

/// Whether no two entries of the environment bind the same name.
pub open spec fn unique_keys(g: Seq<(String, Value)>) -> bool {
    forall|i: int, j: int| 0 <= i < j < g.len() ==> (#[trigger] g[i]).0@ != (#[trigger] g[j]).0@
}

/// The mapping an environment holds, later entries shadowing earlier ones
/// (with unique keys nothing is shadowed).
pub open spec fn globals_map(g: Seq<(String, Value)>) -> Map<Seq<char>, GValue>
    decreases g.len(),
{
    if g.len() == 0 {
        Map::empty()
    } else {
        globals_map(g.drop_last()).insert(g.last().0@, g.last().1@)
    }
}

proof fn lemma_globals_map_index(g: Seq<(String, Value)>, i: int)
    requires
        unique_keys(g),
        0 <= i < g.len(),
    ensures
        globals_map(g).contains_key(g[i].0@),
        globals_map(g)[g[i].0@] == g[i].1@,
    decreases g.len(),
{
    if i < g.len() - 1 {
        assert(g.drop_last()[i] == g[i]);
        lemma_globals_map_index(g.drop_last(), i);
    }
}

proof fn lemma_globals_map_absent(g: Seq<(String, Value)>, n: Seq<char>)
    requires
        forall|i: int| 0 <= i < g.len() ==> (#[trigger] g[i]).0@ != n,
    ensures
        !globals_map(g).contains_key(n),
    decreases g.len(),
{
    if g.len() > 0 {
        lemma_globals_map_absent(g.drop_last(), n);
    }
}

proof fn lemma_globals_map_update(g: Seq<(String, Value)>, i: int, e: (String, Value))
    requires
        unique_keys(g),
        0 <= i < g.len(),
        e.0@ == g[i].0@,
    ensures
        unique_keys(g.update(i, e)),
        globals_map(g.update(i, e)) =~= globals_map(g).insert(e.0@, e.1@),
    decreases g.len(),
{
    let g2 = g.update(i, e);
    if i == g.len() - 1 {
        assert(g2.drop_last() =~= g.drop_last());
    } else {
        lemma_globals_map_update(g.drop_last(), i, e);
        assert(g2.drop_last() =~= g.drop_last().update(i, e));
        assert(g2.last() == g.last());
        assert(g.last().0@ != e.0@);
    }
}

/// The index of the binding for `name`, if any; `None` means the map holds
/// no such key.
fn find_global(g: &Vec<(String, Value)>, name: &str) -> (r: Option<usize>)
    requires
        unique_keys(g@),
    ensures
        match r {
            Some(i) => {
                &&& (i as int) < g@.len()
                &&& g@[i as int].0@ == name@
                &&& globals_map(g@).contains_key(name@)
                &&& globals_map(g@)[name@] == g@[i as int].1@
            },
            None => !globals_map(g@).contains_key(name@),
        },
{
    let mut i: usize = 0;
    let n = g.len();
    while i < n
        invariant
            n == g@.len(),
            i <= n,
            unique_keys(g@),
            forall|j: int| 0 <= j < i ==> (#[trigger] g@[j]).0@ != name@,
        decreases n - i,
    {
        if crate::text::str_eq(g[i].0.as_str(), name) {
            proof {
                lemma_globals_map_index(g@, i as int);
            }
            return Some(i);
        }
        i = i + 1;
    }
    proof {
        lemma_globals_map_absent(g@, name@);
    }
    None
}

/// Bind `name` to `v`, creating or overwriting the binding.
fn define_global(g: &mut Vec<(String, Value)>, name: String, v: Value)
    requires
        unique_keys(old(g)@),
    ensures
        unique_keys(final(g)@),
        globals_map(final(g)@) =~= globals_map(old(g)@).insert(name@, v@),
{
    let r = find_global(g, name.as_str());
    match r {
        Some(i) => {
            proof {
                lemma_globals_map_update(g@, i as int, (name, v));
            }
            g.set(i, (name, v));
        },
        None => {
            let ghost g0 = g@;
            proof {
                assert forall|i: int| 0 <= i < g0.len() implies (#[trigger] g0[i]).0@ != name@ by {
                    if g0[i].0@ == name@ {
                        lemma_globals_map_index(g0, i);
                    }
                }
            }
            g.push((name, v));
            proof {
                assert(g@.drop_last() =~= g0);
                assert forall|i: int, j: int| 0 <= i < j < g@.len() implies (#[trigger] g@[i]).0@
                    != (#[trigger] g@[j]).0@ by {
                    if j < g@.len() - 1 {
                        assert(g@[i] == g0[i] && g@[j] == g0[j]);
                    } else {
                        assert(g@[i] == g0[i]);
                    }
                }
            }
        },
    }
}

/// Overwrite the binding for `name` if there is one; report whether the
/// name was bound.
fn assign_global(g: &mut Vec<(String, Value)>, name: &str, v: Value) -> (r: bool)
    requires
        unique_keys(old(g)@),
    ensures
        unique_keys(final(g)@),
        r == globals_map(old(g)@).contains_key(name@),
        r ==> globals_map(final(g)@) =~= globals_map(old(g)@).insert(name@, v@),
        !r ==> final(g)@ == old(g)@,
{
    let found = find_global(g, name);
    match found {
        Some(i) => {
            let ghost g0 = g@;
            let key = g[i].0.clone();
            proof {
                lemma_globals_map_update(g0, i as int, (key, v));
                assert(unique_keys(g0.update(i as int, (key, v))));
                assert(globals_map(g0.update(i as int, (key, v))) =~= globals_map(g0).insert(
                    name@,
                    v@,
                ));
            }
            g.set(i, (key, v));
            proof {
                assert(g@ =~= g0.update(i as int, (key, v)));
            }
            true
        },
        None => false,
    }
}

/// Fetch a copy of the value bound to `name`.
fn get_global(g: &Vec<(String, Value)>, name: &str) -> (r: Option<Value>)
    requires
        unique_keys(g@),
    ensures
        match r {
            Some(v) => globals_map(g@).contains_key(name@) && globals_map(g@)[name@] == v@,
            None => !globals_map(g@).contains_key(name@),
        },
{
    let found = find_global(g, name);
    match found {
        Some(i) => Some(g[i].1.duplicate()),
        None => None,
    }
}


/// What a run of the mathematical machine ends in.
pub enum RunOutcome {
    Done(GValue),
    Fail(Seq<char>),
    NumRequest(Op, u64, u64),
}

/// The state of the mathematical machine.
pub struct MState {
    pub code: Seq<(Op, usize)>,
    pub consts: Seq<Option<GValue>>,
    pub stack: Seq<GValue>,
    pub globals: Map<Seq<char>, GValue>,
    pub printed: Seq<GValue>,
    pub pc: int,
    pub line: int,
}

pub struct RunResult {
    pub out: RunOutcome,
    pub st: MState,
}

/// The state with new dynamic components, same program.
pub open spec fn st_goto(
    st: MState,
    stack: Seq<GValue>,
    globals: Map<Seq<char>, GValue>,
    printed: Seq<GValue>,
    pc: int,
    line: int,
) -> MState {
    MState { code: st.code, consts: st.consts, stack, globals, printed, pc, line }
}

/// The operator text of a comparison opcode.
pub open spec fn cmp_name(op: Op) -> Seq<char> {
    if op == Op::GreaterThan {
        ">"@
    } else if op == Op::GreaterEq {
        ">="@
    } else if op == Op::LessThan {
        "<"@
    } else {
        "<="@
    }
}

/// What a comparison opcode computes on two number patterns.
pub open spec fn cmp_bits(op: Op, a: u64, b: u64) -> bool {
    if op == Op::GreaterThan {
        num_lt_bits(b, a)
    } else if op == Op::GreaterEq {
        num_le_bits(b, a)
    } else if op == Op::LessThan {
        num_lt_bits(a, b)
    } else {
        num_le_bits(a, b)
    }
}

/// What a binary opcode makes of its two operands: a value, an arithmetic
/// request on two number patterns, or a runtime error message.
pub open spec fn gbinary(op: Op, lhs: GValue, rhs: GValue) -> Result<GEval, Seq<char>> {
    match op {
        Op::Add => match (lhs, rhs) {
            (GValue::Num(a), GValue::Num(b)) => Ok(GEval::NumOp(a, b)),
            (GValue::Str(x), GValue::Str(y)) => Ok(GEval::Val(GValue::Str(x + y))),
            _ => Err("type mismatch or invalid '+' operation."@),
        },
        Op::Sub | Op::Mul | Op::Div => match (lhs, rhs) {
            (GValue::Num(a), GValue::Num(b)) => Ok(GEval::NumOp(a, b)),
            _ => Err(
                if op == Op::Sub {
                    "type mismatch or invalid '-' operation."@
                } else if op == Op::Mul {
                    "type mismatch or invalid '*' operation."@
                } else {
                    "type mismatch or invalid '/' operation."@
                },
            ),
        },
        Op::Equal => Ok(GEval::Val(GValue::Bool(val_eq(lhs, rhs)))),
        Op::NotEqual => Ok(GEval::Val(GValue::Bool(!val_eq(lhs, rhs)))),
        Op::GreaterThan | Op::GreaterEq | Op::LessThan | Op::LessEq => match (lhs, rhs) {
            (GValue::Num(a), GValue::Num(b)) => Ok(GEval::Val(GValue::Bool(cmp_bits(op, a, b)))),
            _ => Err("only numerical types are comparable, near "@ + cmp_name(op)),
        },
        Op::And => match (lhs, rhs) {
            (GValue::Bool(a), GValue::Bool(b)) => Ok(GEval::Val(GValue::Bool(a && b))),
            _ => Err("only boolean values can be used for 'and' operation."@),
        },
        Op::Or => match (lhs, rhs) {
            (GValue::Bool(a), GValue::Bool(b)) => Ok(GEval::Val(GValue::Bool(a || b))),
            _ => Err("only boolean values can be used for 'and' operation."@),
        },
        _ => Err("invalid binary operation."@),
    }
}

/// What a unary opcode makes of its operand, if anything: `Negate` flips a
/// number's sign bit, `Not` negates a boolean.
pub open spec fn gunary(op: Op, v: GValue) -> Option<GValue> {
    match op {
        Op::Negate => match v {
            GValue::Num(n) => Some(GValue::Num(negate_bits(n))),
            _ => None,
        },
        Op::Not => match v {
            GValue::Bool(b) => Some(GValue::Bool(!b)),
            _ => None,
        },
        _ => None,
    }
}

/// The mathematical machine: runs the opcodes from `st.pc` on and says how
/// the run ends. Running past the last opcode yields nil; `Return` yields
/// the top of the stack (or nil when it is empty) and leaves the stack as
/// it stood, so the final state shows what the stack held at that moment.
pub open spec fn spec_run(st: MState) -> RunResult
    decreases st.code.len() - st.pc,
{
    if !(0 <= st.pc < st.code.len()) {
        RunResult { out: RunOutcome::Done(GValue::Nil), st }
    } else {
        let op = st.code[st.pc].0;
        let ln = st.code[st.pc].1 as int;
        match op {
            Op::LoadConst(i) => {
                if 0 <= i < st.consts.len() {
                    match st.consts[i as int] {
                        Some(v) => spec_run(
                            st_goto(st, st.stack.push(v), st.globals, st.printed, st.pc + 1, ln),
                        ),
                        None => RunResult {
                            out: RunOutcome::Fail("unallocated constant"@),
                            st: st_goto(st, st.stack, st.globals, st.printed, st.pc, ln),
                        },
                    }
                } else {
                    RunResult {
                        out: RunOutcome::Fail("unallocated constant"@),
                        st: st_goto(st, st.stack, st.globals, st.printed, st.pc, ln),
                    }
                }
            },
            Op::DefineGlobal(i) => {
                if 0 <= i < st.consts.len() {
                    match st.consts[i as int] {
                        Some(GValue::Str(nm)) => {
                            if st.stack.len() < 1 {
                                RunResult {
                                    out: RunOutcome::Fail("stack underflow"@),
                                    st: st_goto(st, st.stack, st.globals, st.printed, st.pc, ln),
                                }
                            } else {
                                spec_run(
                                    st_goto(
                                        st,
                                        st.stack.drop_last(),
                                        st.globals.insert(nm, st.stack.last()),
                                        st.printed,
                                        st.pc + 1,
                                        ln,
                                    ),
                                )
                            }
                        },
                        Some(_) => RunResult {
                            out: RunOutcome::Fail("invalid global name"@),
                            st: st_goto(st, st.stack, st.globals, st.printed, st.pc, ln),
                        },
                        None => RunResult {
                            out: RunOutcome::Fail("unallocated constant"@),
                            st: st_goto(st, st.stack, st.globals, st.printed, st.pc, ln),
                        },
                    }
                } else {
                    RunResult {
                        out: RunOutcome::Fail("unallocated constant"@),
                        st: st_goto(st, st.stack, st.globals, st.printed, st.pc, ln),
                    }
                }
            },
            Op::GetGlobal(i) => {
                if 0 <= i < st.consts.len() {
                    match st.consts[i as int] {
                        Some(GValue::Str(nm)) => {
                            if st.globals.contains_key(nm) {
                                spec_run(
                                    st_goto(
                                        st,
                                        st.stack.push(st.globals[nm]),
                                        st.globals,
                                        st.printed,
                                        st.pc + 1,
                                        ln,
                                    ),
                                )
                            } else {
                                RunResult {
                                    out: RunOutcome::Fail("undefined variable."@),
                                    st: st_goto(st, st.stack, st.globals, st.printed, st.pc, ln),
                                }
                            }
                        },
                        Some(_) => RunResult {
                            out: RunOutcome::Fail("invalid global name"@),
                            st: st_goto(st, st.stack, st.globals, st.printed, st.pc, ln),
                        },
                        None => RunResult {
                            out: RunOutcome::Fail("unallocated constant"@),
                            st: st_goto(st, st.stack, st.globals, st.printed, st.pc, ln),
                        },
                    }
                } else {
                    RunResult {
                        out: RunOutcome::Fail("unallocated constant"@),
                        st: st_goto(st, st.stack, st.globals, st.printed, st.pc, ln),
                    }
                }
            },
            Op::SetGlobal(i) => {
                if 0 <= i < st.consts.len() {
                    match st.consts[i as int] {
                        Some(GValue::Str(nm)) => {
                            if st.stack.len() < 1 {
                                RunResult {
                                    out: RunOutcome::Fail("stack underflow"@),
                                    st: st_goto(st, st.stack, st.globals, st.printed, st.pc, ln),
                                }
                            } else if st.globals.contains_key(nm) {
                                spec_run(
                                    st_goto(
                                        st,
                                        st.stack,
                                        st.globals.insert(nm, st.stack.last()),
                                        st.printed,
                                        st.pc + 1,
                                        ln,
                                    ),
                                )
                            } else {
                                RunResult {
                                    out: RunOutcome::Fail("undefined variable."@),
                                    st: st_goto(st, st.stack, st.globals, st.printed, st.pc, ln),
                                }
                            }
                        },
                        Some(_) => RunResult {
                            out: RunOutcome::Fail("invalid global name"@),
                            st: st_goto(st, st.stack, st.globals, st.printed, st.pc, ln),
                        },
                        None => RunResult {
                            out: RunOutcome::Fail("unallocated constant"@),
                            st: st_goto(st, st.stack, st.globals, st.printed, st.pc, ln),
                        },
                    }
                } else {
                    RunResult {
                        out: RunOutcome::Fail("unallocated constant"@),
                        st: st_goto(st, st.stack, st.globals, st.printed, st.pc, ln),
                    }
                }
            },
            Op::Pop => {
                if st.stack.len() < 1 {
                    RunResult {
                        out: RunOutcome::Fail("stack underflow"@),
                        st: st_goto(st, st.stack, st.globals, st.printed, st.pc, ln),
                    }
                } else {
                    spec_run(
                        st_goto(st, st.stack.drop_last(), st.globals, st.printed, st.pc + 1, ln),
                    )
                }
            },
            Op::True => spec_run(
                st_goto(
                    st,
                    st.stack.push(GValue::Bool(true)),
                    st.globals,
                    st.printed,
                    st.pc + 1,
                    ln,
                ),
            ),
            Op::False => spec_run(
                st_goto(
                    st,
                    st.stack.push(GValue::Bool(false)),
                    st.globals,
                    st.printed,
                    st.pc + 1,
                    ln,
                ),
            ),
            Op::Nil => spec_run(
                st_goto(st, st.stack.push(GValue::Nil), st.globals, st.printed, st.pc + 1, ln),
            ),
            Op::Not | Op::Negate => {
                if st.stack.len() < 1 {
                    RunResult {
                        out: RunOutcome::Fail("stack underflow"@),
                        st: st_goto(st, st.stack, st.globals, st.printed, st.pc, ln),
                    }
                } else {
                    match gunary(op, st.stack.last()) {
                        Some(v) => spec_run(
                            st_goto(
                                st,
                                st.stack.drop_last().push(v),
                                st.globals,
                                st.printed,
                                st.pc + 1,
                                ln,
                            ),
                        ),
                        None => RunResult {
                            out: RunOutcome::Fail("type mismatch on unary operation."@),
                            st: st_goto(st, st.stack, st.globals, st.printed, st.pc, ln),
                        },
                    }
                }
            },
            Op::Print => {
                if st.stack.len() < 1 {
                    RunResult {
                        out: RunOutcome::Fail("stack underflow"@),
                        st: st_goto(st, st.stack, st.globals, st.printed, st.pc, ln),
                    }
                } else {
                    spec_run(
                        st_goto(
                            st,
                            st.stack.drop_last(),
                            st.globals,
                            st.printed.push(st.stack.last()),
                            st.pc + 1,
                            ln,
                        ),
                    )
                }
            },
            Op::Return => {
                let v = if st.stack.len() == 0 {
                    GValue::Nil
                } else {
                    st.stack.last()
                };
                RunResult {
                    out: RunOutcome::Done(v),
                    st: st_goto(st, st.stack, st.globals, st.printed, st.pc, ln),
                }
            },
            _ => {
                // The twelve binary opcodes.
                if st.stack.len() < 2 {
                    RunResult {
                        out: RunOutcome::Fail("stack underflow"@),
                        st: st_goto(st, st.stack, st.globals, st.printed, st.pc, ln),
                    }
                } else {
                    let rhs = st.stack.last();
                    let lhs = st.stack[st.stack.len() - 2];
                    let rest = st.stack.drop_last().drop_last();
                    match gbinary(op, lhs, rhs) {
                        Ok(GEval::Val(v)) => spec_run(
                            st_goto(st, rest.push(v), st.globals, st.printed, st.pc + 1, ln),
                        ),
                        Ok(GEval::NumOp(a, b)) => RunResult {
                            out: RunOutcome::NumRequest(op, a, b),
                            st: st_goto(st, rest, st.globals, st.printed, st.pc + 1, ln),
                        },
                        Err(m) => RunResult {
                            out: RunOutcome::Fail(m),
                            st: st_goto(st, rest, st.globals, st.printed, st.pc, ln),
                        },
                    }
                }
            },
        }
    }
}



/// The shadow of a stack or output list of values.
pub open spec fn vals(s: Seq<Value>) -> Seq<GValue> {
    s.map_values(|v: Value| v@)
}

/// The mathematical state of a machine running chunk `ch` with the given
/// registers.
pub open spec fn live_model(ch: Chunk, vm: VM) -> MState {
    MState {
        code: ch.code@,
        consts: consts_view(ch.constants.slots()),
        stack: vals(vm.stack@),
        globals: globals_map(vm.globals@),
        printed: vals(vm.printed@),
        pc: vm.pc as int,
        line: vm.line as int,
    }
}

/// How one call into the machine ends: a finished run with its value, or a
/// request to combine two number patterns with the arithmetic opcode that
/// asked, whose result `resume_arith` takes back.
#[derive(Debug, Clone, PartialEq)]
pub enum Step {
    Done(Value),
    Arith(Op, u64, u64),
}

pub struct VM {
    pub stack: Vec<Value>,
    pub chunk: Option<Chunk>,
    pub globals: Vec<(String, Value)>,
    pub line: usize,
    pub pc: usize,
    pub pending: bool,
    pub printed: Vec<Value>,
}

/// What a finished call into the machine guarantees, relative to the run of
/// the mathematical machine from `m0`: the outcome is the same, the global
/// environment, printed values and current line are those the model ends
/// with, and on an arithmetic request the whole machine state matches the
/// model's, ready to be resumed.
pub open spec fn run_post(m0: MState, vm: VM, r: Result<Step, String>) -> bool {
    let res = spec_run(m0);
    match r {
        Ok(Step::Done(v)) => {
            &&& res.out == RunOutcome::Done(v@)
            &&& vm.chunk is None
            &&& vm.stack@.len() == 0
            &&& !vm.pending
            &&& globals_map(vm.globals@) == res.st.globals
            &&& vals(vm.printed@) == res.st.printed
            &&& vm.line as int == res.st.line
        },
        Ok(Step::Arith(op, a, b)) => {
            &&& res.out == RunOutcome::NumRequest(op, a, b)
            &&& vm.pending
            &&& vm.chunk is Some
            &&& vm.model() == res.st
        },
        Err(e) => {
            &&& res.out == RunOutcome::Fail(e@)
            &&& vm.chunk is None
            &&& vm.stack@.len() == 0
            &&& !vm.pending
            &&& globals_map(vm.globals@) == res.st.globals
            &&& vals(vm.printed@) == res.st.printed
            &&& vm.line as int == res.st.line
        },
    }
}

impl VM {
    /// The mathematical state this machine is in, when a chunk is loaded.
    pub open spec fn model(self) -> MState {
        match self.chunk {
            Some(ch) => live_model(ch, self),
            None => MState {
                code: Seq::empty(),
                consts: Seq::empty(),
                stack: Seq::empty(),
                globals: globals_map(self.globals@),
                printed: vals(self.printed@),
                pc: 0,
                line: self.line as int,
            },
        }
    }

    /// Well-formedness: global names are unique; with a chunk loaded, the
    /// chunk is runnable and the stack holds exactly the depth the opcodes
    /// before `pc` produce (one less while an arithmetic result is owed).
    pub open spec fn wf(self) -> bool {
        &&& unique_keys(self.globals@)
        &&& match self.chunk {
            None => self.stack@.len() == 0 && !self.pending,
            Some(ch) => {
                &&& ch.wf()
                &&& runnable(ch)
                &&& self.pc <= ch.code@.len()
                &&& if self.pending {
                    self.stack@.len() + 1 == depth_at(chunk_ops(ch), self.pc as int)
                } else {
                    self.stack@.len() == depth_at(chunk_ops(ch), self.pc as int)
                }
            },
        }
    }

    pub fn new() -> (vm: VM)
        ensures
            vm.wf(),
            vm.chunk is None,
            !vm.pending,
            vm.globals@.len() == 0,
            vm.stack@.len() == 0,
            vm.printed@.len() == 0,
            vm.line == 0,
    {
        VM {
            stack: Vec::new(),
            chunk: None,
            globals: Vec::new(),
            line: 0,
            pc: 0,
            pending: false,
            printed: Vec::new(),
        }
    }

    /// Load a chunk, readying it to run from its first opcode on a fresh
    /// stack. The global environment persists.
    pub fn load_chunk(&mut self, chunk: Chunk)
        requires
            old(self).wf(),
            chunk.wf(),
            runnable(chunk),
        ensures
            final(self).wf(),
            final(self).chunk == Some(chunk),
            final(self).pc == 0,
            !final(self).pending,
            final(self).stack@.len() == 0,
            final(self).globals == old(self).globals,
            final(self).printed == old(self).printed,
            final(self).line == old(self).line,
    {
        self.chunk = Some(chunk);
        self.pc = 0;
        self.pending = false;
        self.stack = Vec::new();
    }

    /// Run the loaded chunk from the start (or wherever `pc` stands): the
    /// run proceeds exactly as `spec_run` says of the machine's model.
    pub fn execute_loaded_chunk(&mut self) -> (r: Result<Step, String>)
        requires
            old(self).wf(),
            !old(self).pending,
        ensures
            final(self).wf(),
            match old(self).chunk {
                Some(_) => run_post(old(self).model(), *final(self), r),
                None => {
                    &&& *final(self) == *old(self)
                    &&& r matches Err(e) && e@ == "no chunk has been loaded."@
                },
            },
    {
        if self.chunk.is_none() {
            return Err(lit_string("no chunk has been loaded."));
        }
        self.run()
    }

    /// Hand back the bit pattern the embedder computed for the arithmetic
    /// request the machine stopped at, and go on running: the run proceeds
    /// as `spec_run` says of the model with that number pushed.
    pub fn resume_arith(&mut self, result: u64) -> (r: Result<Step, String>)
        requires
            old(self).wf(),
            old(self).pending,
        ensures
            final(self).wf(),
            run_post(
                st_goto(
                    old(self).model(),
                    old(self).model().stack.push(GValue::Num(result)),
                    old(self).model().globals,
                    old(self).model().printed,
                    old(self).model().pc,
                    old(self).model().line,
                ),
                *final(self),
                r,
            ),
    {
        self.stack.push(Value::Number(result));
        self.pending = false;
        proof {
            assert(vals(self.stack@) =~= vals(old(self).stack@).push(GValue::Num(result)));
        }
        self.run()
    }

    /// The four comparison operator names are pairwise distinct strings.
    proof fn cmp_literal_facts()
        ensures
            "<"@ != "<="@,
            "<"@ != ">"@,
            "<"@ != ">="@,
            "<="@ != ">"@,
            "<="@ != ">="@,
            ">"@ != ">="@,
    {
        reveal_strlit("<");
        reveal_strlit("<=");
        reveal_strlit(">");
        reveal_strlit(">=");
        assert("<"@.len() == 1);
        assert("<="@.len() == 2);
        assert(">"@.len() == 1);
        assert(">="@.len() == 2);
        assert("<"@[0] == '<');
        assert(">"@[0] == '>');
        assert("<="@[0] == '<');
        assert(">="@[0] == '>');
    }

    /// One binary opcode applied to two operands, as `gbinary` says.
    fn binary_op(op: Op, lhs: Value, rhs: Value) -> (r: Result<Eval, String>)
        ensures
            match gbinary(op, lhs@, rhs@) {
                Ok(ge) => r matches Ok(e) && e@ == ge,
                Err(m) => r matches Err(s) && s@ == m,
            },
    {
        proof {
            Self::cmp_literal_facts();
        }
        match op {
            Op::Add => lhs.add(rhs),
            Op::Sub => lhs.sub(rhs),
            Op::Mul => lhs.mul(rhs),
            Op::Div => lhs.div(rhs),
            Op::Equal => Ok(Eval::Val(Value::Bool(lhs.equals(&rhs)))),
            Op::NotEqual => Ok(Eval::Val(Value::Bool(!lhs.equals(&rhs)))),
            Op::GreaterThan => match lhs.compare(rhs, ">") {
                Ok(v) => Ok(Eval::Val(v)),
                Err(e) => Err(e),
            },
            Op::GreaterEq => match lhs.compare(rhs, ">=") {
                Ok(v) => Ok(Eval::Val(v)),
                Err(e) => Err(e),
            },
            Op::LessThan => match lhs.compare(rhs, "<") {
                Ok(v) => Ok(Eval::Val(v)),
                Err(e) => Err(e),
            },
            Op::LessEq => match lhs.compare(rhs, "<=") {
                Ok(v) => Ok(Eval::Val(v)),
                Err(e) => Err(e),
            },
            Op::And => match lhs.and(rhs) {
                Ok(v) => Ok(Eval::Val(v)),
                Err(e) => Err(e),
            },
            Op::Or => match lhs.or(rhs) {
                Ok(v) => Ok(Eval::Val(v)),
                Err(e) => Err(e),
            },
            _ => Err(lit_string("invalid binary operation.")),
        }
    }

    /// One unary opcode applied to its operand, as `gunary` says.
    fn unary_op(op: Op, v: Value) -> (r: Option<Value>)
        ensures
            match gunary(op, v@) {
                Some(gv) => r matches Some(nv) && nv@ == gv,
                None => r is None,
            },
    {
        match op {
            Op::Negate => v.unary('-'),
            Op::Not => v.unary('!'),
            _ => None,
        }
    }

    /// The dispatch loop.
    #[verifier::rlimit(100)]
    fn run(&mut self) -> (r: Result<Step, String>)
        requires
            old(self).wf(),
            !old(self).pending,
            old(self).chunk is Some,
        ensures
            final(self).wf(),
            run_post(old(self).model(), *final(self), r),
    {
        let ghost m0 = old(self).model();
        let ch = self.chunk.take().unwrap();
        loop
            invariant
                ch.wf(),
                runnable(ch),
                self.chunk is None,
                !self.pending,
                unique_keys(self.globals@),
                self.pc <= ch.code@.len(),
                self.stack@.len() == depth_at(chunk_ops(ch), self.pc as int),
                spec_run(live_model(ch, *self)) == spec_run(m0),
                m0 == old(self).model(),
            decreases ch.code@.len() - self.pc,
        {
            let ghost cur = live_model(ch, *self);
            let n = ch.code.len();
            if self.pc >= n {
                self.stack = Vec::new();
                proof {
                    assert(spec_run(cur) == RunResult { out: RunOutcome::Done(GValue::Nil), st: cur });
                }
                return Ok(Step::Done(Value::Nil));
            }
            let pair = ch.code[self.pc];
            let op = pair.0;
            let ln = pair.1;
            proof {
                assert(cur.code[cur.pc] == (op, ln));
                assert(chunk_ops(ch)[self.pc as int] == op);
                assert(depth_at(chunk_ops(ch), self.pc as int) >= op_pops(op));
                assert(depth_at(chunk_ops(ch), self.pc as int + 1) == depth_at(
                    chunk_ops(ch),
                    self.pc as int,
                ) + op_delta(op));
            }
            self.line = ln;
            match op {
                Op::LoadConst(i) => {
                    let v = ch.constants.index(i).duplicate();
                    self.stack.push(v);
                    self.pc = self.pc + 1;
                    proof {
                        assert(cur.consts[i as int] == consts_view(ch.constants.slots())[i as int]);
                        assert(cur.consts[i as int] == Some(v@));
                        assert(vals(self.stack@) =~= cur.stack.push(v@));
                        assert(live_model(ch, *self) == st_goto(
                            cur,
                            cur.stack.push(v@),
                            cur.globals,
                            cur.printed,
                            cur.pc + 1,
                            ln as int,
                        ));
                    }
                },
                Op::DefineGlobal(i) => {
                    let nm = ch.constants.index(i).duplicate();
                    match nm {
                        Value::Str(name) => {
                            let ghost gname = name@;
                            let v = self.stack.pop().unwrap();
                            define_global(&mut self.globals, name, v);
                            self.pc = self.pc + 1;
                            proof {
                                assert(cur.consts[i as int] == consts_view(
                                    ch.constants.slots(),
                                )[i as int]);
                                assert(cur.consts[i as int] == Some(GValue::Str(gname)));
                                assert(vals(self.stack@) =~= cur.stack.drop_last());
                                assert(v@ == cur.stack.last());
                                assert(live_model(ch, *self) == st_goto(
                                    cur,
                                    cur.stack.drop_last(),
                                    cur.globals.insert(gname, cur.stack.last()),
                                    cur.printed,
                                    cur.pc + 1,
                                    ln as int,
                                ));
                            }
                        },
                        _ => {
                            self.stack = Vec::new();
                            proof {
                                assert(cur.consts[i as int] == consts_view(
                                    ch.constants.slots(),
                                )[i as int]);
                            }
                            return Err(lit_string("invalid global name"));
                        },
                    }
                },
                Op::GetGlobal(i) => {
                    let nm = ch.constants.index(i);
                    match nm {
                        Value::Str(name) => {
                            let got = get_global(&self.globals, name.as_str());
                            proof {
                                assert(cur.consts[i as int] == consts_view(
                                    ch.constants.slots(),
                                )[i as int]);
                                assert(cur.consts[i as int] == Some(GValue::Str(name@)));
                            }
                            match got {
                                Some(v) => {
                                    self.stack.push(v);
                                    self.pc = self.pc + 1;
                                    proof {
                                        assert(vals(self.stack@) =~= cur.stack.push(
                                            cur.globals[name@],
                                        ));
                                        assert(live_model(ch, *self) == st_goto(
                                            cur,
                                            cur.stack.push(cur.globals[name@]),
                                            cur.globals,
                                            cur.printed,
                                            cur.pc + 1,
                                            ln as int,
                                        ));
                                    }
                                },
                                None => {
                                    self.stack = Vec::new();
                                    return Err(lit_string("undefined variable."));
                                },
                            }
                        },
                        _ => {
                            proof {
                                assert(cur.consts[i as int] == consts_view(
                                    ch.constants.slots(),
                                )[i as int]);
                            }
                            self.stack = Vec::new();
                            return Err(lit_string("invalid global name"));
                        },
                    }
                },
                Op::SetGlobal(i) => {
                    if self.stack.len() == 0 {
                        self.stack = Vec::new();
                        return Err(lit_string("stack underflow"));
                    }
                    let nm = ch.constants.index(i).duplicate();
                    match nm {
                        Value::Str(name) => {
                            let ghost gname = name@;
                            let v = self.stack[self.stack.len() - 1].duplicate();
                            let ok = assign_global(&mut self.globals, name.as_str(), v);
                            proof {
                                assert(cur.consts[i as int] == consts_view(
                                    ch.constants.slots(),
                                )[i as int]);
                                assert(cur.consts[i as int] == Some(GValue::Str(gname)));
                                assert(v@ == cur.stack.last());
                            }
                            if ok {
                                self.pc = self.pc + 1;
                                proof {
                                    assert(live_model(ch, *self) == st_goto(
                                        cur,
                                        cur.stack,
                                        cur.globals.insert(gname, cur.stack.last()),
                                        cur.printed,
                                        cur.pc + 1,
                                        ln as int,
                                    ));
                                }
                            } else {
                                self.stack = Vec::new();
                                return Err(lit_string("undefined variable."));
                            }
                        },
                        _ => {
                            self.stack = Vec::new();
                            proof {
                                assert(cur.consts[i as int] == consts_view(
                                    ch.constants.slots(),
                                )[i as int]);
                            }
                            return Err(lit_string("invalid global name"));
                        },
                    }
                },
                Op::Pop => {
                    let _ = self.stack.pop().unwrap();
                    self.pc = self.pc + 1;
                    proof {
                        assert(vals(self.stack@) =~= cur.stack.drop_last());
                        assert(live_model(ch, *self) == st_goto(
                            cur,
                            cur.stack.drop_last(),
                            cur.globals,
                            cur.printed,
                            cur.pc + 1,
                            ln as int,
                        ));
                    }
                },
                Op::True => {
                    self.stack.push(Value::Bool(true));
                    self.pc = self.pc + 1;
                    proof {
                        assert(vals(self.stack@) =~= cur.stack.push(GValue::Bool(true)));
                        assert(live_model(ch, *self) == st_goto(
                            cur,
                            cur.stack.push(GValue::Bool(true)),
                            cur.globals,
                            cur.printed,
                            cur.pc + 1,
                            ln as int,
                        ));
                    }
                },
                Op::False => {
                    self.stack.push(Value::Bool(false));
                    self.pc = self.pc + 1;
                    proof {
                        assert(vals(self.stack@) =~= cur.stack.push(GValue::Bool(false)));
                        assert(live_model(ch, *self) == st_goto(
                            cur,
                            cur.stack.push(GValue::Bool(false)),
                            cur.globals,
                            cur.printed,
                            cur.pc + 1,
                            ln as int,
                        ));
                    }
                },
                Op::Nil => {
                    self.stack.push(Value::Nil);
                    self.pc = self.pc + 1;
                    proof {
                        assert(vals(self.stack@) =~= cur.stack.push(GValue::Nil));
                        assert(live_model(ch, *self) == st_goto(
                            cur,
                            cur.stack.push(GValue::Nil),
                            cur.globals,
                            cur.printed,
                            cur.pc + 1,
                            ln as int,
                        ));
                    }
                },
                Op::Not | Op::Negate => {
                    let v = self.stack.pop().unwrap();
                    let res = Self::unary_op(op, v);
                    match res {
                        Some(nv) => {
                            self.stack.push(nv);
                            self.pc = self.pc + 1;
                            proof {
                                assert(v@ == cur.stack.last());
                                assert(vals(self.stack@) =~= cur.stack.drop_last().push(nv@));
                                assert(live_model(ch, *self) == st_goto(
                                    cur,
                                    cur.stack.drop_last().push(nv@),
                                    cur.globals,
                                    cur.printed,
                                    cur.pc + 1,
                                    ln as int,
                                ));
                            }
                        },
                        None => {
                            proof {
                                assert(v@ == cur.stack.last());
                            }
                            self.stack = Vec::new();
                            return Err(lit_string("type mismatch on unary operation."));
                        },
                    }
                },
                Op::Print => {
                    let v = self.stack.pop().unwrap();
                    self.printed.push(v);
                    self.pc = self.pc + 1;
                    proof {
                        assert(v@ == cur.stack.last());
                        assert(vals(self.stack@) =~= cur.stack.drop_last());
                        assert(vals(self.printed@) =~= cur.printed.push(cur.stack.last()));
                        assert(live_model(ch, *self) == st_goto(
                            cur,
                            cur.stack.drop_last(),
                            cur.globals,
                            cur.printed.push(cur.stack.last()),
                            cur.pc + 1,
                            ln as int,
                        ));
                    }
                },
                Op::Return => {
                    let v = if self.stack.len() == 0 {
                        Value::Nil
                    } else {
                        self.stack.pop().unwrap()
                    };
                    proof {
                        assert(spec_run(cur) == RunResult {
                            out: RunOutcome::Done(v@),
                            st: st_goto(cur, cur.stack, cur.globals, cur.printed, cur.pc, ln as int),
                        });
                    }
                    self.stack = Vec::new();
                    return Ok(Step::Done(v));
                },
                _ => {
                    let rhs = self.stack.pop().unwrap();
                    let lhs = self.stack.pop().unwrap();
                    proof {
                        assert(rhs@ == cur.stack.last());
                        assert(lhs@ == cur.stack[cur.stack.len() - 2]);
                        assert(vals(self.stack@) =~= cur.stack.drop_last().drop_last());
                    }
                    let res = Self::binary_op(op, lhs, rhs);
                    match res {
                        Ok(Eval::Val(v)) => {
                            self.stack.push(v);
                            self.pc = self.pc + 1;
                            proof {
                                assert(vals(self.stack@) =~= cur.stack.drop_last().drop_last().push(
                                    v@,
                                ));
                                assert(live_model(ch, *self) == st_goto(
                                    cur,
                                    cur.stack.drop_last().drop_last().push(v@),
                                    cur.globals,
                                    cur.printed,
                                    cur.pc + 1,
                                    ln as int,
                                ));
                            }
                        },
                        Ok(Eval::NumOp(a, b)) => {
                            self.pc = self.pc + 1;
                            self.pending = true;
                            self.chunk = Some(ch);
                            proof {
                                assert(self.model() == st_goto(
                                    cur,
                                    cur.stack.drop_last().drop_last(),
                                    cur.globals,
                                    cur.printed,
                                    cur.pc + 1,
                                    ln as int,
                                ));
                            }
                            return Ok(Step::Arith(op, a, b));
                        },
                        Err(e) => {
                            self.stack = Vec::new();
                            return Err(e);
                        },
                    }
                },
            }
        }
    }
}



/// The surfaced form of a runtime error: the failing line, then the message.
pub fn runtime_error_message(line: usize, msg: &str) -> (r: String)
    ensures
        r@ == "Runtime error, at line "@ + crate::text::dec_rep(line as int) + ": "@ + msg@,
{
    let mut s = lit_string("Runtime error, at line ");
    let d = crate::text::dec_string(line);
    s.append(d.as_str());
    s.append(": ");
    s.append(msg);
    s
}



/// Law: a well-shaped program keeps the stack in step with its opcodes'
/// static depth, so after normal termination the stack holds zero elements
/// when the final `Return` pops the result, and the run yields nil.
///
/// Stated for any starting point whose stack has the depth the opcodes
/// before it produce, so it also covers runs resumed after an arithmetic
/// request: such a request leaves the machine one value short of the depth
/// at its program counter, and pushing the computed number restores the
/// premise.
#[verifier::rlimit(60)]
pub proof fn lemma_program_stack_clean(st: MState)
    requires
        crate::compiler::program_wf(code_ops(st.code)),
        0 <= st.pc <= st.code.len(),
        st.stack.len() == depth_at(code_ops(st.code), st.pc),
    ensures
        ({
            let res = spec_run(st);
            match res.out {
                RunOutcome::Done(v) => v == GValue::Nil && res.st.stack.len() == 0,
                RunOutcome::NumRequest(op, a, b) => {
                    &&& 0 <= res.st.pc <= res.st.code.len()
                    &&& res.st.code == st.code
                    &&& res.st.stack.len() + 1 == depth_at(code_ops(st.code), res.st.pc)
                },
                RunOutcome::Fail(m) => true,
            }
        }),
    decreases st.code.len() - st.pc,
{
    let ops = code_ops(st.code);
    if st.pc == st.code.len() {
        assert(ops.len() >= 1);
        assert(depth_at(ops, ops.len() as int) == depth_at(ops, ops.len() - 1) + op_delta(
            ops[ops.len() - 1],
        ));
        assert(st.stack.len() == 0);
    } else {
        let op = st.code[st.pc].0;
        let ln = st.code[st.pc].1 as int;
        assert(ops[st.pc] == op);
        assert(depth_at(ops, st.pc) >= op_pops(op));
        assert(depth_at(ops, st.pc + 1) == depth_at(ops, st.pc) + op_delta(op));
        match op {
            Op::LoadConst(i) => {
                if 0 <= i < st.consts.len() {
                    match st.consts[i as int] {
                        Some(v) => {
                            lemma_program_stack_clean(
                                st_goto(
                                    st,
                                    st.stack.push(v),
                                    st.globals,
                                    st.printed,
                                    st.pc + 1,
                                    ln,
                                ),
                            );
                        },
                        None => {},
                    }
                }
            },
            Op::DefineGlobal(i) => {
                if 0 <= i < st.consts.len() {
                    match st.consts[i as int] {
                        Some(GValue::Str(nm)) => {
                            lemma_program_stack_clean(
                                st_goto(
                                    st,
                                    st.stack.drop_last(),
                                    st.globals.insert(nm, st.stack.last()),
                                    st.printed,
                                    st.pc + 1,
                                    ln,
                                ),
                            );
                        },
                        Some(_) => {},
                        None => {},
                    }
                }
            },
            Op::GetGlobal(i) => {
                if 0 <= i < st.consts.len() {
                    match st.consts[i as int] {
                        Some(GValue::Str(nm)) => {
                            if st.globals.contains_key(nm) {
                                lemma_program_stack_clean(
                                    st_goto(
                                        st,
                                        st.stack.push(st.globals[nm]),
                                        st.globals,
                                        st.printed,
                                        st.pc + 1,
                                        ln,
                                    ),
                                );
                            }
                        },
                        Some(_) => {},
                        None => {},
                    }
                }
            },
            Op::SetGlobal(i) => {
                if 0 <= i < st.consts.len() {
                    match st.consts[i as int] {
                        Some(GValue::Str(nm)) => {
                            if st.globals.contains_key(nm) {
                                lemma_program_stack_clean(
                                    st_goto(
                                        st,
                                        st.stack,
                                        st.globals.insert(nm, st.stack.last()),
                                        st.printed,
                                        st.pc + 1,
                                        ln,
                                    ),
                                );
                            }
                        },
                        Some(_) => {},
                        None => {},
                    }
                }
            },
            Op::Pop => {
                lemma_program_stack_clean(
                    st_goto(st, st.stack.drop_last(), st.globals, st.printed, st.pc + 1, ln),
                );
            },
            Op::True => {
                lemma_program_stack_clean(
                    st_goto(
                        st,
                        st.stack.push(GValue::Bool(true)),
                        st.globals,
                        st.printed,
                        st.pc + 1,
                        ln,
                    ),
                );
            },
            Op::False => {
                lemma_program_stack_clean(
                    st_goto(
                        st,
                        st.stack.push(GValue::Bool(false)),
                        st.globals,
                        st.printed,
                        st.pc + 1,
                        ln,
                    ),
                );
            },
            Op::Nil => {
                lemma_program_stack_clean(
                    st_goto(st, st.stack.push(GValue::Nil), st.globals, st.printed, st.pc + 1, ln),
                );
            },
            Op::Not | Op::Negate => {
                match gunary(op, st.stack.last()) {
                    Some(v) => {
                        lemma_program_stack_clean(
                            st_goto(
                                st,
                                st.stack.drop_last().push(v),
                                st.globals,
                                st.printed,
                                st.pc + 1,
                                ln,
                            ),
                        );
                    },
                    None => {},
                }
            },
            Op::Print => {
                lemma_program_stack_clean(
                    st_goto(
                        st,
                        st.stack.drop_last(),
                        st.globals,
                        st.printed.push(st.stack.last()),
                        st.pc + 1,
                        ln,
                    ),
                );
            },
            Op::Return => {
                // `Return` stands only at the end, where the depth is zero.
                if st.pc < st.code.len() - 1 {
                    assert(ops.drop_last()[st.pc] == ops[st.pc]);
                    assert(false);
                }
                assert(st.stack.len() == 0);
            },
            _ => {
                let rhs = st.stack.last();
                let lhs = st.stack[st.stack.len() - 2];
                let rest = st.stack.drop_last().drop_last();
                match gbinary(op, lhs, rhs) {
                    Ok(GEval::Val(v)) => {
                        lemma_program_stack_clean(
                            st_goto(st, rest.push(v), st.globals, st.printed, st.pc + 1, ln),
                        );
                    },
                    Ok(GEval::NumOp(a, b)) => {},
                    Err(m) => {},
                }
            },
        }
    }
}

/// Law: the `Equal` opcode is reflexive for every nil, boolean and string
/// value and for every number that is not a NaN, and `NotEqual` is its
/// negation.
pub proof fn lemma_equal_opcode_reflexive(v: GValue)
    requires
        match v {
            GValue::Num(b) => !nan_bits(b),
            _ => true,
        },
    ensures
        gbinary(Op::Equal, v, v) == Ok::<GEval, Seq<char>>(GEval::Val(GValue::Bool(true))),
        gbinary(Op::NotEqual, v, v) == Ok::<GEval, Seq<char>>(GEval::Val(GValue::Bool(false))),
{
    crate::value::lemma_val_eq_reflexive(v);
}

/// Law: defining a global and reading it straight back yields the defined
/// value. For any state about to run `DefineGlobal(i)` then `GetGlobal(i)`
/// of the name `nm` with `v` on top of the stack, the run continues from
/// the state after both opcodes with the same stack (the definition
/// consumed `v`, the read pushed it back) and with `nm` bound to `v`.
pub proof fn lemma_define_then_get(st: MState, i: usize, nm: Seq<char>, v: GValue)
    requires
        0 <= st.pc,
        st.pc + 2 <= st.code.len(),
        st.code[st.pc].0 == Op::DefineGlobal(i),
        st.code[st.pc + 1].0 == Op::GetGlobal(i),
        0 <= i < st.consts.len(),
        st.consts[i as int] == Some(GValue::Str(nm)),
        st.stack.len() >= 1,
        st.stack.last() == v,
    ensures
        spec_run(st) == spec_run(
            st_goto(
                st,
                st.stack,
                st.globals.insert(nm, v),
                st.printed,
                st.pc + 2,
                st.code[st.pc + 1].1 as int,
            ),
        ),
{
    let ln0 = st.code[st.pc].1 as int;
    let ln1 = st.code[st.pc + 1].1 as int;
    let st1 = st_goto(
        st,
        st.stack.drop_last(),
        st.globals.insert(nm, v),
        st.printed,
        st.pc + 1,
        ln0,
    );
    assert(spec_run(st) == spec_run(st1));
    let st2 = st_goto(
        st1,
        st1.stack.push(st1.globals[nm]),
        st1.globals,
        st1.printed,
        st1.pc + 1,
        ln1,
    );
    assert(spec_run(st1) == spec_run(st2));
    assert(st.stack.drop_last().push(v) =~= st.stack);
    assert(st2 == st_goto(
        st,
        st.stack,
        st.globals.insert(nm, v),
        st.printed,
        st.pc + 2,
        ln1,
    ));
}


} // verus!
