//! The code each construct compiles to, as a sequence of steps. A step fixes
//! one instruction up to what depends on the compiler's state: the pool index
//! of a pushed constant (the constant itself is fixed), the slot of a local,
//! and, for placeholders, the target that an enclosing construct patches in.
use vstd::prelude::*;

use crate::ast::{BinOp, Expr, ExprKind, Literal, MatchArm, Pattern, Stmt, StmtKind, UnOp};
use crate::bytecode::{extends, value_same, Instruction, OpCode, Value};
use crate::names::join_path_spec;

verus! {

broadcast use vstd::std_specs::vec::group_vec_axioms;

pub enum Step {
    /// Exactly this opcode.
    Op(OpCode),
    /// A push of a constant equal to the literal.
    PushLit(Literal),
    PushNum(i64),
    PushStr(Seq<char>),
    PushSym(Seq<char>),
    PushEmptyList,
    /// A push of a function of this arity.
    PushFn(nat),
    /// A push of a module of this name.
    PushModule(Seq<char>),
    /// A load of the local, or else of the global, of this name.
    LoadVar(Seq<char>),
    /// A load of some local.
    LoadAny,
    /// A load of some local or global.
    LoadSome,
    /// A store into some local.
    SaveAny,
    SavgName(Seq<char>),
    LoagName(Seq<char>),
    RefName(Seq<char>),
    /// `Jmf(0)`: a check that jumps to the next clause once patched.
    Fail,
    /// `Jmp(0)`: the jump out of a `match` arm, patched by the `match`.
    Exit,
    /// `Try(0)`: a handler install whose entry is patched in later.
    TryHole,
    /// A jump this many instructions forward.
    JmpFwd(nat),
    JmfFwd(nat),
    TryFwd(nat),
}

/// The instruction `op` at index `i` is what step `st` stands for, with `c` the pool.
pub open spec fn step_ok(st: Step, op: OpCode, i: int, c: Seq<Value>) -> bool {
    match st {
        Step::Op(o) => op == o,
        Step::PushLit(l) => op matches OpCode::Push(k) && k < c.len() && value_same(c[k as int], literal_value(l)),
        Step::PushNum(n) => op matches OpCode::Push(k) && k < c.len() && c[k as int] == Value::Num(n),
        Step::PushStr(t) => op matches OpCode::Push(k) && k < c.len() && (c[k as int] matches Value::Str(x) && x@ == t),
        Step::PushSym(t) => op matches OpCode::Push(k) && k < c.len() && (c[k as int] matches Value::Sym(x) && x@ == t),
        Step::PushEmptyList => op matches OpCode::Push(k) && k < c.len() && (c[k as int] matches Value::List(v) && v.len() == 0),
        Step::PushFn(a) => op matches OpCode::Push(k) && k < c.len() && (c[k as int] matches Value::Fn(f) && f.arity == a),
        Step::PushModule(t) => op matches OpCode::Push(k) && k < c.len() && (c[k as int] matches Value::Module(m) && m.name@ == t),
        Step::LoadVar(x) => op is Load || (op matches OpCode::Loag(y) && y@ == x),
        Step::LoadAny => op is Load,
        Step::LoadSome => op is Load || op is Loag,
        Step::SaveAny => op is Save,
        Step::SavgName(x) => op matches OpCode::Savg(y) && y@ == x,
        Step::LoagName(x) => op matches OpCode::Loag(y) && y@ == x,
        Step::RefName(x) => op matches OpCode::Ref(y) && y@ == x,
        Step::Fail => op == OpCode::Jmf(0),
        Step::Exit => op == OpCode::Jmp(0),
        Step::TryHole => op == OpCode::Try(0),
        Step::JmpFwd(d) => op == OpCode::Jmp((i + d) as usize),
        Step::JmfFwd(d) => op == OpCode::Jmf((i + d) as usize),
        Step::TryFwd(d) => op == OpCode::Try((i + d) as usize),
    }
}

/// The value a literal denotes.
pub open spec fn literal_value(lit: Literal) -> Value {
    match lit {
        Literal::Nil => Value::Nil,
        Literal::Bool(b) => Value::Bool(b),
        Literal::Num(n) => Value::Num(n),
        Literal::Str(s) => Value::Str(s),
        Literal::Sym(s) => Value::Sym(s),
    }
}

/// `ops` from index `lo` on holds exactly the steps `steps`.
pub open spec fn code_matches(ops: Seq<Instruction>, lo: int, steps: Seq<Step>, c: Seq<Value>) -> bool {
    &&& 0 <= lo
    &&& lo + steps.len() <= ops.len()
    &&& forall|j: int| 0 <= j < steps.len() ==> step_ok(#[trigger] steps[j], ops[lo + j].opcode, lo + j, c)
}

/// The placeholders `Fail` of `steps` resolved to jump to index `t` of `steps`.
pub open spec fn resolve_fails(steps: Seq<Step>, t: nat) -> Seq<Step> {
    Seq::new(steps.len(), |i: int| if steps[i] is Fail { Step::JmfFwd((t - i) as nat) } else { steps[i] })
}

/// The placeholders `Exit` of `steps` resolved to jump to index `t` of `steps`.
pub open spec fn resolve_exits(steps: Seq<Step>, t: nat) -> Seq<Step> {
    Seq::new(steps.len(), |i: int| if steps[i] is Exit { Step::JmpFwd((t - i) as nat) } else { steps[i] })
}

/// Indices of the `Fail` steps, for steps laid out from `lo`.
pub open spec fn fail_set(steps: Seq<Step>, lo: int) -> Set<int> {
    Set::new(|i: int| lo <= i < lo + steps.len() && steps[i - lo] is Fail)
}

/// Indices of the `Exit` steps, for steps laid out from `lo`.
pub open spec fn exit_set(steps: Seq<Step>, lo: int) -> Set<int> {
    Set::new(|i: int| lo <= i < lo + steps.len() && steps[i - lo] is Exit)
}

/// The failure tail `raise(msg, :MatchError)`.
pub open spec fn tail_steps(msg: Seq<char>) -> Seq<Step> {
    seq![
        Step::PushStr(msg),
        Step::PushSym("MatchError"@),
        Step::LoagName("raise"@),
        Step::Op(OpCode::Call(2)),
    ]
}

pub open spec fn binop_steps(op: BinOp) -> Seq<Step> {
    match op {
        BinOp::Add => seq![Step::Op(OpCode::Add)],
        BinOp::Sub => seq![Step::Op(OpCode::Sub)],
        BinOp::Mul => seq![Step::Op(OpCode::Mul)],
        BinOp::Div => seq![Step::Op(OpCode::Div)],
        BinOp::Rem => seq![Step::Op(OpCode::Rem)],
        BinOp::Eq => seq![Step::Op(OpCode::Eq)],
        BinOp::Ne => seq![Step::Op(OpCode::Eq), Step::Op(OpCode::Not)],
        BinOp::Less => seq![Step::Op(OpCode::Less)],
        BinOp::LessEq => seq![Step::Op(OpCode::LessEq)],
        BinOp::Greater => seq![Step::Op(OpCode::Greater)],
        BinOp::GreaterEq => seq![Step::Op(OpCode::GreaterEq)],
        BinOp::BitAnd => seq![Step::Op(OpCode::BitAnd)],
        BinOp::BitOr => seq![Step::Op(OpCode::BitOr)],
        BinOp::BitXor => seq![Step::Op(OpCode::Xor)],
        BinOp::Shl => seq![Step::Op(OpCode::Shl)],
        BinOp::Shr => seq![Step::Op(OpCode::Shr)],
        BinOp::And | BinOp::Or => Seq::empty(),
    }
}

pub open spec fn unop_step(op: UnOp) -> Step {
    match op {
        UnOp::Not => Step::Op(OpCode::Not),
        UnOp::Neg => Step::Op(OpCode::Neg),
        UnOp::Len => Step::Op(OpCode::Len),
    }
}

/// The code of a pattern matched against the value on top of the stack;
/// identifiers bind globals when `global`.
pub open spec fn pattern_code(p: Pattern, global: bool) -> Seq<Step>
    decreases p, 1nat,
{
    match p {
        Pattern::Lit(l) => seq![Step::PushLit(l), Step::Op(OpCode::Eq), Step::Fail],
        Pattern::Id(x) => if x@ == seq!['_'] {
            seq![Step::Op(OpCode::Pop)]
        } else if global {
            seq![Step::SavgName(x@)]
        } else {
            seq![Step::SaveAny]
        },
        Pattern::Variant(path, args) => seq![
            Step::Op(OpCode::Dup),
            Step::SaveAny,
            Step::Op(OpCode::TagOf),
            Step::PushSym(join_path_spec(path@)),
            Step::Op(OpCode::Eq),
            Step::Fail,
            Step::LoadAny,
            Step::Op(OpCode::TagTup),
            Step::Op(OpCode::Len),
            Step::PushNum(args.len() as i64),
            Step::Op(OpCode::Eq),
            Step::Fail,
        ] + variant_items(args@, global),
        Pattern::Tuple(args) => seq![
            Step::SaveAny,
            Step::LoadAny,
            Step::Op(OpCode::Len),
            Step::PushNum(args.len() as i64),
            Step::Op(OpCode::Eq),
            Step::Fail,
        ] + tuple_items(args@, global),
        Pattern::List(h, t) => seq![
            Step::SaveAny,
            Step::LoadAny,
            Step::LoagName("List"@),
            Step::RefName("head"@),
            Step::Op(OpCode::Call(1)),
        ] + pattern_code(*h, global) + seq![
            Step::LoadAny,
            Step::LoagName("List"@),
            Step::RefName("tail"@),
            Step::Op(OpCode::Call(1)),
        ] + pattern_code(*t, global),
        Pattern::EmptyList => seq![Step::PushEmptyList, Step::Op(OpCode::Eq), Step::Fail],
    }
}

/// The fields of a variant pattern, each taken from the payload and matched.
pub open spec fn variant_items(ps: Seq<Pattern>, global: bool) -> Seq<Step>
    decreases ps, 0nat,
{
    if ps.len() == 0 {
        Seq::empty()
    } else {
        let n = ps.len() - 1;
        variant_items(ps.subrange(0, n), global) + seq![
            Step::LoadAny,
            Step::Op(OpCode::TagTup),
            Step::Op(OpCode::TupGet(n as usize)),
        ] + pattern_code(ps[n], global)
    }
}

/// The elements of a tuple pattern, each taken from the tuple and matched.
pub open spec fn tuple_items(ps: Seq<Pattern>, global: bool) -> Seq<Step>
    decreases ps, 0nat,
{
    if ps.len() == 0 {
        Seq::empty()
    } else {
        let n = ps.len() - 1;
        tuple_items(ps.subrange(0, n), global) + seq![
            Step::LoadAny,
            Step::Op(OpCode::TupGet(n as usize)),
        ] + pattern_code(ps[n], global)
    }
}

/// The names a pattern binds: its identifiers other than `_`, left to right.
pub open spec fn pattern_names(p: Pattern) -> Seq<Seq<char>>
    decreases p, 1nat,
{
    match p {
        Pattern::Id(x) => if x@ == seq!['_'] { Seq::empty() } else { seq![x@] },
        Pattern::Variant(_, args) => patterns_names(args@),
        Pattern::Tuple(args) => patterns_names(args@),
        Pattern::List(h, t) => pattern_names(*h) + pattern_names(*t),
        _ => Seq::empty(),
    }
}

pub open spec fn patterns_names(ps: Seq<Pattern>) -> Seq<Seq<char>>
    decreases ps, 0nat,
{
    if ps.len() == 0 {
        Seq::empty()
    } else {
        patterns_names(ps.subrange(0, ps.len() - 1)) + pattern_names(ps[ps.len() - 1])
    }
}

/// Code already in place stays in place as the buffer and the pool grow.
pub proof fn lemma_code_extend(
    ops: Seq<Instruction>,
    c: Seq<Value>,
    lo: int,
    s: Seq<Step>,
    ops2: Seq<Instruction>,
    c2: Seq<Value>,
)
    requires
        code_matches(ops, lo, s, c),
        extends(ops, ops2),
        extends(c, c2),
    ensures
        code_matches(ops2, lo, s, c2),
{
    assert forall|j: int| 0 <= j < s.len() implies step_ok(#[trigger] s[j], ops2[lo + j].opcode, lo + j, c2) by {
        assert(step_ok(s[j], ops[lo + j].opcode, lo + j, c));
        assert(ops2[lo + j] == ops[lo + j]);
        match ops[lo + j].opcode {
            OpCode::Push(k) => {
                if k < c.len() {
                    assert(c2[k as int] == c[k as int]);
                }
            },
            _ => {},
        }
    }
}

/// Code laid out after code extends it.
pub proof fn lemma_code_append(
    ops: Seq<Instruction>,
    c: Seq<Value>,
    lo: int,
    acc: Seq<Step>,
    ops2: Seq<Instruction>,
    c2: Seq<Value>,
    piece: Seq<Step>,
)
    requires
        code_matches(ops, lo, acc, c),
        lo + acc.len() == ops.len(),
        extends(ops, ops2),
        extends(c, c2),
        code_matches(ops2, ops.len() as int, piece, c2),
    ensures
        code_matches(ops2, lo, acc + piece, c2),
{
    lemma_code_extend(ops, c, lo, acc, ops2, c2);
    let all = acc + piece;
    assert forall|j: int| 0 <= j < all.len() implies step_ok(#[trigger] all[j], ops2[lo + j].opcode, lo + j, c2) by {
        if j < acc.len() {
            assert(all[j] == acc[j]);
        } else {
            assert(all[j] == piece[j - acc.len()]);
            assert(step_ok(piece[j - acc.len()], ops2[ops.len() + (j - acc.len())].opcode, ops.len() + (j - acc.len()), c2));
        }
    }
}

/// The last instruction of `ops` is what `st` stands for.
pub proof fn lemma_code_last(ops: Seq<Instruction>, st: Step, c: Seq<Value>)
    requires
        ops.len() > 0,
        step_ok(st, ops[ops.len() - 1].opcode, ops.len() - 1, c),
    ensures
        code_matches(ops, ops.len() - 1, seq![st], c),
{
    assert(seq![st][0] == st);
}

pub proof fn lemma_fail_set_append(a: Seq<Step>, b: Seq<Step>, lo: int)
    ensures
        fail_set(a + b, lo) == fail_set(a, lo).union(fail_set(b, lo + a.len())),
        exit_set(a + b, lo) == exit_set(a, lo).union(exit_set(b, lo + a.len())),
{
    assert(fail_set(a + b, lo) =~= fail_set(a, lo).union(fail_set(b, lo + a.len()))) by {
        assert forall|i: int| fail_set(a + b, lo).contains(i) == fail_set(a, lo).union(fail_set(b, lo + a.len())).contains(i) by {
            if lo <= i < lo + a.len() {
                assert((a + b)[i - lo] == a[i - lo]);
            } else if lo + a.len() <= i < lo + a.len() + b.len() {
                assert((a + b)[i - lo] == b[i - lo - a.len()]);
            }
        }
    }
    assert(exit_set(a + b, lo) =~= exit_set(a, lo).union(exit_set(b, lo + a.len()))) by {
        assert forall|i: int| exit_set(a + b, lo).contains(i) == exit_set(a, lo).union(exit_set(b, lo + a.len())).contains(i) by {
            if lo <= i < lo + a.len() {
                assert((a + b)[i - lo] == a[i - lo]);
            } else if lo + a.len() <= i < lo + a.len() + b.len() {
                assert((a + b)[i - lo] == b[i - lo - a.len()]);
            }
        }
    }
}

/// Patching the `Fail` sites of laid-out code to jump to `n` resolves them.
pub proof fn lemma_resolve_fails(
    ops: Seq<Instruction>,
    ops2: Seq<Instruction>,
    lo: int,
    s: Seq<Step>,
    c: Seq<Value>,
    n: int,
)
    requires
        code_matches(ops, lo, s, c),
        ops2.len() == ops.len(),
        0 <= n <= usize::MAX,
        forall|i: int| 0 <= i < ops.len() && !fail_set(s, lo).contains(i) ==> #[trigger] ops2[i] == ops[i],
        forall|i: int| #[trigger] fail_set(s, lo).contains(i) ==> ops2[i].opcode == OpCode::Jmf(n as usize),
        lo + s.len() <= n,
    ensures
        code_matches(ops2, lo, resolve_fails(s, (n - lo) as nat), c),
{
    let r = resolve_fails(s, (n - lo) as nat);
    assert forall|j: int| 0 <= j < r.len() implies step_ok(#[trigger] r[j], ops2[lo + j].opcode, lo + j, c) by {
        assert(step_ok(s[j], ops[lo + j].opcode, lo + j, c));
        if s[j] is Fail {
            assert(fail_set(s, lo).contains(lo + j));
        } else {
            assert(!fail_set(s, lo).contains(lo + j));
        }
    }
}

/// Patching the `Exit` sites of laid-out code to jump to `n` resolves them.
pub proof fn lemma_resolve_exits(
    ops: Seq<Instruction>,
    ops2: Seq<Instruction>,
    lo: int,
    s: Seq<Step>,
    c: Seq<Value>,
    n: int,
)
    requires
        code_matches(ops, lo, s, c),
        ops2.len() == ops.len(),
        0 <= n <= usize::MAX,
        forall|i: int| 0 <= i < ops.len() && !exit_set(s, lo).contains(i) ==> #[trigger] ops2[i] == ops[i],
        forall|i: int| #[trigger] exit_set(s, lo).contains(i) ==> ops2[i].opcode == OpCode::Jmp(n as usize),
        lo + s.len() <= n,
    ensures
        code_matches(ops2, lo, resolve_exits(s, (n - lo) as nat), c),
{
    let r = resolve_exits(s, (n - lo) as nat);
    assert forall|j: int| 0 <= j < r.len() implies step_ok(#[trigger] r[j], ops2[lo + j].opcode, lo + j, c) by {
        assert(step_ok(s[j], ops[lo + j].opcode, lo + j, c));
        if s[j] is Exit {
            assert(exit_set(s, lo).contains(lo + j));
        } else {
            assert(!exit_set(s, lo).contains(lo + j));
        }
    }
}

/// One more instruction, standing for `st`, extends laid-out code by that step.
pub proof fn lemma_code_step(
    ops: Seq<Instruction>,
    c: Seq<Value>,
    lo: int,
    acc: Seq<Step>,
    ops2: Seq<Instruction>,
    c2: Seq<Value>,
    st: Step,
)
    requires
        code_matches(ops, lo, acc, c),
        lo + acc.len() == ops.len(),
        extends(ops, ops2),
        ops2.len() == ops.len() + 1,
        extends(c, c2),
        step_ok(st, ops2[ops.len() as int].opcode, ops.len() as int, c2),
    ensures
        code_matches(ops2, lo, acc.push(st), c2),
        fail_set(acc.push(st), lo) == (if st is Fail {
            fail_set(acc, lo).insert(ops.len() as int)
        } else {
            fail_set(acc, lo)
        }),
        exit_set(acc.push(st), lo) == (if st is Exit {
            exit_set(acc, lo).insert(ops.len() as int)
        } else {
            exit_set(acc, lo)
        }),
{
    lemma_code_last(ops2, st, c2);
    lemma_code_append(ops, c, lo, acc, ops2, c2, seq![st]);
    assert(acc + seq![st] =~= acc.push(st));
    lemma_fail_set_append(acc, seq![st], lo);
    assert(fail_set(seq![st], lo + acc.len()) =~= (if st is Fail { set![lo + acc.len()] } else { Set::empty() }));
    assert(exit_set(seq![st], lo + acc.len()) =~= (if st is Exit { set![lo + acc.len()] } else { Set::empty() }));
    assert(fail_set(acc, lo).union(set![lo + acc.len()]) =~= fail_set(acc, lo).insert(lo + acc.len()));
    assert(exit_set(acc, lo).union(set![lo + acc.len()]) =~= exit_set(acc, lo).insert(lo + acc.len()));
    assert(fail_set(acc, lo).union(Set::empty()) =~= fail_set(acc, lo));
    assert(exit_set(acc, lo).union(Set::empty()) =~= exit_set(acc, lo));
}

/// The views of a sequence of strings.
pub open spec fn views(s: Seq<String>) -> Seq<Seq<char>> {
    s.map_values(|x: String| x@)
}

pub proof fn lemma_views_append(a: Seq<String>, b: Seq<String>)
    ensures
        views(a + b) == views(a) + views(b),
{
    assert(views(a + b) =~= views(a) + views(b));
}

/// The code an expression compiles to; it leaves one value on the stack.
pub open spec fn expr_code(e: Expr) -> Seq<Step>
    decreases e, 1nat,
{
    match e.kind {
        ExprKind::Lit(l) => seq![Step::PushLit(l)],
        ExprKind::Lambda { args, .. } => seq![Step::PushFn(args.len() as nat)],
        ExprKind::App { callee, args, tail } => exprs_code(args@) + (if args.len() > 1 {
            seq![Step::Op(OpCode::RevN(args.len()))]
        } else {
            Seq::empty()
        }) + expr_code(*callee) + seq![
            Step::Op(
                if tail {
                    OpCode::TCall(args.len())
                } else {
                    OpCode::Call(args.len())
                },
            ),
        ],
        ExprKind::Var(x) => seq![Step::LoadVar(x@)],
        ExprKind::If { cond, then, else_ } => expr_code(*cond) + seq![
            Step::JmfFwd(expr_code(*then).len() + 2),
        ] + expr_code(*then) + seq![Step::JmpFwd(expr_code(*else_).len() + 1)] + expr_code(*else_),
        ExprKind::Match { expr, arms } => expr_code(*expr) + seq![
            Step::SaveAny,
            Step::PushStr("Starting match"@),
            Step::Op(OpCode::Pop),
        ] + resolve_exits(arms_code(arms@), arms_code(arms@).len() + 4) + tail_steps(
            "Couldn't match any clause"@,
        ),
        ExprKind::Let { bind, value, body } => expr_code(*value) + resolve_fails(
            pattern_code(bind, false),
            pattern_code(bind, false).len() + expr_code(*body).len() + 1,
        ) + expr_code(*body) + seq![Step::JmpFwd(5)] + tail_steps("No match of rhs value"@),
        ExprKind::Def { bind, body } => expr_code(*bind.value) + seq![Step::SaveAny] + expr_code(*body),
        ExprKind::Binary { left, op, right } => if op == BinOp::And {
            expr_code(*left) + seq![
                Step::Op(OpCode::Dup),
                Step::JmfFwd(expr_code(*right).len() + 2),
                Step::Op(OpCode::Pop),
            ] + expr_code(*right)
        } else if op == BinOp::Or {
            expr_code(*left) + seq![
                Step::Op(OpCode::Dup),
                Step::Op(OpCode::Not),
                Step::JmfFwd(expr_code(*right).len() + 2),
                Step::Op(OpCode::Pop),
            ] + expr_code(*right)
        } else {
            expr_code(*left) + expr_code(*right) + binop_steps(op)
        },
        ExprKind::List(xs) => exprs_code(xs@) + seq![Step::PushEmptyList] + Seq::new(
            xs.len() as nat,
            |i: int| Step::Op(OpCode::Prep),
        ),
        ExprKind::Cons { head, tail } => expr_code(*head) + expr_code(*tail) + seq![Step::Op(OpCode::Prep)],
        ExprKind::UnOp(op, right) => expr_code(*right) + seq![unop_step(op)],
        ExprKind::MethodRef { ty, method } => expr_code(*ty) + seq![Step::Op(OpCode::Ref(method))],
        ExprKind::Try { body, rescue, .. } => seq![Step::TryFwd(expr_code(*body).len() + 3)] + expr_code(
            *body,
        ) + seq![
            Step::Op(OpCode::EndTry),
            Step::JmpFwd(expr_code(*rescue).len() + 3),
            Step::Op(OpCode::Pop),
            Step::SaveAny,
        ] + expr_code(*rescue),
        ExprKind::Tuple(xs) => exprs_code_rev(xs@) + seq![Step::Op(OpCode::Tup(xs.len()))],
    }
}

/// The code of each expression in turn.
pub open spec fn exprs_code(s: Seq<Expr>) -> Seq<Step>
    decreases s, 0nat,
{
    if s.len() == 0 {
        Seq::empty()
    } else {
        exprs_code(s.subrange(0, s.len() - 1)) + expr_code(s[s.len() - 1])
    }
}

/// The code of each expression, from the last to the first.
pub open spec fn exprs_code_rev(s: Seq<Expr>) -> Seq<Step>
    decreases s, 0nat,
{
    if s.len() == 0 {
        Seq::empty()
    } else {
        exprs_code_rev(s.subrange(1, s.len() as int)) + expr_code(s[0])
    }
}

/// The code of a guard: a failed guard jumps to the next clause.
pub open spec fn guard_code(g: Option<Expr>) -> Seq<Step>
    decreases g,
{
    match g {
        Some(x) => expr_code(x) + seq![Step::Fail],
        None => Seq::empty(),
    }
}

/// One arm of a `match`, given the value to match on the stack: its pattern,
/// guard and body, then an `Exit` to the end of the `match`. Failed checks jump
/// just past that `Exit`, to the next arm.
pub open spec fn arm_code(arm: MatchArm) -> Seq<Step>
    decreases arm, 0nat,
{
    let body = pattern_code(arm.cond, false) + guard_code(arm.guard) + expr_code(arm.body) + seq![
        Step::Exit,
    ];
    resolve_fails(body, body.len())
}

/// The arms of a `match`, each after a load of the matched value.
pub open spec fn arms_code(s: Seq<MatchArm>) -> Seq<Step>
    decreases s, 0nat,
{
    if s.len() == 0 {
        Seq::empty()
    } else {
        arms_code(s.subrange(0, s.len() - 1)) + seq![Step::LoadSome] + arm_code(s[s.len() - 1])
    }
}

/// The argument patterns of a function, in order.
pub open spec fn params_code(ps: Seq<Pattern>) -> Seq<Step>
    decreases ps.len(),
{
    if ps.len() == 0 {
        Seq::empty()
    } else {
        params_code(ps.subrange(0, ps.len() - 1)) + pattern_code(ps[ps.len() - 1], false)
    }
}

/// The body of a function: its argument patterns, its body, a jump over the
/// failure tail, and the tail, where every failed check lands.
pub open spec fn lambda_code(args: Seq<Pattern>, body: Expr) -> Seq<Step> {
    resolve_fails(
        params_code(args),
        params_code(args).len() + expr_code(body).len() + 1,
    ) + expr_code(body) + seq![Step::JmpFwd(5)] + tail_steps("No match of rhs value"@)
}

/// The code of a top-level statement: for `def` and `let`, the value, then a
/// global store of it (a `let` matches its pattern, each identifier stored as a
/// global, with a failed match ending in the failure tail); for a type, a push
/// of its module and a global store of it.
pub open spec fn stmt_code(st: Stmt) -> Seq<Step> {
    match st.kind {
        StmtKind::Def(d) => expr_code(d.value) + seq![Step::SavgName(d.bind@)],
        StmtKind::Let { bind, value } => expr_code(value) + resolve_fails(
            pattern_code(bind, true),
            pattern_code(bind, true).len() + 1,
        ) + seq![Step::JmpFwd(5)] + tail_steps("No match of rhs value"@),
        StmtKind::Type { name, .. } => seq![Step::PushModule(name@), Step::SavgName(name@)],
    }
}

/// The code of a sequence of top-level statements, in order.
pub open spec fn stmts_code(s: Seq<Stmt>) -> Seq<Step>
    decreases s.len(),
{
    if s.len() == 0 {
        Seq::empty()
    } else {
        stmts_code(s.subrange(0, s.len() - 1)) + stmt_code(s[s.len() - 1])
    }
}

/// No step is an unpatched `Exit`.
pub open spec fn no_exit(s: Seq<Step>) -> bool {
    forall|i: int| 0 <= i < s.len() ==> !(#[trigger] s[i] is Exit)
}

/// The one `Exit` of an arm is its last step.
pub proof fn lemma_arm_exit(a: MatchArm, p: int)
    ensures
        arm_code(a).len() >= 1,
        exit_set(arm_code(a), p) == set![p + arm_code(a).len() - 1],
{
    lemma_pattern_no_exit(a.cond, false);
    lemma_expr_no_exit(a.body);
    if a.guard is Some {
        lemma_expr_no_exit(a.guard->0);
    }
    let pc = pattern_code(a.cond, false);
    let gc = guard_code(a.guard);
    let bc = expr_code(a.body);
    let body = pc + gc + bc + seq![Step::Exit];
    let r = arm_code(a);
    assert(r == resolve_fails(body, body.len()));
    assert forall|i: int| exit_set(r, p).contains(i) == set![p + r.len() - 1].contains(i) by {
        if p <= i < p + r.len() {
            let k = i - p;
            if k < pc.len() {
                assert(body[k] == pc[k]);
            } else if k < pc.len() + gc.len() {
                assert(body[k] == gc[k - pc.len()]);
                if a.guard is Some {
                    let ec = expr_code(a.guard->0);
                    if k - pc.len() < ec.len() {
                        assert(gc[k - pc.len()] == ec[k - pc.len()]);
                    }
                }
            } else if k < pc.len() + gc.len() + bc.len() {
                assert(body[k] == bc[k - pc.len() - gc.len()]);
            }
        }
    }
    assert(exit_set(r, p) =~= set![p + r.len() - 1]);
}

/// No step is an unpatched `Fail`.
pub open spec fn no_fail(s: Seq<Step>) -> bool {
    forall|i: int| 0 <= i < s.len() ==> !(#[trigger] s[i] is Fail)
}

pub proof fn lemma_arms_no_fail(s: Seq<MatchArm>)
    ensures
        no_fail(arms_code(s)),
    decreases s.len(),
{
    if s.len() > 0 {
        lemma_arms_no_fail(s.subrange(0, s.len() - 1));
        let a = arm_code(s[s.len() - 1]);
        assert(no_fail(a));
        let all = arms_code(s.subrange(0, s.len() - 1)) + seq![Step::LoadSome] + a;
        assert forall|i: int| 0 <= i < all.len() implies !(#[trigger] all[i] is Fail) by {
            let k = arms_code(s.subrange(0, s.len() - 1)).len();
            if i > k {
                assert(all[i] == a[i - k - 1]);
            }
        }
    }
}

pub proof fn lemma_pattern_no_exit(p: Pattern, global: bool)
    ensures
        no_exit(pattern_code(p, global)),
    decreases p, 1nat,
{
    match p {
        Pattern::Variant(_, args) => lemma_items_no_exit(args@, global),
        Pattern::Tuple(args) => lemma_items_no_exit(args@, global),
        Pattern::List(h, t) => {
            lemma_pattern_no_exit(*h, global);
            lemma_pattern_no_exit(*t, global);
        },
        _ => {},
    }
}

pub proof fn lemma_items_no_exit(ps: Seq<Pattern>, global: bool)
    ensures
        no_exit(variant_items(ps, global)),
        no_exit(tuple_items(ps, global)),
        no_exit(params_code(ps)),
    decreases ps, 0nat,
{
    if ps.len() > 0 {
        lemma_items_no_exit(ps.subrange(0, ps.len() - 1), global);
        lemma_pattern_no_exit(ps[ps.len() - 1], global);
        lemma_pattern_no_exit(ps[ps.len() - 1], false);
    }
}

pub proof fn lemma_expr_no_exit(e: Expr)
    ensures
        no_exit(expr_code(e)),
        no_fail(expr_code(e)),
    decreases e, 1nat,
{
    match e.kind {
        ExprKind::App { callee, args, .. } => {
            lemma_exprs_no_exit(args@);
            lemma_expr_no_exit(*callee);
        },
        ExprKind::If { cond, then, else_ } => {
            lemma_expr_no_exit(*cond);
            lemma_expr_no_exit(*then);
            lemma_expr_no_exit(*else_);
        },
        ExprKind::Match { expr, arms } => {
            lemma_expr_no_exit(*expr);
            lemma_arms_no_fail(arms@);
        },
        ExprKind::Let { bind, value, body } => {
            lemma_expr_no_exit(*value);
            lemma_expr_no_exit(*body);
            lemma_pattern_no_exit(bind, false);
        },
        ExprKind::Def { bind, body } => {
            lemma_expr_no_exit(*bind.value);
            lemma_expr_no_exit(*body);
        },
        ExprKind::Binary { left, right, op } => {
            lemma_expr_no_exit(*left);
            lemma_expr_no_exit(*right);
        },
        ExprKind::List(xs) => lemma_exprs_no_exit(xs@),
        ExprKind::Cons { head, tail } => {
            lemma_expr_no_exit(*head);
            lemma_expr_no_exit(*tail);
        },
        ExprKind::UnOp(_, right) => lemma_expr_no_exit(*right),
        ExprKind::MethodRef { ty, .. } => lemma_expr_no_exit(*ty),
        ExprKind::Try { body, rescue, .. } => {
            lemma_expr_no_exit(*body);
            lemma_expr_no_exit(*rescue);
        },
        ExprKind::Tuple(xs) => lemma_exprs_no_exit(xs@),
        _ => {},
    }
}

pub proof fn lemma_exprs_no_exit(s: Seq<Expr>)
    ensures
        no_exit(exprs_code(s)),
        no_exit(exprs_code_rev(s)),
        no_fail(exprs_code(s)),
        no_fail(exprs_code_rev(s)),
    decreases s, 0nat,
{
    if s.len() > 0 {
        lemma_exprs_no_exit(s.subrange(0, s.len() - 1));
        lemma_exprs_no_exit(s.subrange(1, s.len() as int));
        lemma_expr_no_exit(s[s.len() - 1]);
        lemma_expr_no_exit(s[0]);
    }
}

/// Two pieces of code laid out one after the other form their concatenation.
pub proof fn lemma_code_concat(ops: Seq<Instruction>, lo: int, a: Seq<Step>, b: Seq<Step>, c: Seq<Value>)
    requires
        code_matches(ops, lo, a, c),
        code_matches(ops, lo + a.len(), b, c),
    ensures
        code_matches(ops, lo, a + b, c),
{
    let all = a + b;
    assert forall|j: int| 0 <= j < all.len() implies step_ok(#[trigger] all[j], ops[lo + j].opcode, lo + j, c) by {
        if j < a.len() {
            assert(all[j] == a[j]);
        } else {
            assert(all[j] == b[j - a.len()]);
            assert(step_ok(b[j - a.len()], ops[lo + a.len() + (j - a.len())].opcode, lo + a.len() + (j - a.len()), c));
        }
    }
}

/// Code stays in place when the instructions it covers are unchanged.
pub proof fn lemma_code_frame(
    ops: Seq<Instruction>,
    ops2: Seq<Instruction>,
    lo: int,
    s: Seq<Step>,
    c: Seq<Value>,
    c2: Seq<Value>,
)
    requires
        code_matches(ops, lo, s, c),
        lo + s.len() <= ops2.len(),
        forall|i: int| lo <= i < lo + s.len() ==> #[trigger] ops2[i] == ops[i],
        extends(c, c2),
    ensures
        code_matches(ops2, lo, s, c2),
{
    assert forall|j: int| 0 <= j < s.len() implies step_ok(#[trigger] s[j], ops2[lo + j].opcode, lo + j, c2) by {
        assert(ops2[lo + j] == ops[lo + j]);
        assert(step_ok(s[j], ops[lo + j].opcode, lo + j, c));
        match ops[lo + j].opcode {
            OpCode::Push(k) => {
                if k < c.len() {
                    assert(c2[k as int] == c[k as int]);
                }
            },
            _ => {},
        }
    }
}

/// Patching one instruction changes the step it stands for.
pub proof fn lemma_code_patch_one(
    ops: Seq<Instruction>,
    ops2: Seq<Instruction>,
    lo: int,
    s: Seq<Step>,
    c: Seq<Value>,
    p: int,
    st: Step,
)
    requires
        code_matches(ops, lo, s, c),
        lo <= p < lo + s.len(),
        ops2.len() == ops.len(),
        forall|i: int| 0 <= i < ops.len() && i != p ==> #[trigger] ops2[i] == ops[i],
        step_ok(st, ops2[p].opcode, p, c),
    ensures
        code_matches(ops2, lo, s.update(p - lo, st), c),
{
    let r = s.update(p - lo, st);
    assert forall|j: int| 0 <= j < r.len() implies step_ok(#[trigger] r[j], ops2[lo + j].opcode, lo + j, c) by {
        if lo + j != p {
            assert(ops2[lo + j] == ops[lo + j]);
            assert(step_ok(s[j], ops[lo + j].opcode, lo + j, c));
        }
    }
}

} // verus!
