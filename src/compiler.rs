//! The code generator: lowers an AST into instructions and a constant pool.
use vstd::prelude::*;

use crate::ast::{
    stmt_well_formed, BinOp, Def, Expr, ExprKind, Literal, Location, MatchArm, Pattern, Stmt, StmtKind,
    UnOp, Variant,
};
use crate::bytecode::{
    code_ok, extends, forward_except, forward_from, is_jump, jump_target, lemma_forward_extend,
    lemma_code_ok_mono, lemma_forward_mono, lemma_forward_patch, lemma_forward_push, lemma_pool_set_module,
    lemma_pushes_mono, table_insert, lemma_pool_grow, lemma_sites_append, lemma_value_same_refl,
    sites, lemma_value_code_ok_mono, pool_wf, pushes_below,
    value_code_ok, value_eq, value_same, Function, Instruction, Module, OpCode, Value,
};
use crate::layout::{
    stmts_code, stmt_code, arms_code, exit_set, lemma_arm_exit, lemma_resolve_exits, resolve_exits, arm_code, guard_code, lemma_code_extend, lemma_code_concat, lambda_code, params_code, lemma_expr_no_exit, resolve_fails, tail_steps, lemma_resolve_fails, lemma_code_patch_one, lemma_code_frame, step_ok, binop_steps, expr_code, exprs_code, exprs_code_rev, unop_step, literal_value, code_matches, fail_set, lemma_code_append, lemma_code_step, lemma_fail_set_append,
    lemma_views_append, pattern_code, pattern_names, patterns_names, tuple_items, variant_items,
    views, Step,
};
use crate::names::{
    join_path, join_path_spec, last_segment, last_segment_spec, unique_name, unique_name_spec,
};

verus! {

broadcast use vstd::std_specs::vec::group_vec_axioms;

/// The instruction for `op` at `loc`.
pub open spec fn ins(op: OpCode, loc: Location) -> Instruction {
    Instruction { opcode: op, line: loc.line, column: loc.column }
}

/// A compilation frame: its instruction buffer and its local slots.
/// Slots are handed out from `next_slot` upwards and never reused.
#[derive(Debug)]
pub struct Scope {
    pub opcodes: Vec<Instruction>,
    pub locals: Vec<(String, usize)>,
    pub next_slot: usize,
}

impl Scope {
    /// Every bound slot lies below `next_slot`; names and slots are distinct;
    /// each slot handed out was stored by an instruction of the buffer.
    pub open spec fn wf(&self) -> bool {
        &&& self.next_slot <= self.opcodes.len()
        &&& forall|j: int| 0 <= j < self.locals.len() ==> (#[trigger] self.locals@[j]).1 < self.next_slot
        &&& forall|j: int, k: int|
            0 <= j < k < self.locals.len() ==> (#[trigger] self.locals@[j]).0@ != (
            #[trigger] self.locals@[k]).0@ && self.locals@[j].1 != self.locals@[k].1
    }

    /// The slot bound to `name`, if any.
    pub open spec fn slot_of(&self, name: Seq<char>) -> Option<usize> {
        if exists|j: int| 0 <= j < self.locals.len() && (#[trigger] self.locals@[j]).0@ == name {
            let j = choose|j: int| 0 <= j < self.locals.len() && (#[trigger] self.locals@[j]).0@ == name;
            Some(self.locals@[j].1)
        } else {
            None
        }
    }

    /// An empty scope.
    pub fn new() -> (r: Scope)
        ensures
            r.opcodes@.len() == 0,
            r.locals@.len() == 0,
            r.next_slot == 0,
            r.wf(),
    {
        Scope { opcodes: Vec::new(), locals: Vec::new(), next_slot: 0 }
    }

    /// The position of `name` in the local table, if it is bound.
    fn find(&self, name: &String) -> (r: Option<usize>)
        requires
            self.wf(),
        ensures
            r matches Some(j) ==> j < self.locals.len() && self.locals@[j as int].0@ == name@,
            r is None ==> self.slot_of(name@) is None,
    {
        let mut j: usize = 0;
        while j < self.locals.len()
            invariant
                j <= self.locals.len(),
                forall|k: int| 0 <= k < j ==> (#[trigger] self.locals@[k]).0@ != name@,
            decreases self.locals.len() - j,
        {
            if self.locals[j].0 == *name {
                return Some(j);
            }
            j = j + 1;
        }
        None
    }

    /// Looks `name` up in this scope only.
    pub fn lookup(&self, name: &String) -> (r: Option<usize>)
        requires
            self.wf(),
        ensures
            r == self.slot_of(name@),
    {
        match self.find(name) {
            Some(j) => {
                let ghost c = choose|c: int|
                    0 <= c < self.locals.len() && (#[trigger] self.locals@[c]).0@ == name@;
                assert(c == j);
                Some(self.locals[j].1)
            },
            None => None,
        }
    }

    /// Appends an instruction to the buffer.
    pub fn emit(&mut self, op: OpCode, loc: Location)
        requires
            old(self).wf(),
        ensures
            final(self).opcodes@ == old(self).opcodes@.push(ins(op, loc)),
            final(self).locals == old(self).locals,
            final(self).next_slot == old(self).next_slot,
            final(self).wf(),
    {
        self.opcodes.push(Instruction { opcode: op, line: loc.line, column: loc.column });
    }

    /// Emits `Save(slot)` for `name`: its slot if it has one, else the next
    /// fresh slot, which is then bound to it.
    pub fn save(&mut self, name: String, loc: Location) -> (slot: usize)
        requires
            old(self).wf(),
        ensures
            final(self).wf(),
            final(self).opcodes@ == old(self).opcodes@.push(ins(OpCode::Save(slot), loc)),
            final(self).slot_of(name@) == Some(slot),
            old(self).slot_of(name@) matches Some(k) ==> slot == k && final(self).next_slot
                == old(self).next_slot && final(self).locals == old(self).locals,
            old(self).slot_of(name@) is None ==> slot == old(self).next_slot && final(self).next_slot
                == old(self).next_slot + 1 && final(self).locals@ == old(self).locals@.push((name, slot)),
    {
        match self.lookup(&name) {
            Some(k) => {
                self.emit(OpCode::Save(k), loc);
                k
            },
            None => {
                let k = self.next_slot;
                self.emit(OpCode::Save(k), loc);
                let ghost prev = self.locals@;
                self.locals.push((name, k));
                self.next_slot = k + 1;
                proof {
                    let n = self.locals.len() - 1;
                    assert(self.locals@[n].0@ == name@);
                    assert forall|j: int, l: int|
                        0 <= j < l < self.locals.len() implies (#[trigger] self.locals@[j]).0@ != (
                        #[trigger] self.locals@[l]).0@ && self.locals@[j].1 != self.locals@[l].1 by {
                        if l == n {
                            assert(self.locals@[j] == prev[j]);
                            assert(prev[j].0@ != name@);
                        }
                    }
                    let c = choose|c: int|
                        0 <= c < self.locals.len() && (#[trigger] self.locals@[c]).0@ == name@;
                    assert(c == n);
                }
                k
            },
        }
    }

    /// Unbinds `name` in this scope; its slot is not handed out again.
    pub fn remove(&mut self, name: &String)
        requires
            old(self).wf(),
        ensures
            final(self).wf(),
            final(self).opcodes == old(self).opcodes,
            final(self).next_slot == old(self).next_slot,
            final(self).slot_of(name@) is None,
            forall|x: Seq<char>| old(self).slot_of(x) is None ==> #[trigger] final(self).slot_of(x) is None,
    {
        match self.find(name) {
            Some(j) => {
                let ghost prev = self.locals@;
                self.locals.remove(j);
                proof {
                    assert forall|k: int| 0 <= k < self.locals.len() implies (
                    #[trigger] self.locals@[k]).0@ != name@ by {
                        if k < j {
                            assert(self.locals@[k] == prev[k]);
                        } else {
                            assert(self.locals@[k] == prev[k + 1]);
                        }
                    }
                    assert forall|a: int, b: int|
                        0 <= a < b < self.locals.len() implies (#[trigger] self.locals@[a]).0@ != (
                        #[trigger] self.locals@[b]).0@ && self.locals@[a].1 != self.locals@[b].1 by {
                        let pa = if a < j { a } else { a + 1 };
                        let pb = if b < j { b } else { b + 1 };
                        assert(self.locals@[a] == prev[pa]);
                        assert(self.locals@[b] == prev[pb]);
                    }
                    assert forall|x: Seq<char>| old(self).slot_of(x) is None implies #[trigger] self.slot_of(x) is None by {
                        if exists|k: int| 0 <= k < self.locals.len() && (#[trigger] self.locals@[k]).0@ == x {
                            let k = choose|k: int| 0 <= k < self.locals.len() && (#[trigger] self.locals@[k]).0@ == x;
                            if k < j {
                                assert(self.locals@[k] == prev[k]);
                            } else {
                                assert(self.locals@[k] == prev[k + 1]);
                            }
                        }
                    }
                    assert forall|k: int| 0 <= k < self.locals.len() implies (
                    #[trigger] self.locals@[k]).1 < self.next_slot by {
                        if k < j {
                            assert(self.locals@[k] == prev[k]);
                        } else {
                            assert(self.locals@[k] == prev[k + 1]);
                        }
                    }
                }
            },
            None => {},
        }
    }
}

/// A name bound in a scope stays bound while its local table only grows.
proof fn lemma_slot_kept(a: Scope, b: Scope, x: Seq<char>)
    requires
        a.slot_of(x) is Some,
        extends(a.locals@, b.locals@),
    ensures
        b.slot_of(x) is Some,
{
    let j = choose|j: int| 0 <= j < a.locals.len() && (#[trigger] a.locals@[j]).0@ == x;
    assert(b.locals@[j] == a.locals@[j]);
}

/// The value of a literal.
fn make_literal(lit: &Literal) -> (v: Value)
    ensures
        v == literal_value(*lit),
{
    match lit {
        Literal::Nil => Value::Nil,
        Literal::Bool(b) => Value::Bool(*b),
        Literal::Num(n) => Value::Num(*n),
        Literal::Str(s) => Value::Str(s.clone()),
        Literal::Sym(s) => Value::Sym(s.clone()),
    }
}

/// The construct-specific form of the code emitted for `e` into `ops` from
/// index `lo` on, with `consts` the pool afterwards.
pub open spec fn shape(e: Expr, lo: int, ops: Seq<Instruction>, consts: Seq<Value>) -> bool {
    let n = ops.len() as int;
    let loc = e.location;
    match e.kind {
        ExprKind::Lit(l) => n == lo + 1 && (ops[lo].opcode matches OpCode::Push(k) && k
            < consts.len() && value_same(consts[k as int], literal_value(l))),
        ExprKind::Lambda { args, .. } => n == lo + 1 && (ops[lo].opcode matches OpCode::Push(k)
            && k < consts.len() && (consts[k as int] matches Value::Fn(f) && f.arity == args.len())),
        ExprKind::App { args, tail, .. } => ops[n - 1] == ins(
            if tail {
                OpCode::TCall(args.len())
            } else {
                OpCode::Call(args.len())
            },
            loc,
        ),
        ExprKind::List(xs) => if xs.len() == 0 {
            n == lo + 1 && (ops[lo].opcode matches OpCode::Push(k) && k < consts.len()
                && (consts[k as int] matches Value::List(v) && v.len() == 0))
        } else {
            ops[n - 1] == ins(OpCode::Prep, loc)
        },
        ExprKind::Cons { .. } => ops[n - 1] == ins(OpCode::Prep, loc),
        ExprKind::Tuple(xs) => ops[n - 1] == ins(OpCode::Tup(xs.len()), loc),
        ExprKind::MethodRef { method, .. } => ops[n - 1] == ins(OpCode::Ref(method), loc),
        ExprKind::If { .. } => exists|a: int, b: int|
            lo < a < b < n && (#[trigger] ops[a]).opcode == OpCode::Jmf((b + 1) as usize) && (
            #[trigger] ops[b]).opcode == OpCode::Jmp(n as usize),
        ExprKind::Binary { op, .. } => (op == BinOp::And ==> exists|d: int|
            lo < d && d + 3 <= n && (#[trigger] ops[d]).opcode == OpCode::Dup && ops[d + 1].opcode
                == OpCode::Jmf(n as usize) && ops[d + 2].opcode == OpCode::Pop) && (op == BinOp::Or
            ==> exists|d: int|
            lo < d && d + 4 <= n && (#[trigger] ops[d]).opcode == OpCode::Dup && ops[d + 1].opcode
                == OpCode::Not && ops[d + 2].opcode == OpCode::Jmf(n as usize) && ops[d + 3].opcode
                == OpCode::Pop),
        ExprKind::Let { .. } => n >= lo + 5 && ops[n - 5].opcode == OpCode::Jmp(n as usize)
            && ops[n - 1].opcode == OpCode::Call(2),
        ExprKind::Match { .. } => ops[n - 1].opcode == OpCode::Call(2),
        ExprKind::Try { .. } => exists|t: int|
            lo + 1 < t && t + 3 <= n && ops[lo].opcode == OpCode::Try((t + 1) as usize) && ops[t
                - 1].opcode == OpCode::EndTry && (#[trigger] ops[t]).opcode == OpCode::Jmp(
                n as usize,
            ) && ops[t + 1].opcode == OpCode::Pop && ops[t + 2].opcode is Save,
        _ => true,
    }
}

/// The jump `op` redirected to `target`, keeping its kind.
pub open spec fn retarget(op: OpCode, target: usize) -> OpCode {
    match op {
        OpCode::Jmp(_) => OpCode::Jmp(target),
        OpCode::Jmf(_) => OpCode::Jmf(target),
        _ => OpCode::Try(target),
    }
}

/// The short name of a variant: what follows the last `.` of its tag path.
pub open spec fn short_name(v: Variant) -> Seq<char> {
    last_segment_spec(v.name@)
}

/// A field of the module of a type declaration: a member's function, under
/// the member's name; a constructor `Tup(n); Push(index); Tag(name)` of arity
/// `n`, under the short name of a variant with `n > 0` fields; or the tagged
/// value `(index, name, ())`, under the short name of a variant without fields.
pub open spec fn type_field(e: (String, Value), vs: Seq<Variant>, ms: Seq<Def>, index: usize, loc: Location) -> bool {
    ||| exists|k: int|
        0 <= k < ms.len() && e.0@ == (#[trigger] ms[k]).bind@ && (e.1 matches Value::Fn(f) && (
        ms[k].value.kind matches ExprKind::Lambda { args, .. } && f.arity == args.len()))
    ||| exists|k: int|
        0 <= k < vs.len() && (#[trigger] vs[k]).args.len() > 0 && e.0@ == short_name(vs[k]) && (e.1 matches Value::Fn(f)
            && f.arity == vs[k].args.len() && f.body@ == seq![
            ins(OpCode::Tup(vs[k].args.len()), loc),
            ins(OpCode::Push(index), loc),
            ins(OpCode::Tag(vs[k].name), loc),
        ])
    ||| exists|k: int|
        0 <= k < vs.len() && (#[trigger] vs[k]).args.len() == 0 && e.0@ == short_name(vs[k]) && (e.1 matches Value::Tagged(m, t, xs)
            && m == index && t@ == vs[k].name@ && xs.len() == 0)
}

/// Some field of `t` is named `key`.
pub open spec fn has_key(t: Seq<(String, Value)>, key: Seq<char>) -> bool {
    exists|j: int| 0 <= j < t.len() && (#[trigger] t[j]).0@ == key
}

/// An insertion keeps every key and adds its own; every entry afterwards is
/// an earlier entry or the inserted one.
proof fn lemma_insert_effect(before: Seq<(String, Value)>, after: Seq<(String, Value)>, key: String, v: Value)
    requires
        (exists|j: int|
            0 <= j < before.len() && (#[trigger] before[j]).0@ == key@ && after == before.update(j, (key, v)))
            || ((forall|j: int| 0 <= j < before.len() ==> (#[trigger] before[j]).0@ != key@) && after == before.push((key, v))),
    ensures
        forall|x: Seq<char>| has_key(before, x) ==> #[trigger] has_key(after, x),
        has_key(after, key@),
        forall|j: int| 0 <= j < after.len() ==> #[trigger] after[j] == (key, v) || exists|i: int| 0 <= i < before.len() && after[j] == before[i],
{
    if exists|j: int| 0 <= j < before.len() && (#[trigger] before[j]).0@ == key@ && after == before.update(j, (key, v)) {
        let j = choose|j: int| 0 <= j < before.len() && (#[trigger] before[j]).0@ == key@ && after == before.update(j, (key, v));
        assert(after[j] == (key, v));
        assert forall|x: Seq<char>| has_key(before, x) implies #[trigger] has_key(after, x) by {
            let i = choose|i: int| 0 <= i < before.len() && (#[trigger] before[i]).0@ == x;
            if i != j {
                assert(after[i] == before[i]);
            } else {
                assert(after[j].0@ == x);
            }
        }
        assert forall|i: int| 0 <= i < after.len() implies #[trigger] after[i] == (key, v) || exists|k: int| 0 <= k < before.len() && after[i] == before[k] by {
            if i != j {
                assert(after[i] == before[i]);
            }
        }
    } else {
        assert(after[before.len() as int] == (key, v));
        assert forall|x: Seq<char>| has_key(before, x) implies #[trigger] has_key(after, x) by {
            let i = choose|i: int| 0 <= i < before.len() && (#[trigger] before[i]).0@ == x;
            assert(after[i] == before[i]);
        }
        assert forall|i: int| 0 <= i < after.len() implies #[trigger] after[i] == (key, v) || exists|k: int| 0 <= k < before.len() && after[i] == before[k] by {
            if i < before.len() {
                assert(after[i] == before[i]);
            }
        }
    }
}

/// The identifier `_`, which binds nothing.
pub open spec fn wildcard(name: Seq<char>) -> bool {
    name == seq!['_']
}

/// Decides `wildcard`.
fn is_wildcard(name: &String) -> (r: bool)
    ensures
        r == (name@ == seq!['_']),
{
    let s = name.as_str();
    if s.unicode_len() != 1 {
        return false;
    }
    let c = s.get_char(0);
    proof {
        if c == '_' {
            assert(name@ =~= seq!['_']);
        }
    }
    c == '_'
}

/// Compiler state: the scope being emitted into, the constant pool shared by
/// all scopes of a unit, and the counter that names pattern temporaries.
/// Enclosing scopes are held by the lambda compilations that opened them.
#[derive(Debug)]
pub struct Compiler {
    pub scope: Scope,
    pub constants: Vec<Value>,
    pub unique_counter: usize,
}

impl Compiler {
    /// The scope is well formed, the pool is deduplicated and all code refers
    /// into it, and the counter never exceeds the buffer length.
    pub open spec fn wf(&self) -> bool {
        &&& self.scope.wf()
        &&& pool_wf(self.constants@)
        &&& pushes_below(self.scope.opcodes@, self.constants.len() as int)
        &&& self.unique_counter <= self.scope.opcodes.len()
    }

    /// The counter can be advanced: it is zero, or below the buffer length.
    pub open spec fn counter_ok(&self) -> bool {
        self.unique_counter == 0 || self.unique_counter < self.scope.opcodes.len()
    }

    /// The instruction buffer of the current scope.
    pub open spec fn ops(&self) -> Seq<Instruction> {
        self.scope.opcodes@
    }

    /// A compiler with one empty scope, an empty pool and the counter at zero.
    pub fn new() -> (r: Compiler)
        ensures
            r.wf(),
            r.counter_ok(),
            r.ops().len() == 0,
            r.constants@.len() == 0,
            r.unique_counter == 0,
    {
        Compiler { scope: Scope::new(), constants: Vec::new(), unique_counter: 0 }
    }

    /// Appends `op` at `loc` to the current scope.
    fn emit_op(&mut self, op: OpCode, loc: Location)
        requires
            old(self).wf(),
            op matches OpCode::Push(k) ==> k < old(self).constants.len(),
        ensures
            final(self).wf(),
            final(self).ops() == old(self).ops().push(ins(op, loc)),
            final(self).constants == old(self).constants,
            final(self).scope.locals == old(self).scope.locals,
            final(self).scope.next_slot == old(self).scope.next_slot,
            final(self).unique_counter == old(self).unique_counter,
            final(self).unique_counter < final(self).ops().len(),
    {
        self.scope.emit(op, loc);
    }

    /// The index of an entry of the pool structurally equal to `v`, if any.
    fn find_const(&self, v: &Value) -> (r: Option<usize>)
        ensures
            r matches Some(i) ==> i < self.constants.len() && value_same(
                self.constants@[i as int],
                *v,
            ),
            r is None ==> forall|k: int|
                0 <= k < self.constants.len() ==> !value_same(#[trigger] self.constants@[k], *v),
    {
        let mut i: usize = 0;
        while i < self.constants.len()
            invariant
                i <= self.constants.len(),
                forall|k: int| 0 <= k < i ==> !value_same(#[trigger] self.constants@[k], *v),
            decreases self.constants.len() - i,
        {
            if value_eq(&self.constants[i], v) {
                return Some(i);
            }
            i = i + 1;
        }
        None
    }

    /// Adds `v` to the pool (a module always; anything else only when no equal
    /// entry exists) and emits a `Push` of its index.
    fn emit_const(&mut self, v: Value, loc: Location) -> (idx: usize)
        requires
            old(self).wf(),
            value_code_ok(v, old(self).constants.len() as int),
        ensures
            final(self).wf(),
            final(self).ops() == old(self).ops().push(ins(OpCode::Push(idx), loc)),
            idx < final(self).constants.len(),
            v is Module ==> idx == old(self).constants.len() && final(self).constants@ == old(self).constants@.push(v),
            !(v is Module) ==> value_same(final(self).constants@[idx as int], v) && (final(self).constants@ == old(self).constants@ || (final(self).constants@ == old(self).constants@.push(v) && idx == old(self).constants.len())),
            final(self).scope.locals == old(self).scope.locals,
            final(self).scope.next_slot == old(self).scope.next_slot,
            final(self).unique_counter == old(self).unique_counter,
            final(self).unique_counter < final(self).ops().len(),
    {
        if !matches!(v, Value::Module(_)) {
            if let Some(i) = self.find_const(&v) {
                self.emit_op(OpCode::Push(i), loc);
                return i;
            }
        }
        let pos = self.constants.len();
        proof {
            lemma_value_code_ok_mono(v, pos as int, pos + 1);
            lemma_pool_grow(self.constants@, v);
            lemma_value_same_refl(v);
            assert forall|i: int| 0 <= i < self.ops().len() implies (
            #[trigger] self.ops()[i].opcode matches OpCode::Push(k) ==> k < pos + 1) by {}
        }
        self.constants.push(v);
        self.emit_op(OpCode::Push(pos), loc);
        pos
    }

    /// Pushes the value of a literal through the pool.
    fn emit_lit(&mut self, lit: &Literal, loc: Location) -> (idx: usize)
        requires
            old(self).wf(),
        ensures
            final(self).wf(),
            final(self).ops() == old(self).ops().push(ins(OpCode::Push(idx), loc)),
            idx < final(self).constants.len(),
            value_same(final(self).constants@[idx as int], literal_value(*lit)),
            extends(old(self).constants@, final(self).constants@),
            final(self).constants@ == old(self).constants@ || (final(self).constants@ == old(
                self
            ).constants@.push(literal_value(*lit)) && idx == old(self).constants.len()),
            final(self).scope.locals == old(self).scope.locals,
            final(self).scope.next_slot == old(self).scope.next_slot,
            final(self).unique_counter == old(self).unique_counter,
            final(self).unique_counter < final(self).ops().len(),
    {
        let v = make_literal(lit);
        self.emit_const(v, loc)
    }

    /// Stores the top of the stack into the local `name`.
    fn emit_save(&mut self, name: String, loc: Location) -> (slot: usize)
        requires
            old(self).wf(),
        ensures
            final(self).wf(),
            final(self).ops() == old(self).ops().push(ins(OpCode::Save(slot), loc)),
            final(self).scope.slot_of(name@) == Some(slot),
            old(self).scope.slot_of(name@) matches Some(k) ==> slot == k && final(self).scope.locals
                == old(self).scope.locals && final(self).scope.next_slot == old(self).scope.next_slot,
            old(self).scope.slot_of(name@) is None ==> slot == old(self).scope.next_slot && final(
                self
            ).scope.next_slot == old(self).scope.next_slot + 1 && final(self).scope.locals@ == old(
                self
            ).scope.locals@.push((name, slot)),
            final(self).constants == old(self).constants,
            final(self).unique_counter == old(self).unique_counter,
            final(self).unique_counter < final(self).ops().len(),
    {
        self.scope.save(name, loc)
    }

    /// Stores the top of the stack into a fresh temporary `#N` and returns its name.
    fn emit_unique(&mut self, loc: Location) -> (name: String)
        requires
            old(self).wf(),
            old(self).counter_ok(),
        ensures
            final(self).wf(),
            final(self).unique_counter == old(self).unique_counter + 1,
            name@ == unique_name_spec(final(self).unique_counter as nat),
            final(self).ops().len() == old(self).ops().len() + 1,
            extends(old(self).ops(), final(self).ops()),
            !is_jump(final(self).ops().last().opcode),
            final(self).constants == old(self).constants,
            final(self).scope.slot_of(name@) matches Some(k) && final(self).ops() == old(self).ops().push(
                ins(OpCode::Save(k), loc),
            ),
            final(self).scope.next_slot >= old(self).scope.next_slot,
            extends(old(self).scope.locals@, final(self).scope.locals@),
            final(self).scope.next_slot >= old(self).scope.next_slot,
    {
        let n = self.unique_counter + 1;
        let name = unique_name(n);
        self.emit_save(name.clone(), loc);
        self.unique_counter = n;
        name
    }

    /// Pushes the local `name` if this scope binds it, else the global `name`.
    fn emit_load(&mut self, name: &String, loc: Location)
        requires
            old(self).wf(),
        ensures
            final(self).wf(),
            old(self).scope.slot_of(name@) matches Some(k) ==> final(self).ops() == old(self).ops().push(ins(OpCode::Load(k), loc)),
            old(self).scope.slot_of(name@) is None ==> final(self).ops() == old(self).ops().push(
                ins(OpCode::Loag(*name), loc),
            ),
            final(self).constants == old(self).constants,
            final(self).scope.locals == old(self).scope.locals,
            final(self).scope.next_slot == old(self).scope.next_slot,
            final(self).unique_counter == old(self).unique_counter,
            final(self).unique_counter < final(self).ops().len(),
    {
        match self.scope.lookup(name) {
            Some(k) => self.emit_op(OpCode::Load(k), loc),
            None => self.emit_op(OpCode::Loag(name.clone()), loc),
        }
    }

    /// Compiles a pattern against the value on top of the stack. Returns the
    /// names it binds and the sites of its `Jmf(0)` placeholders, which jump to
    /// the next clause once patched. The code is `pattern_code(pattern, global)`.
    fn match_pattern(&mut self, pattern: &Pattern, global: bool, loc: Location) -> (r: (
        Vec<String>,
        Vec<usize>,
    ))
        requires
            old(self).wf(),
            old(self).counter_ok(),
        ensures
            final(self).wf(),
            final(self).unique_counter < final(self).ops().len(),
            extends(old(self).ops(), final(self).ops()),
            extends(old(self).constants@, final(self).constants@),
            extends(old(self).scope.locals@, final(self).scope.locals@),
            final(self).scope.next_slot >= old(self).scope.next_slot,
            forward_except(final(self).ops(), old(self).ops().len() as int, sites(r.1@)),
            forall|k: int|
                0 <= k < r.1.len() ==> old(self).ops().len() <= #[trigger] r.1@[k] < final(
                    self
                ).ops().len() && final(self).ops()[r.1@[k] as int].opcode == OpCode::Jmf(0),
            final(self).ops().len() == old(self).ops().len() + pattern_code(*pattern, global).len(),
            code_matches(final(self).ops(), old(self).ops().len() as int, pattern_code(*pattern, global), final(self).constants@),
            sites(r.1@) == fail_set(pattern_code(*pattern, global), old(self).ops().len() as int),
            views(r.0@) == pattern_names(*pattern),
            pattern matches Pattern::Id(x) ==> (wildcard(x@) ==> final(self).ops() == old(
                self
            ).ops().push(ins(OpCode::Pop, loc)) && r.0.len() == 0 && r.1.len() == 0
                && final(self).scope.locals == old(self).scope.locals && final(self).constants == old(self).constants),
            pattern matches Pattern::Id(x) ==> (!wildcard(x@) ==> r.0@ == seq![*x] && r.1.len()
                == 0),
            pattern matches Pattern::Id(x) ==> (!wildcard(x@) && global ==> final(self).ops()
                == old(self).ops().push(ins(OpCode::Savg(*x), loc))),
            pattern matches Pattern::Id(x) ==> (!wildcard(x@) && !global ==> (final(self).scope.slot_of(x@) matches Some(k)
                && final(self).ops() == old(self).ops().push(ins(OpCode::Save(k), loc)))),
        decreases pattern, 1nat,
    {
        let ghost lo = self.ops().len() as int;
        let ghost mut acc: Seq<Step> = Seq::empty();
        let mut labels: Vec<usize> = Vec::new();
        proof {
            assert(sites(labels@) =~= fail_set(acc, lo));
        }
        match pattern {
            Pattern::Lit(..) => self.pattern_lit(pattern, global, loc),
            Pattern::Id(id) => {
                if is_wildcard(id) {
                    self.emit_op(OpCode::Pop, loc);
                    proof {
                        assert(code_matches(self.ops(), lo, pattern_code(*pattern, global), self.constants@)) by {
                            assert(pattern_code(*pattern, global)[0] == Step::Op(OpCode::Pop));
                        }
                        assert(views(Seq::<String>::empty()) =~= pattern_names(*pattern));
                    }
                    (Vec::new(), labels)
                } else {
                    if global {
                        self.emit_op(OpCode::Savg(id.clone()), loc);
                    } else {
                        self.emit_save(id.clone(), loc);
                    }
                    let mut decls = Vec::new();
                    decls.push(id.clone());
                    proof {
                        let st = if global { Step::SavgName(id@) } else { Step::SaveAny };
                        assert(pattern_code(*pattern, global) =~= seq![st]);
                        assert(pattern_code(*pattern, global)[0] == st);
                        assert(code_matches(self.ops(), lo, pattern_code(*pattern, global), self.constants@));
                        assert(views(decls@) =~= pattern_names(*pattern));
                    }
                    (decls, labels)
                }
            },
            Pattern::Variant(..) => self.pattern_variant(pattern, global, loc),
            Pattern::Tuple(..) => self.pattern_tuple(pattern, global, loc),
            Pattern::List(..) => self.pattern_list(pattern, global, loc),
            Pattern::EmptyList => self.pattern_empty(pattern, global, loc),
        }
    }

    fn pattern_lit(&mut self, pattern: &Pattern, global: bool, loc: Location) -> (r: (
        Vec<String>,
        Vec<usize>,
    ))
        requires
            old(self).wf(),
            old(self).counter_ok(),
            pattern is Lit,
        ensures
            final(self).wf(),
            final(self).unique_counter < final(self).ops().len(),
            extends(old(self).ops(), final(self).ops()),
            extends(old(self).constants@, final(self).constants@),
            extends(old(self).scope.locals@, final(self).scope.locals@),
            final(self).scope.next_slot >= old(self).scope.next_slot,
            forward_except(final(self).ops(), old(self).ops().len() as int, sites(r.1@)),
            forall|k: int|
                0 <= k < r.1.len() ==> old(self).ops().len() <= #[trigger] r.1@[k] < final(
                    self
                ).ops().len() && final(self).ops()[r.1@[k] as int].opcode == OpCode::Jmf(0),
            final(self).ops().len() == old(self).ops().len() + pattern_code(*pattern, global).len(),
            code_matches(final(self).ops(), old(self).ops().len() as int, pattern_code(*pattern, global), final(self).constants@),
            sites(r.1@) == fail_set(pattern_code(*pattern, global), old(self).ops().len() as int),
            views(r.0@) == pattern_names(*pattern),
            pattern matches Pattern::Id(x) ==> (wildcard(x@) ==> final(self).ops() == old(
                self
            ).ops().push(ins(OpCode::Pop, loc)) && r.0.len() == 0 && r.1.len() == 0
                && final(self).scope.locals == old(self).scope.locals && final(self).constants == old(self).constants),
            pattern matches Pattern::Id(x) ==> (!wildcard(x@) ==> r.0@ == seq![*x] && r.1.len()
                == 0),
            pattern matches Pattern::Id(x) ==> (!wildcard(x@) && global ==> final(self).ops()
                == old(self).ops().push(ins(OpCode::Savg(*x), loc))),
            pattern matches Pattern::Id(x) ==> (!wildcard(x@) && !global ==> (final(self).scope.slot_of(x@) matches Some(k)
                && final(self).ops() == old(self).ops().push(ins(OpCode::Save(k), loc)))),
        decreases pattern, 0nat,
    {
        let ghost lo = self.ops().len() as int;
        let ghost mut acc: Seq<Step> = Seq::empty();
        let mut labels: Vec<usize> = Vec::new();
        proof {
            assert(sites(labels@) =~= fail_set(acc, lo));
        }
        match pattern {
            Pattern::Lit(lt) => {
                let ghost o = self.ops();
                let ghost c = self.constants@;
                self.emit_lit(lt, loc);
                proof {
                    lemma_code_step(o, c, lo, acc, self.ops(), self.constants@, Step::PushLit(*lt));
                    acc = acc.push(Step::PushLit(*lt));
                }
                let ghost o = self.ops();
                let ghost c = self.constants@;
                self.emit_op(OpCode::Eq, loc);
                proof {
                    lemma_code_step(o, c, lo, acc, self.ops(), self.constants@, Step::Op(OpCode::Eq));
                    acc = acc.push(Step::Op(OpCode::Eq));
                }
                let ghost o = self.ops();
                let ghost c = self.constants@;
                let label = self.scope.opcodes.len();
                self.emit_op(OpCode::Jmf(0), loc);
                let ghost pl = labels@;
                labels.push(label);
                proof {
                    lemma_code_step(o, c, lo, acc, self.ops(), self.constants@, Step::Fail);
                    acc = acc.push(Step::Fail);
                    lemma_sites_append(pl, seq![label]);
                    assert(sites(seq![label]) =~= set![label as int]) by { assert(seq![label][0] == label); }
                    assert(pl + seq![label] == labels@);
                    assert(sites(pl).union(set![label as int]) =~= sites(pl).insert(label as int));
                }
                proof {
                    assert(acc =~= pattern_code(*pattern, global));
                }
                (Vec::new(), labels)
            },
            _ => (Vec::new(), labels),
        }
    }

    #[verifier::rlimit(60)]
    fn pattern_variant(&mut self, pattern: &Pattern, global: bool, loc: Location) -> (r: (
        Vec<String>,
        Vec<usize>,
    ))
        requires
            old(self).wf(),
            old(self).counter_ok(),
            pattern is Variant,
        ensures
            final(self).wf(),
            final(self).unique_counter < final(self).ops().len(),
            extends(old(self).ops(), final(self).ops()),
            extends(old(self).constants@, final(self).constants@),
            extends(old(self).scope.locals@, final(self).scope.locals@),
            final(self).scope.next_slot >= old(self).scope.next_slot,
            forward_except(final(self).ops(), old(self).ops().len() as int, sites(r.1@)),
            forall|k: int|
                0 <= k < r.1.len() ==> old(self).ops().len() <= #[trigger] r.1@[k] < final(
                    self
                ).ops().len() && final(self).ops()[r.1@[k] as int].opcode == OpCode::Jmf(0),
            final(self).ops().len() == old(self).ops().len() + pattern_code(*pattern, global).len(),
            code_matches(final(self).ops(), old(self).ops().len() as int, pattern_code(*pattern, global), final(self).constants@),
            sites(r.1@) == fail_set(pattern_code(*pattern, global), old(self).ops().len() as int),
            views(r.0@) == pattern_names(*pattern),
            pattern matches Pattern::Id(x) ==> (wildcard(x@) ==> final(self).ops() == old(
                self
            ).ops().push(ins(OpCode::Pop, loc)) && r.0.len() == 0 && r.1.len() == 0
                && final(self).scope.locals == old(self).scope.locals && final(self).constants == old(self).constants),
            pattern matches Pattern::Id(x) ==> (!wildcard(x@) ==> r.0@ == seq![*x] && r.1.len()
                == 0),
            pattern matches Pattern::Id(x) ==> (!wildcard(x@) && global ==> final(self).ops()
                == old(self).ops().push(ins(OpCode::Savg(*x), loc))),
            pattern matches Pattern::Id(x) ==> (!wildcard(x@) && !global ==> (final(self).scope.slot_of(x@) matches Some(k)
                && final(self).ops() == old(self).ops().push(ins(OpCode::Save(k), loc)))),
        decreases pattern, 0nat,
    {
        let ghost lo = self.ops().len() as int;
        let ghost mut acc: Seq<Step> = Seq::empty();
        let mut labels: Vec<usize> = Vec::new();
        proof {
            assert(sites(labels@) =~= fail_set(acc, lo));
        }
        match pattern {
            Pattern::Variant(path, args) => {
                let name = join_path(path);
                let ghost o = self.ops();
                let ghost c = self.constants@;
                self.emit_op(OpCode::Dup, loc);
                proof {
                    lemma_code_step(o, c, lo, acc, self.ops(), self.constants@, Step::Op(OpCode::Dup));
                    acc = acc.push(Step::Op(OpCode::Dup));
                }
                let ghost o = self.ops();
                let ghost c = self.constants@;
                let local = self.emit_unique(loc);
                proof {
                    lemma_code_step(o, c, lo, acc, self.ops(), self.constants@, Step::SaveAny);
                    acc = acc.push(Step::SaveAny);
                }
                let ghost o = self.ops();
                let ghost c = self.constants@;
                self.emit_op(OpCode::TagOf, loc);
                proof {
                    lemma_code_step(o, c, lo, acc, self.ops(), self.constants@, Step::Op(OpCode::TagOf));
                    acc = acc.push(Step::Op(OpCode::TagOf));
                }
                let ghost o = self.ops();
                let ghost c = self.constants@;
                self.emit_const(Value::Sym(name), loc);
                proof {
                    lemma_code_step(o, c, lo, acc, self.ops(), self.constants@, Step::PushSym(join_path_spec(path@)));
                    acc = acc.push(Step::PushSym(join_path_spec(path@)));
                }
                let ghost o = self.ops();
                let ghost c = self.constants@;
                self.emit_op(OpCode::Eq, loc);
                proof {
                    lemma_code_step(o, c, lo, acc, self.ops(), self.constants@, Step::Op(OpCode::Eq));
                    acc = acc.push(Step::Op(OpCode::Eq));
                }
                let ghost o = self.ops();
                let ghost c = self.constants@;
                let label = self.scope.opcodes.len();
                self.emit_op(OpCode::Jmf(0), loc);
                let ghost pl = labels@;
                labels.push(label);
                proof {
                    lemma_code_step(o, c, lo, acc, self.ops(), self.constants@, Step::Fail);
                    acc = acc.push(Step::Fail);
                    lemma_sites_append(pl, seq![label]);
                    assert(sites(seq![label]) =~= set![label as int]) by { assert(seq![label][0] == label); }
                    assert(pl + seq![label] == labels@);
                    assert(sites(pl).union(set![label as int]) =~= sites(pl).insert(label as int));
                }
                let ghost o = self.ops();
                let ghost c = self.constants@;
                self.emit_load(&local, loc);
                proof {
                    lemma_code_step(o, c, lo, acc, self.ops(), self.constants@, Step::LoadAny);
                    acc = acc.push(Step::LoadAny);
                }
                let ghost o = self.ops();
                let ghost c = self.constants@;
                self.emit_op(OpCode::TagTup, loc);
                proof {
                    lemma_code_step(o, c, lo, acc, self.ops(), self.constants@, Step::Op(OpCode::TagTup));
                    acc = acc.push(Step::Op(OpCode::TagTup));
                }
                let ghost o = self.ops();
                let ghost c = self.constants@;
                self.emit_op(OpCode::Len, loc);
                proof {
                    lemma_code_step(o, c, lo, acc, self.ops(), self.constants@, Step::Op(OpCode::Len));
                    acc = acc.push(Step::Op(OpCode::Len));
                }
                let ghost o = self.ops();
                let ghost c = self.constants@;
                self.emit_const(Value::Num(#[verifier::truncate] (args.len() as i64)), loc);
                proof {
                    lemma_code_step(o, c, lo, acc, self.ops(), self.constants@, Step::PushNum(args.len() as i64));
                    acc = acc.push(Step::PushNum(args.len() as i64));
                }
                let ghost o = self.ops();
                let ghost c = self.constants@;
                self.emit_op(OpCode::Eq, loc);
                proof {
                    lemma_code_step(o, c, lo, acc, self.ops(), self.constants@, Step::Op(OpCode::Eq));
                    acc = acc.push(Step::Op(OpCode::Eq));
                }
                let ghost o = self.ops();
                let ghost c = self.constants@;
                let label = self.scope.opcodes.len();
                self.emit_op(OpCode::Jmf(0), loc);
                let ghost pl = labels@;
                labels.push(label);
                proof {
                    lemma_code_step(o, c, lo, acc, self.ops(), self.constants@, Step::Fail);
                    acc = acc.push(Step::Fail);
                    lemma_sites_append(pl, seq![label]);
                    assert(sites(seq![label]) =~= set![label as int]) by { assert(seq![label][0] == label); }
                    assert(pl + seq![label] == labels@);
                    assert(sites(pl).union(set![label as int]) =~= sites(pl).insert(label as int));
                }
                let ghost head = acc;
                let mut declarations: Vec<String> = Vec::new();
                let mut i: usize = 0;
                proof {
                    assert(args@.subrange(0, 0) =~= Seq::<Pattern>::empty());
                    assert(head + variant_items(args@.subrange(0, 0), global) =~= head);
                    assert(views(declarations@) =~= patterns_names(args@.subrange(0, 0)));
                }
                while i < args.len()
                    invariant
                        *pattern == Pattern::Variant(*path, *args),
                        i <= args.len(),
                        lo == old(self).ops().len(),
                        self.wf(),
                        self.unique_counter < self.ops().len(),
                        extends(old(self).ops(), self.ops()),
                        extends(old(self).constants@, self.constants@),
                        extends(old(self).scope.locals@, self.scope.locals@),
                        self.scope.next_slot >= old(self).scope.next_slot,
                        forward_except(self.ops(), lo, sites(labels@)),
                        forall|k: int|
                            0 <= k < labels.len() ==> lo <= #[trigger] labels@[k] < self.ops().len()
                                && self.ops()[labels@[k] as int].opcode == OpCode::Jmf(0),
                        code_matches(self.ops(), lo, acc, self.constants@),
                        lo + acc.len() == self.ops().len(),
                        sites(labels@) == fail_set(acc, lo),
                        self.scope.slot_of(local@) is Some,
                        acc == head + variant_items(args@.subrange(0, i as int), global),
                        views(declarations@) == patterns_names(args@.subrange(0, i as int)),
                        head.len() == 12,
                        head =~= pattern_code(*pattern, global).subrange(0, 12),
                    decreases args.len() - i,
                {
                    let ghost o = self.ops();
                    let ghost c = self.constants@;
                    self.emit_load(&local, loc);
                    proof {
                        lemma_code_step(o, c, lo, acc, self.ops(), self.constants@, Step::LoadAny);
                        acc = acc.push(Step::LoadAny);
                    }
                    let ghost o = self.ops();
                    let ghost c = self.constants@;
                    self.emit_op(OpCode::TagTup, loc);
                    proof {
                        lemma_code_step(o, c, lo, acc, self.ops(), self.constants@, Step::Op(OpCode::TagTup));
                        acc = acc.push(Step::Op(OpCode::TagTup));
                    }
                    let ghost o = self.ops();
                    let ghost c = self.constants@;
                    self.emit_op(OpCode::TupGet(i), loc);
                    proof {
                        lemma_code_step(o, c, lo, acc, self.ops(), self.constants@, Step::Op(OpCode::TupGet(i)));
                        acc = acc.push(Step::Op(OpCode::TupGet(i)));
                    }
                    proof {
                        assert(decreases_to!(*args => args[i as int]));
                        assert(decreases_to!(*pattern => pattern->Variant_1));
                        assert(decreases_to!(*pattern => args[i as int]));
                    }
                    let ghost o = self.ops();
                    let ghost c = self.constants@;
                    let ghost pl = labels@;
                    let ghost pd = declarations@;
                    let ghost sc = self.scope;
                    let (mut decls, mut offsets) = self.sub_pattern(&args[i], global, loc, Ghost(lo), &labels);
                    proof {
                        lemma_code_append(o, c, lo, acc, self.ops(), self.constants@, pattern_code(args@[i as int], global));
                        lemma_fail_set_append(acc, pattern_code(args@[i as int], global), lo);
                        lemma_sites_append(pl, offsets@);
                        lemma_views_append(pd, decls@);
                        acc = acc + pattern_code(args@[i as int], global);
                        lemma_slot_kept(sc, self.scope, local@);
                    }
                    labels.append(&mut offsets);
                    declarations.append(&mut decls);
                    proof {
                        let sub = args@.subrange(0, i + 1);
                        assert(sub.subrange(0, i as int) =~= args@.subrange(0, i as int));
                        assert(sub[i as int] == args@[i as int]);
                        assert(acc =~= head + variant_items(sub, global));
                    }
                    i = i + 1;
                }
                proof {
                    assert(args@.subrange(0, args.len() as int) =~= args@);
                    assert(acc =~= pattern_code(*pattern, global));
                }
                (declarations, labels)
            },
            _ => (Vec::new(), labels),
        }
    }

    #[verifier::rlimit(60)]
    fn pattern_tuple(&mut self, pattern: &Pattern, global: bool, loc: Location) -> (r: (
        Vec<String>,
        Vec<usize>,
    ))
        requires
            old(self).wf(),
            old(self).counter_ok(),
            pattern is Tuple,
        ensures
            final(self).wf(),
            final(self).unique_counter < final(self).ops().len(),
            extends(old(self).ops(), final(self).ops()),
            extends(old(self).constants@, final(self).constants@),
            extends(old(self).scope.locals@, final(self).scope.locals@),
            final(self).scope.next_slot >= old(self).scope.next_slot,
            forward_except(final(self).ops(), old(self).ops().len() as int, sites(r.1@)),
            forall|k: int|
                0 <= k < r.1.len() ==> old(self).ops().len() <= #[trigger] r.1@[k] < final(
                    self
                ).ops().len() && final(self).ops()[r.1@[k] as int].opcode == OpCode::Jmf(0),
            final(self).ops().len() == old(self).ops().len() + pattern_code(*pattern, global).len(),
            code_matches(final(self).ops(), old(self).ops().len() as int, pattern_code(*pattern, global), final(self).constants@),
            sites(r.1@) == fail_set(pattern_code(*pattern, global), old(self).ops().len() as int),
            views(r.0@) == pattern_names(*pattern),
            pattern matches Pattern::Id(x) ==> (wildcard(x@) ==> final(self).ops() == old(
                self
            ).ops().push(ins(OpCode::Pop, loc)) && r.0.len() == 0 && r.1.len() == 0
                && final(self).scope.locals == old(self).scope.locals && final(self).constants == old(self).constants),
            pattern matches Pattern::Id(x) ==> (!wildcard(x@) ==> r.0@ == seq![*x] && r.1.len()
                == 0),
            pattern matches Pattern::Id(x) ==> (!wildcard(x@) && global ==> final(self).ops()
                == old(self).ops().push(ins(OpCode::Savg(*x), loc))),
            pattern matches Pattern::Id(x) ==> (!wildcard(x@) && !global ==> (final(self).scope.slot_of(x@) matches Some(k)
                && final(self).ops() == old(self).ops().push(ins(OpCode::Save(k), loc)))),
        decreases pattern, 0nat,
    {
        let ghost lo = self.ops().len() as int;
        let ghost mut acc: Seq<Step> = Seq::empty();
        let mut labels: Vec<usize> = Vec::new();
        proof {
            assert(sites(labels@) =~= fail_set(acc, lo));
        }
        match pattern {
            Pattern::Tuple(args) => {
                let ghost o = self.ops();
                let ghost c = self.constants@;
                let local = self.emit_unique(loc);
                proof {
                    lemma_code_step(o, c, lo, acc, self.ops(), self.constants@, Step::SaveAny);
                    acc = acc.push(Step::SaveAny);
                }
                let ghost o = self.ops();
                let ghost c = self.constants@;
                self.emit_load(&local, loc);
                proof {
                    lemma_code_step(o, c, lo, acc, self.ops(), self.constants@, Step::LoadAny);
                    acc = acc.push(Step::LoadAny);
                }
                let ghost o = self.ops();
                let ghost c = self.constants@;
                self.emit_op(OpCode::Len, loc);
                proof {
                    lemma_code_step(o, c, lo, acc, self.ops(), self.constants@, Step::Op(OpCode::Len));
                    acc = acc.push(Step::Op(OpCode::Len));
                }
                let ghost o = self.ops();
                let ghost c = self.constants@;
                self.emit_const(Value::Num(#[verifier::truncate] (args.len() as i64)), loc);
                proof {
                    lemma_code_step(o, c, lo, acc, self.ops(), self.constants@, Step::PushNum(args.len() as i64));
                    acc = acc.push(Step::PushNum(args.len() as i64));
                }
                let ghost o = self.ops();
                let ghost c = self.constants@;
                self.emit_op(OpCode::Eq, loc);
                proof {
                    lemma_code_step(o, c, lo, acc, self.ops(), self.constants@, Step::Op(OpCode::Eq));
                    acc = acc.push(Step::Op(OpCode::Eq));
                }
                let ghost o = self.ops();
                let ghost c = self.constants@;
                let label = self.scope.opcodes.len();
                self.emit_op(OpCode::Jmf(0), loc);
                let ghost pl = labels@;
                labels.push(label);
                proof {
                    lemma_code_step(o, c, lo, acc, self.ops(), self.constants@, Step::Fail);
                    acc = acc.push(Step::Fail);
                    lemma_sites_append(pl, seq![label]);
                    assert(sites(seq![label]) =~= set![label as int]) by { assert(seq![label][0] == label); }
                    assert(pl + seq![label] == labels@);
                    assert(sites(pl).union(set![label as int]) =~= sites(pl).insert(label as int));
                }
                let ghost head = acc;
                let mut declarations: Vec<String> = Vec::new();
                let mut i: usize = 0;
                proof {
                    assert(args@.subrange(0, 0) =~= Seq::<Pattern>::empty());
                    assert(head + tuple_items(args@.subrange(0, 0), global) =~= head);
                    assert(views(declarations@) =~= patterns_names(args@.subrange(0, 0)));
                }
                while i < args.len()
                    invariant
                        *pattern == Pattern::Tuple(*args),
                        i <= args.len(),
                        lo == old(self).ops().len(),
                        self.wf(),
                        self.unique_counter < self.ops().len(),
                        extends(old(self).ops(), self.ops()),
                        extends(old(self).constants@, self.constants@),
                        extends(old(self).scope.locals@, self.scope.locals@),
                        self.scope.next_slot >= old(self).scope.next_slot,
                        forward_except(self.ops(), lo, sites(labels@)),
                        forall|k: int|
                            0 <= k < labels.len() ==> lo <= #[trigger] labels@[k] < self.ops().len()
                                && self.ops()[labels@[k] as int].opcode == OpCode::Jmf(0),
                        code_matches(self.ops(), lo, acc, self.constants@),
                        lo + acc.len() == self.ops().len(),
                        sites(labels@) == fail_set(acc, lo),
                        self.scope.slot_of(local@) is Some,
                        acc == head + tuple_items(args@.subrange(0, i as int), global),
                        views(declarations@) == patterns_names(args@.subrange(0, i as int)),
                        head.len() == 6,
                        head =~= pattern_code(*pattern, global).subrange(0, 6),
                    decreases args.len() - i,
                {
                    let ghost o = self.ops();
                    let ghost c = self.constants@;
                    self.emit_load(&local, loc);
                    proof {
                        lemma_code_step(o, c, lo, acc, self.ops(), self.constants@, Step::LoadAny);
                        acc = acc.push(Step::LoadAny);
                    }
                    let ghost o = self.ops();
                    let ghost c = self.constants@;
                    self.emit_op(OpCode::TupGet(i), loc);
                    proof {
                        lemma_code_step(o, c, lo, acc, self.ops(), self.constants@, Step::Op(OpCode::TupGet(i)));
                        acc = acc.push(Step::Op(OpCode::TupGet(i)));
                    }
                    proof {
                        assert(decreases_to!(*args => args[i as int]));
                        assert(decreases_to!(*pattern => pattern->Tuple_0));
                        assert(decreases_to!(*pattern => args[i as int]));
                    }
                    let ghost o = self.ops();
                    let ghost c = self.constants@;
                    let ghost pl = labels@;
                    let ghost pd = declarations@;
                    let ghost sc = self.scope;
                    let (mut decls, mut offsets) = self.sub_pattern(&args[i], global, loc, Ghost(lo), &labels);
                    proof {
                        lemma_code_append(o, c, lo, acc, self.ops(), self.constants@, pattern_code(args@[i as int], global));
                        lemma_fail_set_append(acc, pattern_code(args@[i as int], global), lo);
                        lemma_sites_append(pl, offsets@);
                        lemma_views_append(pd, decls@);
                        acc = acc + pattern_code(args@[i as int], global);
                        lemma_slot_kept(sc, self.scope, local@);
                    }
                    labels.append(&mut offsets);
                    declarations.append(&mut decls);
                    proof {
                        let sub = args@.subrange(0, i + 1);
                        assert(sub.subrange(0, i as int) =~= args@.subrange(0, i as int));
                        assert(sub[i as int] == args@[i as int]);
                        assert(acc =~= head + tuple_items(sub, global));
                    }
                    i = i + 1;
                }
                proof {
                    assert(args@.subrange(0, args.len() as int) =~= args@);
                    assert(acc =~= pattern_code(*pattern, global));
                }
                (declarations, labels)
            },
            _ => (Vec::new(), labels),
        }
    }

    #[verifier::rlimit(60)]
    fn pattern_list(&mut self, pattern: &Pattern, global: bool, loc: Location) -> (r: (
        Vec<String>,
        Vec<usize>,
    ))
        requires
            old(self).wf(),
            old(self).counter_ok(),
            pattern is List,
        ensures
            final(self).wf(),
            final(self).unique_counter < final(self).ops().len(),
            extends(old(self).ops(), final(self).ops()),
            extends(old(self).constants@, final(self).constants@),
            extends(old(self).scope.locals@, final(self).scope.locals@),
            final(self).scope.next_slot >= old(self).scope.next_slot,
            forward_except(final(self).ops(), old(self).ops().len() as int, sites(r.1@)),
            forall|k: int|
                0 <= k < r.1.len() ==> old(self).ops().len() <= #[trigger] r.1@[k] < final(
                    self
                ).ops().len() && final(self).ops()[r.1@[k] as int].opcode == OpCode::Jmf(0),
            final(self).ops().len() == old(self).ops().len() + pattern_code(*pattern, global).len(),
            code_matches(final(self).ops(), old(self).ops().len() as int, pattern_code(*pattern, global), final(self).constants@),
            sites(r.1@) == fail_set(pattern_code(*pattern, global), old(self).ops().len() as int),
            views(r.0@) == pattern_names(*pattern),
            pattern matches Pattern::Id(x) ==> (wildcard(x@) ==> final(self).ops() == old(
                self
            ).ops().push(ins(OpCode::Pop, loc)) && r.0.len() == 0 && r.1.len() == 0
                && final(self).scope.locals == old(self).scope.locals && final(self).constants == old(self).constants),
            pattern matches Pattern::Id(x) ==> (!wildcard(x@) ==> r.0@ == seq![*x] && r.1.len()
                == 0),
            pattern matches Pattern::Id(x) ==> (!wildcard(x@) && global ==> final(self).ops()
                == old(self).ops().push(ins(OpCode::Savg(*x), loc))),
            pattern matches Pattern::Id(x) ==> (!wildcard(x@) && !global ==> (final(self).scope.slot_of(x@) matches Some(k)
                && final(self).ops() == old(self).ops().push(ins(OpCode::Save(k), loc)))),
        decreases pattern, 0nat,
    {
        let ghost lo = self.ops().len() as int;
        let ghost mut acc: Seq<Step> = Seq::empty();
        let mut labels: Vec<usize> = Vec::new();
        proof {
            assert(sites(labels@) =~= fail_set(acc, lo));
        }
        match pattern {
            Pattern::List(head, tail) => {
                let mut declarations: Vec<String> = Vec::new();
                let ghost o = self.ops();
                let ghost c = self.constants@;
                let local = self.emit_unique(loc);
                proof {
                    lemma_code_step(o, c, lo, acc, self.ops(), self.constants@, Step::SaveAny);
                    acc = acc.push(Step::SaveAny);
                }
                let ghost o = self.ops();
                let ghost c = self.constants@;
                self.emit_load(&local, loc);
                proof {
                    lemma_code_step(o, c, lo, acc, self.ops(), self.constants@, Step::LoadAny);
                    acc = acc.push(Step::LoadAny);
                }
                let ghost o = self.ops();
                let ghost c = self.constants@;
                self.emit_op(OpCode::Loag(String::from_str("List")), loc);
                proof {
                    lemma_code_step(o, c, lo, acc, self.ops(), self.constants@, Step::LoagName("List"@));
                    acc = acc.push(Step::LoagName("List"@));
                }
                let ghost o = self.ops();
                let ghost c = self.constants@;
                self.emit_op(OpCode::Ref(String::from_str("head")), loc);
                proof {
                    lemma_code_step(o, c, lo, acc, self.ops(), self.constants@, Step::RefName("head"@));
                    acc = acc.push(Step::RefName("head"@));
                }
                let ghost o = self.ops();
                let ghost c = self.constants@;
                self.emit_op(OpCode::Call(1), loc);
                proof {
                    lemma_code_step(o, c, lo, acc, self.ops(), self.constants@, Step::Op(OpCode::Call(1)));
                    acc = acc.push(Step::Op(OpCode::Call(1)));
                }
                let ghost o = self.ops();
                let ghost c = self.constants@;
                let ghost pl = labels@;
                let ghost pd = declarations@;
                    let ghost sc = self.scope;
                let (mut decls, mut offsets) = self.sub_pattern(head, global, loc, Ghost(lo), &labels);
                proof {
                    lemma_code_append(o, c, lo, acc, self.ops(), self.constants@, pattern_code(**head, global));
                    lemma_fail_set_append(acc, pattern_code(**head, global), lo);
                    lemma_sites_append(pl, offsets@);
                    lemma_views_append(pd, decls@);
                    acc = acc + pattern_code(**head, global);
                    lemma_slot_kept(sc, self.scope, local@);
                }
                labels.append(&mut offsets);
                declarations.append(&mut decls);
                let ghost o = self.ops();
                let ghost c = self.constants@;
                self.emit_load(&local, loc);
                proof {
                    lemma_code_step(o, c, lo, acc, self.ops(), self.constants@, Step::LoadAny);
                    acc = acc.push(Step::LoadAny);
                }
                let ghost o = self.ops();
                let ghost c = self.constants@;
                self.emit_op(OpCode::Loag(String::from_str("List")), loc);
                proof {
                    lemma_code_step(o, c, lo, acc, self.ops(), self.constants@, Step::LoagName("List"@));
                    acc = acc.push(Step::LoagName("List"@));
                }
                let ghost o = self.ops();
                let ghost c = self.constants@;
                self.emit_op(OpCode::Ref(String::from_str("tail")), loc);
                proof {
                    lemma_code_step(o, c, lo, acc, self.ops(), self.constants@, Step::RefName("tail"@));
                    acc = acc.push(Step::RefName("tail"@));
                }
                let ghost o = self.ops();
                let ghost c = self.constants@;
                self.emit_op(OpCode::Call(1), loc);
                proof {
                    lemma_code_step(o, c, lo, acc, self.ops(), self.constants@, Step::Op(OpCode::Call(1)));
                    acc = acc.push(Step::Op(OpCode::Call(1)));
                }
                let ghost o = self.ops();
                let ghost c = self.constants@;
                let ghost pl = labels@;
                let ghost pd = declarations@;
                    let ghost sc = self.scope;
                let (mut decls, mut offsets) = self.sub_pattern(tail, global, loc, Ghost(lo), &labels);
                proof {
                    lemma_code_append(o, c, lo, acc, self.ops(), self.constants@, pattern_code(**tail, global));
                    lemma_fail_set_append(acc, pattern_code(**tail, global), lo);
                    lemma_sites_append(pl, offsets@);
                    lemma_views_append(pd, decls@);
                    acc = acc + pattern_code(**tail, global);
                    lemma_slot_kept(sc, self.scope, local@);
                }
                labels.append(&mut offsets);
                declarations.append(&mut decls);
                proof {
                    assert(acc =~= pattern_code(*pattern, global));
                    assert(views(declarations@) =~= pattern_names(*pattern));
                }
                (declarations, labels)
            },
            _ => (Vec::new(), labels),
        }
    }

    fn pattern_empty(&mut self, pattern: &Pattern, global: bool, loc: Location) -> (r: (
        Vec<String>,
        Vec<usize>,
    ))
        requires
            old(self).wf(),
            old(self).counter_ok(),
            pattern is EmptyList,
        ensures
            final(self).wf(),
            final(self).unique_counter < final(self).ops().len(),
            extends(old(self).ops(), final(self).ops()),
            extends(old(self).constants@, final(self).constants@),
            extends(old(self).scope.locals@, final(self).scope.locals@),
            final(self).scope.next_slot >= old(self).scope.next_slot,
            forward_except(final(self).ops(), old(self).ops().len() as int, sites(r.1@)),
            forall|k: int|
                0 <= k < r.1.len() ==> old(self).ops().len() <= #[trigger] r.1@[k] < final(
                    self
                ).ops().len() && final(self).ops()[r.1@[k] as int].opcode == OpCode::Jmf(0),
            final(self).ops().len() == old(self).ops().len() + pattern_code(*pattern, global).len(),
            code_matches(final(self).ops(), old(self).ops().len() as int, pattern_code(*pattern, global), final(self).constants@),
            sites(r.1@) == fail_set(pattern_code(*pattern, global), old(self).ops().len() as int),
            views(r.0@) == pattern_names(*pattern),
            pattern matches Pattern::Id(x) ==> (wildcard(x@) ==> final(self).ops() == old(
                self
            ).ops().push(ins(OpCode::Pop, loc)) && r.0.len() == 0 && r.1.len() == 0
                && final(self).scope.locals == old(self).scope.locals && final(self).constants == old(self).constants),
            pattern matches Pattern::Id(x) ==> (!wildcard(x@) ==> r.0@ == seq![*x] && r.1.len()
                == 0),
            pattern matches Pattern::Id(x) ==> (!wildcard(x@) && global ==> final(self).ops()
                == old(self).ops().push(ins(OpCode::Savg(*x), loc))),
            pattern matches Pattern::Id(x) ==> (!wildcard(x@) && !global ==> (final(self).scope.slot_of(x@) matches Some(k)
                && final(self).ops() == old(self).ops().push(ins(OpCode::Save(k), loc)))),
        decreases pattern, 0nat,
    {
        let ghost lo = self.ops().len() as int;
        let ghost mut acc: Seq<Step> = Seq::empty();
        let mut labels: Vec<usize> = Vec::new();
        proof {
            assert(sites(labels@) =~= fail_set(acc, lo));
        }
        match pattern {
            Pattern::EmptyList => {
                let ghost o = self.ops();
                let ghost c = self.constants@;
                self.emit_const(Value::List(Vec::new()), loc);
                proof {
                    lemma_code_step(o, c, lo, acc, self.ops(), self.constants@, Step::PushEmptyList);
                    acc = acc.push(Step::PushEmptyList);
                }
                let ghost o = self.ops();
                let ghost c = self.constants@;
                self.emit_op(OpCode::Eq, loc);
                proof {
                    lemma_code_step(o, c, lo, acc, self.ops(), self.constants@, Step::Op(OpCode::Eq));
                    acc = acc.push(Step::Op(OpCode::Eq));
                }
                let ghost o = self.ops();
                let ghost c = self.constants@;
                let label = self.scope.opcodes.len();
                self.emit_op(OpCode::Jmf(0), loc);
                let ghost pl = labels@;
                labels.push(label);
                proof {
                    lemma_code_step(o, c, lo, acc, self.ops(), self.constants@, Step::Fail);
                    acc = acc.push(Step::Fail);
                    lemma_sites_append(pl, seq![label]);
                    assert(sites(seq![label]) =~= set![label as int]) by { assert(seq![label][0] == label); }
                    assert(pl + seq![label] == labels@);
                    assert(sites(pl).union(set![label as int]) =~= sites(pl).insert(label as int));
                }
                proof {
                    assert(acc =~= pattern_code(*pattern, global));
                }
                (Vec::new(), labels)
            },
            _ => (Vec::new(), labels),
        }
    }

    /// Compiles a sub-pattern of a pattern whose code starts at `lo` and whose
    /// fail sites so far are `labels`.
    fn sub_pattern(
        &mut self,
        pattern: &Pattern,
        global: bool,
        loc: Location,
        Ghost(lo): Ghost<int>,
        labels: &Vec<usize>,
    ) -> (r: (Vec<String>, Vec<usize>))
        requires
            old(self).wf(),
            old(self).counter_ok(),
            0 <= lo <= old(self).ops().len(),
            forward_except(old(self).ops(), lo, sites(labels@)),
            forall|k: int|
                0 <= k < labels.len() ==> lo <= #[trigger] labels@[k] < old(self).ops().len()
                    && old(self).ops()[labels@[k] as int].opcode == OpCode::Jmf(0),
        ensures
            final(self).wf(),
            final(self).unique_counter < final(self).ops().len(),
            extends(old(self).ops(), final(self).ops()),
            extends(old(self).constants@, final(self).constants@),
            extends(old(self).scope.locals@, final(self).scope.locals@),
            final(self).scope.next_slot >= old(self).scope.next_slot,
            forward_except(final(self).ops(), lo, sites(labels@ + r.1@)),
            forall|k: int|
                0 <= k < (labels@ + r.1@).len() ==> lo <= #[trigger] (labels@ + r.1@)[k] < final(
                    self
                ).ops().len() && final(self).ops()[(labels@ + r.1@)[k] as int].opcode == OpCode::Jmf(0),
            final(self).ops().len() == old(self).ops().len() + pattern_code(*pattern, global).len(),
            code_matches(final(self).ops(), old(self).ops().len() as int, pattern_code(*pattern, global), final(self).constants@),
            sites(r.1@) == fail_set(pattern_code(*pattern, global), old(self).ops().len() as int),
            views(r.0@) == pattern_names(*pattern),
        decreases pattern, 2nat,
    {
        let ghost mid = self.ops();
        let r = self.match_pattern(pattern, global, loc);
        proof {
            lemma_forward_extend(mid, self.ops(), lo, sites(labels@), sites(r.1@));
            lemma_sites_append(labels@, r.1@);
            assert forall|k: int|
                0 <= k < (labels@ + r.1@).len() implies lo <= #[trigger] (labels@ + r.1@)[k] < self.ops().len()
                    && self.ops()[(labels@ + r.1@)[k] as int].opcode == OpCode::Jmf(0) by {
                if k < labels.len() {
                    assert((labels@ + r.1@)[k] == labels@[k]);
                } else {
                    assert((labels@ + r.1@)[k] == r.1@[k - labels.len()]);
                }
            }
        }
        r
    }

    /// Patches every site in `fails` to jump to the current end of the buffer.
    fn patch_sites(&mut self, fails: &Vec<usize>, Ghost(lo): Ghost<int>, Ghost(pending): Ghost<Set<int>>)
        requires
            old(self).wf(),
            0 <= lo,
            forward_except(old(self).ops(), lo, pending.union(sites(fails@))),
            forall|k: int|
                0 <= k < fails.len() ==> lo <= #[trigger] fails@[k] < old(self).ops().len()
                    && is_jump(old(self).ops()[fails@[k] as int].opcode),
        ensures
            final(self).wf(),
            final(self).ops().len() == old(self).ops().len(),
            forward_except(final(self).ops(), lo, pending),
            forall|i: int|
                0 <= i < old(self).ops().len() && !sites(fails@).contains(i) ==> #[trigger] final(
                    self
                ).ops()[i] == old(self).ops()[i],
            forall|k: int|
                0 <= k < fails.len() ==> final(self).ops()[#[trigger] fails@[k] as int].opcode
                    == retarget(old(self).ops()[fails@[k] as int].opcode, old(self).ops().len() as usize),
            final(self).constants == old(self).constants,
            final(self).scope.locals == old(self).scope.locals,
            final(self).scope.next_slot == old(self).scope.next_slot,
            final(self).unique_counter == old(self).unique_counter,
    {
        let ghost n = self.ops().len();
        let mut j: usize = 0;
        assert(fails@.subrange(0, fails.len() as int) =~= fails@);
        while j < fails.len()
            invariant
                0 <= lo,
                j <= fails.len(),
                self.wf(),
                self.ops().len() == n == old(self).ops().len(),
                forward_except(self.ops(), lo, pending.union(sites(fails@.subrange(j as int, fails.len() as int)))),
                forall|k: int|
                    0 <= k < fails.len() ==> is_jump(old(self).ops()[#[trigger] fails@[k] as int].opcode),
                forall|k: int|
                    0 <= k < fails.len() ==> lo <= #[trigger] fails@[k] < n && (self.ops()[fails@[k] as int]
                        == old(self).ops()[fails@[k] as int] || self.ops()[fails@[k] as int].opcode
                        == retarget(old(self).ops()[fails@[k] as int].opcode, n as usize)),
                forall|k: int|
                    0 <= k < j ==> self.ops()[#[trigger] fails@[k] as int].opcode == retarget(old(self).ops()[fails@[k] as int].opcode, n as usize),
                forall|i: int|
                    0 <= i < n && !sites(fails@).contains(i) ==> #[trigger] self.ops()[i] == old(self).ops()[i],
                self.constants == old(self).constants,
                self.scope.locals == old(self).scope.locals,
                self.scope.next_slot == old(self).scope.next_slot,
                self.unique_counter == old(self).unique_counter,
            decreases fails.len() - j,
        {
            let site = fails[j];
            let ghost before = self.ops();
            proof {
                assert(lo <= fails@[j as int] < n);
                assert(is_jump(old(self).ops()[site as int].opcode));
                assert(is_jump(self.ops()[site as int].opcode));
            }
            self.patch(site);
            proof {
                let rest = fails@.subrange(j as int, fails.len() as int);
                let next = fails@.subrange(j + 1, fails.len() as int);
                let big = pending.union(sites(rest));
                lemma_forward_patch(before, self.ops(), lo, big, site as int);
                assert(big.remove(site as int).subset_of(pending.union(sites(next)))) by {
                    assert forall|i: int| big.remove(site as int).contains(i) implies pending.union(sites(next)).contains(i) by {
                        if sites(rest).contains(i) && !pending.contains(i) {
                            let k = choose|k: int| 0 <= k < rest.len() && rest[k] as int == i;
                            assert(k != 0);
                            assert(next[k - 1] as int == i);
                        }
                    }
                }
                lemma_forward_mono(self.ops(), lo, big.remove(site as int), pending.union(sites(next)));
                assert(sites(fails@).contains(site as int)) by {
                    assert(fails@[j as int] == site);
                }
                assert forall|k: int|
                    0 <= k < fails.len() implies lo <= #[trigger] fails@[k] < n && (self.ops()[fails@[k] as int]
                        == old(self).ops()[fails@[k] as int] || self.ops()[fails@[k] as int].opcode
                        == retarget(old(self).ops()[fails@[k] as int].opcode, n as usize)) by {
                    if fails@[k] != site {
                        assert(self.ops()[fails@[k] as int] == before[fails@[k] as int]);
                    }
                }
                assert forall|k: int|
                    0 <= k < j + 1 implies self.ops()[#[trigger] fails@[k] as int].opcode == retarget(old(self).ops()[fails@[k] as int].opcode, n as usize) by {
                    if fails@[k] != site {
                        assert(self.ops()[fails@[k] as int] == before[fails@[k] as int]);
                    }
                }
            }
            j = j + 1;
        }
        proof {
            assert(sites(fails@.subrange(fails.len() as int, fails.len() as int)) =~= Set::<int>::empty());
            assert(pending.union(Set::<int>::empty()) =~= pending);
        }
    }

    /// Emits the failure raised when no clause matched: `raise(msg, :MatchError)`.
    fn emit_match_error(&mut self, msg: &str, loc: Location)
        requires
            old(self).wf(),
        ensures
            final(self).wf(),
            final(self).unique_counter < final(self).ops().len(),
            final(self).ops().len() == old(self).ops().len() + 4,
            extends(old(self).ops(), final(self).ops()),
            extends(old(self).constants@, final(self).constants@),
            forward_from(final(self).ops(), old(self).ops().len() as int),
            final(self).ops().last() == ins(OpCode::Call(2), loc),
            final(self).scope.locals == old(self).scope.locals,
            final(self).scope.next_slot == old(self).scope.next_slot,
            final(self).unique_counter == old(self).unique_counter,
            code_matches(final(self).ops(), old(self).ops().len() as int, tail_steps(msg@), final(self).constants@),
    {
        let ghost lo = self.ops().len() as int;
        let ghost mut acc: Seq<Step> = Seq::empty();
        let ghost o = self.ops();
        let ghost c = self.constants@;
        self.emit_const(Value::Str(String::from_str(msg)), loc);
        proof {
            lemma_code_step(o, c, lo, acc, self.ops(), self.constants@, Step::PushStr(msg@));
            acc = acc.push(Step::PushStr(msg@));
        }
        let ghost o = self.ops();
        let ghost c = self.constants@;
        self.emit_const(Value::Sym(String::from_str("MatchError")), loc);
        proof {
            lemma_code_step(o, c, lo, acc, self.ops(), self.constants@, Step::PushSym("MatchError"@));
            acc = acc.push(Step::PushSym("MatchError"@));
        }
        let ghost o = self.ops();
        let ghost c = self.constants@;
        self.emit_op(OpCode::Loag(String::from_str("raise")), loc);
        proof {
            lemma_code_step(o, c, lo, acc, self.ops(), self.constants@, Step::LoagName("raise"@));
            acc = acc.push(Step::LoagName("raise"@));
        }
        let ghost o = self.ops();
        let ghost c = self.constants@;
        self.emit_op(OpCode::Call(2), loc);
        proof {
            lemma_code_step(o, c, lo, acc, self.ops(), self.constants@, Step::Op(OpCode::Call(2)));
            acc = acc.push(Step::Op(OpCode::Call(2)));
            assert(acc =~= tail_steps(msg@));
        }
    }

    /// The common guarantee of emitting one expression: the state stays well
    /// formed, the buffer and the pool only grow, and every jump emitted goes
    /// forward within the buffer.
    pub open spec fn emitted_from(&self, before: Compiler) -> bool {
        &&& self.wf()
        &&& self.unique_counter < self.ops().len()
        &&& before.ops().len() < self.ops().len()
        &&& extends(before.ops(), self.ops())
        &&& extends(before.constants@, self.constants@)
        &&& forward_from(self.ops(), before.ops().len() as int)
        &&& self.scope.next_slot >= before.scope.next_slot
    }

    /// `e` was compiled: its code, `expr_code(e)`, follows what was there.
    pub open spec fn compiled(&self, before: Compiler, e: Expr) -> bool {
        &&& self.emitted_from(before)
        &&& shape(e, before.ops().len() as int, self.ops(), self.constants@)
        &&& self.ops().len() == before.ops().len() + expr_code(e).len()
        &&& code_matches(self.ops(), before.ops().len() as int, expr_code(e), self.constants@)
    }

    /// Compiles `node`, leaving exactly one value on the stack: its code is
    /// `expr_code(*node)`.
    fn expr(&mut self, node: &Expr)
        requires
            old(self).wf(),
            old(self).counter_ok(),
        ensures
            final(self).compiled(*old(self), *node),
            node.kind matches ExprKind::Var(x) ==> (old(self).scope.slot_of(x@) matches Some(k)
                ==> final(self).ops() == old(self).ops().push(ins(OpCode::Load(k), node.location))),
            node.kind matches ExprKind::Var(x) ==> (old(self).scope.slot_of(x@) is None
                ==> final(self).ops() == old(self).ops().push(ins(OpCode::Loag(x), node.location))),
        decreases node, 1nat,
    {
        let loc = node.location;
        let ghost lo = self.ops().len() as int;
        let ghost acc: Seq<Step> = Seq::empty();
        match &node.kind {
            ExprKind::Lit(lit) => {
                let ghost o = self.ops();
                let ghost c = self.constants@;
                self.emit_lit(lit, loc);
                proof {
                    lemma_code_step(o, c, lo, acc, self.ops(), self.constants@, Step::PushLit(*lit));
                    assert(acc.push(Step::PushLit(*lit)) =~= expr_code(*node));
                }
            },
            ExprKind::Lambda { args, body } => {
                let func = self.lambda_expr(args, body, loc);
                let ghost o = self.ops();
                let ghost c = self.constants@;
                self.emit_const(Value::Fn(func), loc);
                proof {
                    lemma_code_step(o, c, lo, acc, self.ops(), self.constants@, Step::PushFn(args.len() as nat));
                    assert(acc.push(Step::PushFn(args.len() as nat)) =~= expr_code(*node));
                }
            },
            ExprKind::Var(name) => {
                let ghost o = self.ops();
                let ghost c = self.constants@;
                self.emit_load(name, loc);
                proof {
                    lemma_code_step(o, c, lo, acc, self.ops(), self.constants@, Step::LoadVar(name@));
                    assert(acc.push(Step::LoadVar(name@)) =~= expr_code(*node));
                }
            },
            ExprKind::App { .. } => self.app_expr(node),
            ExprKind::If { .. } => self.if_expr(node),
            ExprKind::Match { .. } => self.match_expr(node),
            ExprKind::Let { .. } => self.let_expr(node),
            ExprKind::Def { .. } => self.def_expr(node),
            ExprKind::Binary { op, .. } => {
                if *op == BinOp::And || *op == BinOp::Or {
                    self.short_circuit(node);
                } else {
                    self.binary_expr(node);
                }
            },
            ExprKind::List(..) => self.list_expr(node),
            ExprKind::Cons { .. } => self.cons_expr(node),
            ExprKind::UnOp(..) => self.unop_expr(node),
            ExprKind::MethodRef { .. } => self.method_ref_expr(node),
            ExprKind::Try { .. } => self.try_expr(node),
            ExprKind::Tuple(..) => self.tuple_expr(node),
        }
    }

    /// Application: the arguments, `RevN` when there are several, the callee, the call.
    fn app_expr(&mut self, node: &Expr)
        requires
            old(self).wf(),
            old(self).counter_ok(),
            node.kind is App,
        ensures
            final(self).compiled(*old(self), *node),
        decreases node, 0nat,
    {
        let loc = node.location;
        let ghost lo = self.ops().len() as int;
        let ghost mut acc: Seq<Step> = Seq::empty();
        match &node.kind {
            ExprKind::App { callee, args, tail } => {
                let ghost o = self.ops();
                let ghost c = self.constants@;
                self.exprs(args, false);
                proof {
                    lemma_code_append(o, c, lo, acc, self.ops(), self.constants@, exprs_code(args@));
                    acc = acc + exprs_code(args@);
                }
                let ghost before_rev = acc;
                if args.len() > 1 {
                    let ghost o = self.ops();
                    let ghost c = self.constants@;
                    self.emit_op(OpCode::RevN(args.len()), loc);
                    proof {
                        lemma_code_step(o, c, lo, acc, self.ops(), self.constants@, Step::Op(OpCode::RevN(args.len())));
                        acc = acc.push(Step::Op(OpCode::RevN(args.len())));
                    }
                }
                proof {
                    assert(acc =~= before_rev + (if args.len() > 1 {
                        seq![Step::Op(OpCode::RevN(args.len()))]
                    } else {
                        Seq::empty()
                    }));
                }
                let ghost o = self.ops();
                let ghost c = self.constants@;
                self.expr(callee);
                proof {
                    lemma_forward_extend(o, self.ops(), lo, Set::empty(), Set::empty());
                    lemma_code_append(o, c, lo, acc, self.ops(), self.constants@, expr_code(**callee));
                    acc = acc + expr_code(**callee);
                }
                if *tail {
                    let ghost o = self.ops();
                    let ghost c = self.constants@;
                    self.emit_op(OpCode::TCall(args.len()), loc);
                    proof {
                        lemma_code_step(o, c, lo, acc, self.ops(), self.constants@, Step::Op(OpCode::TCall(args.len())));
                        acc = acc.push(Step::Op(OpCode::TCall(args.len())));
                    }
                } else {
                    let ghost o = self.ops();
                    let ghost c = self.constants@;
                    self.emit_op(OpCode::Call(args.len()), loc);
                    proof {
                        lemma_code_step(o, c, lo, acc, self.ops(), self.constants@, Step::Op(OpCode::Call(args.len())));
                        acc = acc.push(Step::Op(OpCode::Call(args.len())));
                    }
                }
                proof {
                    assert(acc =~= expr_code(*node));
                }
            },
            _ => {},
        }
    }

    /// `def bind = value in body`: the value stored into a local, then the body.
    fn def_expr(&mut self, node: &Expr)
        requires
            old(self).wf(),
            old(self).counter_ok(),
            node.kind is Def,
        ensures
            final(self).compiled(*old(self), *node),
        decreases node, 0nat,
    {
        let loc = node.location;
        let ghost lo = self.ops().len() as int;
        let ghost mut acc: Seq<Step> = Seq::empty();
        match &node.kind {
            ExprKind::Def { bind, body } => {
                let ghost o = self.ops();
                let ghost c = self.constants@;
                self.expr(&bind.value);
                proof {
                    lemma_forward_extend(o, self.ops(), lo, Set::empty(), Set::empty());
                    lemma_code_append(o, c, lo, acc, self.ops(), self.constants@, expr_code(*bind.value));
                    acc = acc + expr_code(*bind.value);
                }
                let ghost o = self.ops();
                let ghost c = self.constants@;
                self.emit_save(bind.bind.clone(), loc);
                proof {
                    lemma_code_step(o, c, lo, acc, self.ops(), self.constants@, Step::SaveAny);
                    acc = acc.push(Step::SaveAny);
                }
                let ghost o = self.ops();
                let ghost c = self.constants@;
                self.expr(body);
                proof {
                    lemma_forward_extend(o, self.ops(), lo, Set::empty(), Set::empty());
                    lemma_code_append(o, c, lo, acc, self.ops(), self.constants@, expr_code(**body));
                    acc = acc + expr_code(**body);
                }
                proof {
                    assert(acc =~= expr_code(*node));
                }
            },
            _ => {},
        }
    }

    /// A binary operator other than `and` / `or`: both operands, then its opcodes.
    fn binary_expr(&mut self, node: &Expr)
        requires
            old(self).wf(),
            old(self).counter_ok(),
            node.kind matches ExprKind::Binary { op, .. } && op != BinOp::And && op != BinOp::Or,
        ensures
            final(self).compiled(*old(self), *node),
        decreases node, 0nat,
    {
        let loc = node.location;
        let ghost lo = self.ops().len() as int;
        let ghost mut acc: Seq<Step> = Seq::empty();
        match &node.kind {
            ExprKind::Binary { left, op, right } => {
                let ghost o = self.ops();
                let ghost c = self.constants@;
                self.expr(left);
                proof {
                    lemma_forward_extend(o, self.ops(), lo, Set::empty(), Set::empty());
                    lemma_code_append(o, c, lo, acc, self.ops(), self.constants@, expr_code(**left));
                    acc = acc + expr_code(**left);
                }
                let ghost o = self.ops();
                let ghost c = self.constants@;
                self.expr(right);
                proof {
                    lemma_forward_extend(o, self.ops(), lo, Set::empty(), Set::empty());
                    lemma_code_append(o, c, lo, acc, self.ops(), self.constants@, expr_code(**right));
                    acc = acc + expr_code(**right);
                }
                let ghost o = self.ops();
                let ghost c = self.constants@;
                self.emit_binop(*op, loc);
                proof {
                    lemma_code_append(o, c, lo, acc, self.ops(), self.constants@, binop_steps(*op));
                    acc = acc + binop_steps(*op);
                }
                proof {
                    assert(acc =~= expr_code(*node));
                }
            },
            _ => {},
        }
    }

    /// A list literal: the elements, the empty list, one `Prep` per element.
    fn list_expr(&mut self, node: &Expr)
        requires
            old(self).wf(),
            old(self).counter_ok(),
            node.kind is List,
        ensures
            final(self).compiled(*old(self), *node),
        decreases node, 0nat,
    {
        let loc = node.location;
        let ghost lo = self.ops().len() as int;
        let ghost mut acc: Seq<Step> = Seq::empty();
        match &node.kind {
            ExprKind::List(xs) => {
                let ghost o = self.ops();
                let ghost c = self.constants@;
                self.exprs(xs, false);
                proof {
                    lemma_code_append(o, c, lo, acc, self.ops(), self.constants@, exprs_code(xs@));
                    acc = acc + exprs_code(xs@);
                }
                let ghost o = self.ops();
                let ghost c = self.constants@;
                self.emit_const(Value::List(Vec::new()), loc);
                proof {
                    lemma_code_step(o, c, lo, acc, self.ops(), self.constants@, Step::PushEmptyList);
                    acc = acc.push(Step::PushEmptyList);
                }
                let ghost head = acc;
                let mut i: usize = 0;
                proof {
                    assert(head + Seq::new(0, |k: int| Step::Op(OpCode::Prep)) =~= head);
                }
                while i < xs.len()
                    invariant
                        i <= xs.len(),
                        lo == old(self).ops().len(),
                        self.emitted_from(*old(self)),
                        code_matches(self.ops(), lo, acc, self.constants@),
                        lo + acc.len() == self.ops().len(),
                        acc == head + Seq::new(i as nat, |k: int| Step::Op(OpCode::Prep)),
                        i > 0 ==> self.ops().last() == ins(OpCode::Prep, loc),
                        xs.len() == 0 ==> self.ops().len() == lo + 1 && (self.ops()[lo].opcode matches OpCode::Push(k) && k
                            < self.constants.len() && (self.constants@[k as int] matches Value::List(v) && v.len() == 0)),
                    decreases xs.len() - i,
                {
                    let ghost o = self.ops();
                    let ghost c = self.constants@;
                    self.emit_op(OpCode::Prep, loc);
                    proof {
                        lemma_code_step(o, c, lo, acc, self.ops(), self.constants@, Step::Op(OpCode::Prep));
                        acc = acc.push(Step::Op(OpCode::Prep));
                    }
                    proof {
                        assert(acc =~= head + Seq::new((i + 1) as nat, |k: int| Step::Op(OpCode::Prep)));
                    }
                    i = i + 1;
                }
                proof {
                    assert(acc =~= expr_code(*node));
                }
            },
            _ => {},
        }
    }

    /// `head :: tail`: both, then `Prep`.
    fn cons_expr(&mut self, node: &Expr)
        requires
            old(self).wf(),
            old(self).counter_ok(),
            node.kind is Cons,
        ensures
            final(self).compiled(*old(self), *node),
        decreases node, 0nat,
    {
        let loc = node.location;
        let ghost lo = self.ops().len() as int;
        let ghost mut acc: Seq<Step> = Seq::empty();
        match &node.kind {
            ExprKind::Cons { head, tail } => {
                let ghost o = self.ops();
                let ghost c = self.constants@;
                self.expr(head);
                proof {
                    lemma_forward_extend(o, self.ops(), lo, Set::empty(), Set::empty());
                    lemma_code_append(o, c, lo, acc, self.ops(), self.constants@, expr_code(**head));
                    acc = acc + expr_code(**head);
                }
                let ghost o = self.ops();
                let ghost c = self.constants@;
                self.expr(tail);
                proof {
                    lemma_forward_extend(o, self.ops(), lo, Set::empty(), Set::empty());
                    lemma_code_append(o, c, lo, acc, self.ops(), self.constants@, expr_code(**tail));
                    acc = acc + expr_code(**tail);
                }
                let ghost o = self.ops();
                let ghost c = self.constants@;
                self.emit_op(OpCode::Prep, loc);
                proof {
                    lemma_code_step(o, c, lo, acc, self.ops(), self.constants@, Step::Op(OpCode::Prep));
                    acc = acc.push(Step::Op(OpCode::Prep));
                }
                proof {
                    assert(acc =~= expr_code(*node));
                }
            },
            _ => {},
        }
    }

    /// A unary operator: the operand, then its opcode.
    fn unop_expr(&mut self, node: &Expr)
        requires
            old(self).wf(),
            old(self).counter_ok(),
            node.kind is UnOp,
        ensures
            final(self).compiled(*old(self), *node),
        decreases node, 0nat,
    {
        let loc = node.location;
        let ghost lo = self.ops().len() as int;
        let ghost mut acc: Seq<Step> = Seq::empty();
        match &node.kind {
            ExprKind::UnOp(op, right) => {
                let ghost o = self.ops();
                let ghost c = self.constants@;
                self.expr(right);
                proof {
                    lemma_forward_extend(o, self.ops(), lo, Set::empty(), Set::empty());
                    lemma_code_append(o, c, lo, acc, self.ops(), self.constants@, expr_code(**right));
                    acc = acc + expr_code(**right);
                }
                let ghost o = self.ops();
                let ghost c = self.constants@;
                self.emit_unop(*op, loc);
                proof {
                    lemma_code_step(o, c, lo, acc, self.ops(), self.constants@, unop_step(*op));
                    acc = acc.push(unop_step(*op));
                }
                proof {
                    assert(acc =~= expr_code(*node));
                }
            },
            _ => {},
        }
    }

    /// `ty.method`: the value, then `Ref(method)`.
    fn method_ref_expr(&mut self, node: &Expr)
        requires
            old(self).wf(),
            old(self).counter_ok(),
            node.kind is MethodRef,
        ensures
            final(self).compiled(*old(self), *node),
        decreases node, 0nat,
    {
        let loc = node.location;
        let ghost lo = self.ops().len() as int;
        let ghost mut acc: Seq<Step> = Seq::empty();
        match &node.kind {
            ExprKind::MethodRef { ty, method } => {
                let ghost o = self.ops();
                let ghost c = self.constants@;
                self.expr(ty);
                proof {
                    lemma_forward_extend(o, self.ops(), lo, Set::empty(), Set::empty());
                    lemma_code_append(o, c, lo, acc, self.ops(), self.constants@, expr_code(**ty));
                    acc = acc + expr_code(**ty);
                }
                let ghost o = self.ops();
                let ghost c = self.constants@;
                self.emit_op(OpCode::Ref(method.clone()), loc);
                proof {
                    lemma_code_step(o, c, lo, acc, self.ops(), self.constants@, Step::Op(OpCode::Ref(*method)));
                    acc = acc.push(Step::Op(OpCode::Ref(*method)));
                }
                proof {
                    assert(acc =~= expr_code(*node));
                }
            },
            _ => {},
        }
    }

    /// A tuple: the elements from the last to the first, then `Tup(n)`.
    fn tuple_expr(&mut self, node: &Expr)
        requires
            old(self).wf(),
            old(self).counter_ok(),
            node.kind is Tuple,
        ensures
            final(self).compiled(*old(self), *node),
        decreases node, 0nat,
    {
        let loc = node.location;
        let ghost lo = self.ops().len() as int;
        let ghost mut acc: Seq<Step> = Seq::empty();
        match &node.kind {
            ExprKind::Tuple(xs) => {
                let ghost o = self.ops();
                let ghost c = self.constants@;
                self.exprs(xs, true);
                proof {
                    lemma_code_append(o, c, lo, acc, self.ops(), self.constants@, exprs_code_rev(xs@));
                    acc = acc + exprs_code_rev(xs@);
                }
                let ghost o = self.ops();
                let ghost c = self.constants@;
                self.emit_op(OpCode::Tup(xs.len()), loc);
                proof {
                    lemma_code_step(o, c, lo, acc, self.ops(), self.constants@, Step::Op(OpCode::Tup(xs.len())));
                    acc = acc.push(Step::Op(OpCode::Tup(xs.len())));
                }
                proof {
                    assert(acc =~= expr_code(*node));
                }
            },
            _ => {},
        }
    }

    /// Compiles each expression of `xs` in turn, or from the last to the first.
    fn exprs(&mut self, xs: &Vec<Expr>, reverse: bool)
        requires
            old(self).wf(),
            old(self).counter_ok(),
        ensures
            final(self).wf(),
            final(self).counter_ok(),
            final(self).unique_counter <= final(self).ops().len(),
            extends(old(self).ops(), final(self).ops()),
            extends(old(self).constants@, final(self).constants@),
            forward_from(final(self).ops(), old(self).ops().len() as int),
            xs.len() > 0 ==> old(self).ops().len() < final(self).ops().len(),
            xs.len() == 0 ==> *final(self) == *old(self),
            final(self).scope.next_slot >= old(self).scope.next_slot,
            final(self).ops().len() == old(self).ops().len() + (if reverse { exprs_code_rev(xs@) } else { exprs_code(xs@) }).len(),
            code_matches(final(self).ops(), old(self).ops().len() as int, if reverse { exprs_code_rev(xs@) } else { exprs_code(xs@) }, final(self).constants@),
        decreases xs, 0nat,
    {
        let ghost lo = self.ops().len() as int;
        let n = xs.len();
        let mut i: usize = 0;
        let ghost mut acc: Seq<Step> = Seq::empty();
        proof {
            assert(xs@.subrange(0, 0) =~= Seq::<Expr>::empty());
            assert(xs@.subrange(n as int, n as int) =~= Seq::<Expr>::empty());
        }
        while i < n
            invariant
                n == xs.len(),
                i <= n,
                self.wf(),
                self.counter_ok(),
                extends(old(self).ops(), self.ops()),
                extends(old(self).constants@, self.constants@),
                forward_from(self.ops(), lo),
                lo == old(self).ops().len(),
                i > 0 ==> lo < self.ops().len(),
                i == 0 ==> *self == *old(self),
                self.scope.next_slot >= old(self).scope.next_slot,
                code_matches(self.ops(), lo, acc, self.constants@),
                lo + acc.len() == self.ops().len(),
                acc == (if reverse { exprs_code_rev(xs@.subrange(n - i, n as int)) } else { exprs_code(xs@.subrange(0, i as int)) }),
            decreases n - i,
        {
            let k = if reverse { n - 1 - i } else { i };
            let ghost mid = self.ops();
            let ghost c = self.constants@;
            proof {
                assert(decreases_to!(*xs => xs[k as int]));
            }
            self.expr(&xs[k]);
            proof {
                lemma_forward_extend(mid, self.ops(), lo, Set::empty(), Set::empty());
                lemma_code_append(mid, c, lo, acc, self.ops(), self.constants@, expr_code(xs@[k as int]));
                acc = acc + expr_code(xs@[k as int]);
                if reverse {
                    let sub = xs@.subrange(n - i - 1, n as int);
                    assert(sub.subrange(1, sub.len() as int) =~= xs@.subrange(n - i, n as int));
                    assert(sub[0] == xs@[k as int]);
                } else {
                    let sub = xs@.subrange(0, i + 1);
                    assert(sub.subrange(0, i as int) =~= xs@.subrange(0, i as int));
                    assert(sub[i as int] == xs@[k as int]);
                }
            }
            i = i + 1;
        }
        proof {
            assert(xs@.subrange(0, n as int) =~= xs@);
        }
    }

    /// The opcodes of a binary operator other than `and` / `or`; `!=` is `Eq; Not`.
    fn emit_binop(&mut self, op: BinOp, loc: Location)
        requires
            old(self).wf(),
            op != BinOp::And && op != BinOp::Or,
        ensures
            code_matches(final(self).ops(), old(self).ops().len() as int, binop_steps(op), final(self).constants@),
            final(self).ops().len() == old(self).ops().len() + binop_steps(op).len(),
            final(self).wf(),
            final(self).unique_counter < final(self).ops().len(),
            old(self).ops().len() < final(self).ops().len(),
            extends(old(self).ops(), final(self).ops()),
            final(self).constants == old(self).constants,
            forward_from(final(self).ops(), old(self).ops().len() as int),
            final(self).scope.next_slot == old(self).scope.next_slot,
    {
        match op {
            BinOp::Add => self.emit_op(OpCode::Add, loc),
            BinOp::Sub => self.emit_op(OpCode::Sub, loc),
            BinOp::Mul => self.emit_op(OpCode::Mul, loc),
            BinOp::Div => self.emit_op(OpCode::Div, loc),
            BinOp::Rem => self.emit_op(OpCode::Rem, loc),
            BinOp::Eq => self.emit_op(OpCode::Eq, loc),
            BinOp::Ne => {
                self.emit_op(OpCode::Eq, loc);
                self.emit_op(OpCode::Not, loc);
                assert(binop_steps(op)[1] == Step::Op(OpCode::Not));
            },
            BinOp::Less => self.emit_op(OpCode::Less, loc),
            BinOp::LessEq => self.emit_op(OpCode::LessEq, loc),
            BinOp::Greater => self.emit_op(OpCode::Greater, loc),
            BinOp::GreaterEq => self.emit_op(OpCode::GreaterEq, loc),
            BinOp::BitAnd => self.emit_op(OpCode::BitAnd, loc),
            BinOp::BitOr => self.emit_op(OpCode::BitOr, loc),
            BinOp::BitXor => self.emit_op(OpCode::Xor, loc),
            BinOp::Shl => self.emit_op(OpCode::Shl, loc),
            BinOp::Shr => self.emit_op(OpCode::Shr, loc),
            BinOp::And | BinOp::Or => {},
        }
    }

    /// The opcode of a unary operator.
    fn emit_unop(&mut self, op: UnOp, loc: Location)
        requires
            old(self).wf(),
        ensures
            step_ok(unop_step(op), final(self).ops()[old(self).ops().len() as int].opcode, old(self).ops().len() as int, final(self).constants@),
            final(self).wf(),
            final(self).unique_counter < final(self).ops().len(),
            final(self).ops().len() == old(self).ops().len() + 1,
            extends(old(self).ops(), final(self).ops()),
            final(self).constants == old(self).constants,
            forward_from(final(self).ops(), old(self).ops().len() as int),
            final(self).scope.next_slot == old(self).scope.next_slot,
    {
        match op {
            UnOp::Not => self.emit_op(OpCode::Not, loc),
            UnOp::Neg => self.emit_op(OpCode::Neg, loc),
            UnOp::Len => self.emit_op(OpCode::Len, loc),
        }
    }

    /// `if cond then a else b`: a `Jmf` past the `then` branch and its closing
    /// `Jmp`, which skips the `else` branch.
    #[verifier::rlimit(60)]
    fn if_expr(&mut self, node: &Expr)
        requires
            old(self).wf(),
            old(self).counter_ok(),
            node.kind is If,
        ensures
            final(self).compiled(*old(self), *node),
        decreases node, 0nat,
    {
        let loc = node.location;
        let ghost lo = self.ops().len() as int;
        let ghost mut acc: Seq<Step> = Seq::empty();
        match &node.kind {
            ExprKind::If { cond, then, else_ } => {
                let ghost o_ = self.ops();
                let ghost c_ = self.constants@;
                self.expr(cond);
                proof {
                    lemma_code_append(o_, c_, lo, acc, self.ops(), self.constants@, expr_code(**cond));
                    acc = acc + expr_code(**cond);
                }
                let then_label = self.scope.opcodes.len();
                let ghost o_ = self.ops();
                let ghost c_ = self.constants@;
                self.emit_op(OpCode::Jmf(0), loc);
                proof {
                    lemma_code_step(o_, c_, lo, acc, self.ops(), self.constants@, Step::Fail);
                    acc = acc.push(Step::Fail);
                }
                let ghost s1 = self.ops();
                proof {
                    lemma_forward_push(s1.drop_last(), s1.last(), lo, Set::empty());
                    assert(s1.drop_last().push(s1.last()) == s1);
                    assert(Set::<int>::empty().insert(then_label as int) =~= set![then_label as int]);
                }
                let ghost o_ = self.ops();
                let ghost c_ = self.constants@;
                self.expr(then);
                proof {
                    lemma_code_append(o_, c_, lo, acc, self.ops(), self.constants@, expr_code(**then));
                    acc = acc + expr_code(**then);
                }
                proof {
                    lemma_forward_extend(s1, self.ops(), lo, set![then_label as int], Set::empty());
                }
                let else_label = self.scope.opcodes.len();
                let ghost o_ = self.ops();
                let ghost c_ = self.constants@;
                self.emit_op(OpCode::Jmp(0), loc);
                proof {
                    lemma_code_step(o_, c_, lo, acc, self.ops(), self.constants@, Step::Exit);
                    acc = acc.push(Step::Exit);
                }
                let ghost s2 = self.ops();
                proof {
                    lemma_forward_push(s2.drop_last(), s2.last(), lo, set![then_label as int]);
                    assert(s2.drop_last().push(s2.last()) == s2);
                }
                let ghost o_ = self.ops();
                let ghost c_ = self.constants@;
                self.patch(then_label);
                proof {
                    lemma_code_patch_one(o_, self.ops(), lo, acc, c_, then_label as int, Step::JmfFwd(expr_code(**then).len() + 2));
                    acc = acc.update(then_label - lo, Step::JmfFwd(expr_code(**then).len() + 2));
                    lemma_code_extend(self.ops(), c_, lo, acc, self.ops(), self.constants@);
                }
                proof {
                    lemma_forward_patch(s2, self.ops(), lo, set![then_label as int].insert(else_label as int), then_label as int);
                    assert(set![then_label as int].insert(else_label as int).remove(then_label as int) =~= set![else_label as int]);
                }
                let ghost s3 = self.ops();
                let ghost o_ = self.ops();
                let ghost c_ = self.constants@;
                self.expr(else_);
                proof {
                    lemma_code_append(o_, c_, lo, acc, self.ops(), self.constants@, expr_code(**else_));
                    acc = acc + expr_code(**else_);
                }
                proof {
                    lemma_forward_extend(s3, self.ops(), lo, set![else_label as int], Set::empty());
                }
                let ghost s4 = self.ops();
                let ghost o_ = self.ops();
                let ghost c_ = self.constants@;
                self.patch(else_label);
                proof {
                    lemma_code_patch_one(o_, self.ops(), lo, acc, c_, else_label as int, Step::JmpFwd(expr_code(**else_).len() + 1));
                    acc = acc.update(else_label - lo, Step::JmpFwd(expr_code(**else_).len() + 1));
                    lemma_code_extend(self.ops(), c_, lo, acc, self.ops(), self.constants@);
                }
                proof {
                    lemma_forward_patch(s4, self.ops(), lo, set![else_label as int], else_label as int);
                    assert(set![else_label as int].remove(else_label as int) =~= Set::<int>::empty());
                    let ops = self.ops();
                    assert(ops[then_label as int].opcode == OpCode::Jmf((else_label + 1) as usize));
                    assert(ops[else_label as int].opcode == OpCode::Jmp(ops.len() as usize));
                    assert(acc =~= expr_code(*node));
                }
            },
            _ => {},
        }
    }

    /// Short-circuit `and` / `or`: the value that decides stays on the stack.
    #[verifier::rlimit(60)]
    fn short_circuit(&mut self, node: &Expr)
        requires
            old(self).wf(),
            old(self).counter_ok(),
            node.kind matches ExprKind::Binary { op, .. } && (op == BinOp::And || op == BinOp::Or),
        ensures
            final(self).compiled(*old(self), *node),
        decreases node, 0nat,
    {
        let loc = node.location;
        let ghost lo = self.ops().len() as int;
        let ghost mut acc: Seq<Step> = Seq::empty();
        match &node.kind {
            ExprKind::Binary { left, op, right } => {
                let ghost o_ = self.ops();
                let ghost c_ = self.constants@;
                self.expr(left);
                proof {
                    lemma_code_append(o_, c_, lo, acc, self.ops(), self.constants@, expr_code(**left));
                    acc = acc + expr_code(**left);
                }
                let d = self.scope.opcodes.len();
                let ghost o_ = self.ops();
                let ghost c_ = self.constants@;
                self.emit_op(OpCode::Dup, loc);
                proof {
                    lemma_code_step(o_, c_, lo, acc, self.ops(), self.constants@, Step::Op(OpCode::Dup));
                    acc = acc.push(Step::Op(OpCode::Dup));
                }
                if *op == BinOp::Or {
                    let ghost o_ = self.ops();
                    let ghost c_ = self.constants@;
                    self.emit_op(OpCode::Not, loc);
                    proof {
                        lemma_code_step(o_, c_, lo, acc, self.ops(), self.constants@, Step::Op(OpCode::Not));
                        acc = acc.push(Step::Op(OpCode::Not));
                    }
                }
                let label = self.scope.opcodes.len();
                let ghost o_ = self.ops();
                let ghost c_ = self.constants@;
                self.emit_op(OpCode::Jmf(0), loc);
                proof {
                    lemma_code_step(o_, c_, lo, acc, self.ops(), self.constants@, Step::Fail);
                    acc = acc.push(Step::Fail);
                }
                let ghost s1 = self.ops();
                proof {
                    lemma_forward_push(s1.drop_last(), s1.last(), lo, Set::empty());
                    assert(s1.drop_last().push(s1.last()) == s1);
                    assert(Set::<int>::empty().insert(label as int) =~= set![label as int]);
                }
                let ghost o_ = self.ops();
                let ghost c_ = self.constants@;
                self.emit_op(OpCode::Pop, loc);
                proof {
                    lemma_code_step(o_, c_, lo, acc, self.ops(), self.constants@, Step::Op(OpCode::Pop));
                    acc = acc.push(Step::Op(OpCode::Pop));
                }
                let ghost s2 = self.ops();
                proof {
                    lemma_forward_push(s1, s2.last(), lo, set![label as int]);
                    assert(s1.push(s2.last()) == s2);
                }
                let ghost o_ = self.ops();
                let ghost c_ = self.constants@;
                self.expr(right);
                proof {
                    lemma_code_append(o_, c_, lo, acc, self.ops(), self.constants@, expr_code(**right));
                    acc = acc + expr_code(**right);
                }
                proof {
                    lemma_forward_extend(s2, self.ops(), lo, set![label as int], Set::empty());
                }
                let ghost s3 = self.ops();
                let ghost o_ = self.ops();
                let ghost c_ = self.constants@;
                self.patch(label);
                proof {
                    lemma_code_patch_one(o_, self.ops(), lo, acc, c_, label as int, Step::JmfFwd(expr_code(**right).len() + 2));
                    acc = acc.update(label - lo, Step::JmfFwd(expr_code(**right).len() + 2));
                    lemma_code_extend(self.ops(), c_, lo, acc, self.ops(), self.constants@);
                }
                proof {
                    lemma_forward_patch(s3, self.ops(), lo, set![label as int], label as int);
                    assert(set![label as int].remove(label as int) =~= Set::<int>::empty());
                    let ops = self.ops();
                    assert(ops[d as int].opcode == OpCode::Dup);
                    assert(acc =~= expr_code(*node));
                }
            },
            _ => {},
        }
    }

    /// `try body rescue bind => rescue`.
    #[verifier::rlimit(60)]
    fn try_expr(&mut self, node: &Expr)
        requires
            old(self).wf(),
            old(self).counter_ok(),
            node.kind is Try,
        ensures
            final(self).compiled(*old(self), *node),
        decreases node, 0nat,
    {
        let loc = node.location;
        let ghost lo = self.ops().len() as int;
        let ghost mut acc: Seq<Step> = Seq::empty();
        match &node.kind {
            ExprKind::Try { body, bind, rescue } => {
                let try_label = self.scope.opcodes.len();
                let ghost o_ = self.ops();
                let ghost c_ = self.constants@;
                self.emit_op(OpCode::Try(0), loc);
                proof {
                    lemma_code_step(o_, c_, lo, acc, self.ops(), self.constants@, Step::TryHole);
                    acc = acc.push(Step::TryHole);
                }
                let ghost s0 = self.ops();
                proof {
                    lemma_forward_push(s0.drop_last(), s0.last(), lo, Set::empty());
                    assert(s0.drop_last().push(s0.last()) == s0);
                    assert(Set::<int>::empty().insert(try_label as int) =~= set![try_label as int]);
                }
                let ghost o_ = self.ops();
                let ghost c_ = self.constants@;
                self.expr(body);
                proof {
                    lemma_code_append(o_, c_, lo, acc, self.ops(), self.constants@, expr_code(**body));
                    acc = acc + expr_code(**body);
                }
                proof {
                    lemma_forward_extend(s0, self.ops(), lo, set![try_label as int], Set::empty());
                }
                let ghost o_ = self.ops();
                let ghost c_ = self.constants@;
                self.emit_op(OpCode::EndTry, loc);
                proof {
                    lemma_code_step(o_, c_, lo, acc, self.ops(), self.constants@, Step::Op(OpCode::EndTry));
                    acc = acc.push(Step::Op(OpCode::EndTry));
                }
                let end_label = self.scope.opcodes.len();
                let ghost o_ = self.ops();
                let ghost c_ = self.constants@;
                self.emit_op(OpCode::Jmp(0), loc);
                proof {
                    lemma_code_step(o_, c_, lo, acc, self.ops(), self.constants@, Step::Exit);
                    acc = acc.push(Step::Exit);
                }
                let ghost s1 = self.ops();
                proof {
                    let p = s1.drop_last();
                    lemma_forward_push(p.drop_last(), p.last(), lo, set![try_label as int]);
                    assert(p.drop_last().push(p.last()) == p);
                    lemma_forward_push(p, s1.last(), lo, set![try_label as int]);
                    assert(p.push(s1.last()) == s1);
                }
                let ghost o_ = self.ops();
                let ghost c_ = self.constants@;
                self.patch(try_label);
                proof {
                    lemma_code_patch_one(o_, self.ops(), lo, acc, c_, try_label as int, Step::TryFwd(expr_code(**body).len() + 3));
                    acc = acc.update(try_label - lo, Step::TryFwd(expr_code(**body).len() + 3));
                    lemma_code_extend(self.ops(), c_, lo, acc, self.ops(), self.constants@);
                }
                proof {
                    lemma_forward_patch(s1, self.ops(), lo, set![try_label as int].insert(end_label as int), try_label as int);
                    assert(set![try_label as int].insert(end_label as int).remove(try_label as int) =~= set![end_label as int]);
                }
                let ghost o_ = self.ops();
                let ghost c_ = self.constants@;
                self.emit_op(OpCode::Pop, loc);
                proof {
                    lemma_code_step(o_, c_, lo, acc, self.ops(), self.constants@, Step::Op(OpCode::Pop));
                    acc = acc.push(Step::Op(OpCode::Pop));
                }
                let ghost o_ = self.ops();
                let ghost c_ = self.constants@;
                self.emit_save(bind.clone(), loc);
                proof {
                    lemma_code_step(o_, c_, lo, acc, self.ops(), self.constants@, Step::SaveAny);
                    acc = acc.push(Step::SaveAny);
                }
                let ghost s2 = self.ops();
                let ghost o_ = self.ops();
                let ghost c_ = self.constants@;
                self.expr(rescue);
                proof {
                    lemma_code_append(o_, c_, lo, acc, self.ops(), self.constants@, expr_code(**rescue));
                    acc = acc + expr_code(**rescue);
                }
                proof {
                    lemma_forward_extend(s2, self.ops(), lo, set![end_label as int], Set::empty());
                }
                let ghost s3 = self.ops();
                let ghost o_ = self.ops();
                let ghost c_ = self.constants@;
                self.patch(end_label);
                proof {
                    lemma_code_patch_one(o_, self.ops(), lo, acc, c_, end_label as int, Step::JmpFwd(expr_code(**rescue).len() + 3));
                    acc = acc.update(end_label - lo, Step::JmpFwd(expr_code(**rescue).len() + 3));
                    lemma_code_extend(self.ops(), c_, lo, acc, self.ops(), self.constants@);
                }
                proof {
                    lemma_forward_patch(s3, self.ops(), lo, set![end_label as int], end_label as int);
                    assert(set![end_label as int].remove(end_label as int) =~= Set::<int>::empty());
                    let ops = self.ops();
                    assert(ops[end_label as int].opcode == OpCode::Jmp(ops.len() as usize));
                    assert(ops[try_label as int].opcode == OpCode::Try((end_label + 1) as usize));
                    assert(acc =~= expr_code(*node));
                }
            },
            _ => {},
        }
    }

    /// Unbinds the names a pattern bound.
    fn remove_all(&mut self, names: &Vec<String>)
        requires
            old(self).wf(),
        ensures
            forall|j: int| 0 <= j < names.len() ==> final(self).scope.slot_of(#[trigger] names@[j]@) is None,
            final(self).wf(),
            final(self).ops() == old(self).ops(),
            final(self).constants == old(self).constants,
            final(self).unique_counter == old(self).unique_counter,
            final(self).scope.next_slot == old(self).scope.next_slot,
    {
        let mut i: usize = 0;
        while i < names.len()
            invariant
                i <= names.len(),
                self.wf(),
                self.ops() == old(self).ops(),
                self.constants == old(self).constants,
                self.unique_counter == old(self).unique_counter,
                self.scope.next_slot == old(self).scope.next_slot,
                forall|j: int| 0 <= j < i ==> self.scope.slot_of(#[trigger] names@[j]@) is None,
            decreases names.len() - i,
        {
            self.scope.remove(&names[i]);
            i = i + 1;
        }
    }

    /// `let bind = value in body`: a failed match ends in a `MatchError`.
    #[verifier::rlimit(60)]
    fn let_expr(&mut self, node: &Expr)
        requires
            old(self).wf(),
            old(self).counter_ok(),
            node.kind is Let,
        ensures
            final(self).compiled(*old(self), *node),
        decreases node, 0nat,
    {
        let loc = node.location;
        let ghost lo = self.ops().len() as int;
        match &node.kind {
            ExprKind::Let { bind, value, body } => {
                self.expr(value);
                let ghost blo = self.ops().len() as int;
                let ghost s0 = self.ops();
                let (declarations, fails) = self.match_pattern(bind, false, loc);
                proof {
                    lemma_forward_extend(s0, self.ops(), lo, Set::empty(), sites(fails@));
                    assert(Set::<int>::empty().union(sites(fails@)) =~= sites(fails@));
                }
                let ghost s1 = self.ops();
                let ghost c1 = self.constants@;
                self.expr(body);
                proof {
                    lemma_forward_extend(s1, self.ops(), lo, sites(fails@), Set::empty());
                    lemma_code_append(s1, c1, blo, pattern_code(*bind, false), self.ops(), self.constants@, expr_code(**body));
                    lemma_fail_set_append(pattern_code(*bind, false), expr_code(**body), blo);
                    lemma_expr_no_exit(**body);
                    assert(fail_set(expr_code(**body), s1.len() as int) =~= Set::<int>::empty());
                    assert(fail_set(pattern_code(*bind, false), blo).union(Set::<int>::empty()) =~= fail_set(pattern_code(*bind, false), blo));
                }
                let ghost s2 = self.ops();
                let ghost c2 = self.constants@;
                self.remove_all(&declarations);
                self.finish_clauses(&fails, Ghost(lo), "No match of rhs value", loc, Ghost(blo), Ghost(pattern_code(*bind, false) + expr_code(**body)));
                proof {
                    lemma_code_frame(s2, self.ops(), lo, expr_code(**value), c2, self.constants@);
                    let pc = pattern_code(*bind, false);
                    let bc = expr_code(**body);
                    let rest = resolve_fails(pc + bc, (pc + bc).len() + 1) + seq![Step::JmpFwd(5)] + tail_steps("No match of rhs value"@);
                    assert(resolve_fails(pc + bc, (pc + bc).len() + 1) =~= resolve_fails(pc, pc.len() + bc.len() + 1) + bc);
                    lemma_code_concat(self.ops(), lo, expr_code(**value), rest, self.constants@);
                    assert(expr_code(**value) + rest =~= expr_code(*node));
                }
            },
            _ => {},
        }
    }

    /// Emits the jump over the failure tail, patches `fails` to the tail,
    /// emits the tail, and patches the jump past it.
    fn finish_clauses(
        &mut self,
        fails: &Vec<usize>,
        Ghost(lo): Ghost<int>,
        msg: &str,
        loc: Location,
        Ghost(blo): Ghost<int>,
        Ghost(steps): Ghost<Seq<Step>>,
    )
        requires
            lo <= blo,
            code_matches(old(self).ops(), blo, steps, old(self).constants@),
            blo + steps.len() == old(self).ops().len(),
            sites(fails@) == fail_set(steps, blo),
            old(self).wf(),
            0 <= lo < old(self).ops().len(),
            old(self).unique_counter < old(self).ops().len(),
            forward_except(old(self).ops(), lo, sites(fails@)),
            forall|k: int|
                0 <= k < fails.len() ==> lo <= #[trigger] fails@[k] < old(self).ops().len()
                    && is_jump(old(self).ops()[fails@[k] as int].opcode),
        ensures
            final(self).wf(),
            final(self).unique_counter < final(self).ops().len(),
            old(self).ops().len() < final(self).ops().len(),
            forall|i: int| 0 <= i < blo ==> #[trigger] final(self).ops()[i] == old(self).ops()[i],
            extends(old(self).constants@, final(self).constants@),
            forward_from(final(self).ops(), lo),
            final(self).scope.locals == old(self).scope.locals,
            final(self).unique_counter == old(self).unique_counter,
            final(self).ops().len() == old(self).ops().len() + 5,
            final(self).ops()[old(self).ops().len() as int].opcode == OpCode::Jmp(
                final(self).ops().len() as usize,
            ),
            final(self).ops().last().opcode == OpCode::Call(2),
            code_matches(final(self).ops(), blo, resolve_fails(steps, steps.len() + 1) + seq![Step::JmpFwd(5)] + tail_steps(msg@), final(self).constants@),
            final(self).scope.next_slot == old(self).scope.next_slot,
    {
        let ghost s0 = self.ops();
        let ghost c0 = self.constants@;
        let jmp_label = self.scope.opcodes.len();
        self.emit_op(OpCode::Jmp(0), loc);
        proof {
            lemma_code_step(s0, c0, blo, steps, self.ops(), self.constants@, Step::Exit);
        }
        let ghost acc = steps.push(Step::Exit);
        let ghost s1 = self.ops();
        proof {
            lemma_forward_push(s0, s1.last(), lo, sites(fails@));
            assert(s0.push(s1.last()) == s1);
            assert(sites(fails@).insert(jmp_label as int) =~= set![jmp_label as int].union(sites(fails@)));
        }
        proof {
            assert(!sites(fails@).contains(jmp_label as int)) by {
                if sites(fails@).contains(jmp_label as int) {
                    let k = choose|k: int| 0 <= k < fails.len() && fails@[k] as int == jmp_label as int;
                    assert(fails@[k] < s0.len());
                }
            }
        }
        let ghost pend = set![jmp_label as int];
        self.patch_sites(fails, Ghost(lo), Ghost(pend));
        let ghost s2 = self.ops();
        let ghost c2 = self.constants@;
        proof {
            lemma_resolve_fails(s1, s2, blo, acc, c2, s2.len() as int);
        }
        let ghost racc = resolve_fails(acc, (s2.len() - blo) as nat);
        self.emit_match_error(msg, loc);
        proof {
            lemma_code_append(s2, c2, blo, racc, self.ops(), self.constants@, tail_steps(msg@));
        }
        proof {
            lemma_forward_extend(s2, self.ops(), lo, set![jmp_label as int], Set::empty());
        }
        let ghost s3 = self.ops();
        let ghost c3 = self.constants@;
        self.patch(jmp_label);
        proof {
            lemma_code_patch_one(s3, self.ops(), blo, racc + tail_steps(msg@), c3, jmp_label as int, Step::JmpFwd(5));
            assert((racc + tail_steps(msg@)).update(jmp_label - blo, Step::JmpFwd(5)) =~= resolve_fails(steps, steps.len() + 1) + seq![Step::JmpFwd(5)] + tail_steps(msg@));
        }
        proof {
            lemma_forward_patch(s3, self.ops(), lo, set![jmp_label as int], jmp_label as int);
            assert(set![jmp_label as int].remove(jmp_label as int) =~= Set::<int>::empty());
            assert forall|i: int| 0 <= i < blo implies #[trigger] self.ops()[i] == s0[i] by {
                assert(!sites(fails@).contains(i));
                assert(s2[i] == s1[i]);
            }
        }
    }

    /// `match cond with arms end`: each arm jumps to the end once it ran; the
    /// code after the last arm raises a `MatchError`.
    #[verifier::rlimit(60)]
    fn match_expr(&mut self, node: &Expr)
        requires
            old(self).wf(),
            old(self).counter_ok(),
            node.kind is Match,
        ensures
            final(self).compiled(*old(self), *node),
        decreases node, 0nat,
    {
        let loc = node.location;
        let ghost lo = self.ops().len() as int;
        match &node.kind {
            ExprKind::Match { expr, arms } => {
                let ghost mut acc: Seq<Step> = Seq::empty();
                let ghost o_ = self.ops();
                let ghost c_ = self.constants@;
                self.expr(expr);
                proof {
                    lemma_code_append(o_, c_, lo, acc, self.ops(), self.constants@, expr_code(**expr));
                    acc = acc + expr_code(**expr);
                }
                let ghost o_ = self.ops();
                let ghost c_ = self.constants@;
                let local = self.emit_unique(loc);
                proof {
                    lemma_code_step(o_, c_, lo, acc, self.ops(), self.constants@, Step::SaveAny);
                    acc = acc.push(Step::SaveAny);
                }
                let ghost o_ = self.ops();
                let ghost c_ = self.constants@;
                self.emit_const(Value::Str(String::from_str("Starting match")), loc);
                proof {
                    lemma_code_step(o_, c_, lo, acc, self.ops(), self.constants@, Step::PushStr("Starting match"@));
                    acc = acc.push(Step::PushStr("Starting match"@));
                }
                let ghost o_ = self.ops();
                let ghost c_ = self.constants@;
                self.emit_op(OpCode::Pop, loc);
                proof {
                    lemma_code_step(o_, c_, lo, acc, self.ops(), self.constants@, Step::Op(OpCode::Pop));
                    acc = acc.push(Step::Op(OpCode::Pop));
                }
                let ghost alo = self.ops().len() as int;
                let ghost mut arms_acc: Seq<Step> = Seq::empty();
                proof {
                    assert(arms@.subrange(0, 0) =~= Seq::<MatchArm>::empty());
                    lemma_code_extend(self.ops(), self.constants@, alo, arms_acc, self.ops(), self.constants@);
                }
                let mut jmps: Vec<usize> = Vec::new();
                let mut i: usize = 0;
                proof {
                    assert(sites(jmps@) =~= Set::<int>::empty());
                    assert(exit_set(arms_acc, alo) =~= Set::<int>::empty());
                }
                while i < arms.len()
                    invariant
                        node.kind == (ExprKind::Match { expr: *expr, arms: *arms }),
                        i <= arms.len(),
                        lo == old(self).ops().len(),
                        self.wf(),
                        self.unique_counter < self.ops().len(),
                        lo < self.ops().len(),
                        extends(old(self).ops(), self.ops()),
                        extends(old(self).constants@, self.constants@),
                        forward_except(self.ops(), lo, sites(jmps@)),
                        forall|k: int|
                            0 <= k < jmps.len() ==> lo <= #[trigger] jmps@[k] < self.ops().len()
                                && is_jump(self.ops()[jmps@[k] as int].opcode),
                        code_matches(self.ops(), lo, acc, self.constants@),
                        lo + acc.len() == alo,
                        code_matches(self.ops(), alo, arms_acc, self.constants@),
                        alo + arms_acc.len() == self.ops().len(),
                        arms_acc == arms_code(arms@.subrange(0, i as int)),
                        sites(jmps@) == exit_set(arms_acc, alo),
                        self.scope.next_slot >= old(self).scope.next_slot,
                    decreases arms.len() - i,
                {
                    let ghost o_ = self.ops();
                    let ghost c_ = self.constants@;
                    self.emit_load(&local, loc);
                    proof {
                        lemma_code_step(o_, c_, alo, arms_acc, self.ops(), self.constants@, Step::LoadSome);
                        arms_acc = arms_acc.push(Step::LoadSome);
                        lemma_code_extend(o_, c_, lo, acc, self.ops(), self.constants@);
                        assert(decreases_to!(*arms => arms[i as int]));
                        assert(decreases_to!(node.kind => node.kind->Match_arms));
                        assert(decreases_to!(*node => arms[i as int]));
                    }
                    let ghost s0 = self.ops();
                    let ghost c0 = self.constants@;
                    let jmp = self.match_arm(&arms[i]);
                    proof {
                        lemma_code_append(s0, c0, alo, arms_acc, self.ops(), self.constants@, arm_code(arms@[i as int]));
                        lemma_code_extend(s0, c0, lo, acc, self.ops(), self.constants@);
                        lemma_fail_set_append(arms_acc, arm_code(arms@[i as int]), alo);
                        lemma_arm_exit(arms@[i as int], s0.len() as int);
                        arms_acc = arms_acc + arm_code(arms@[i as int]);
                        let sub = arms@.subrange(0, i + 1);
                        assert(sub.subrange(0, i as int) =~= arms@.subrange(0, i as int));
                        assert(sub[i as int] == arms@[i as int]);
                        assert(arms_acc =~= arms_code(sub));
                        lemma_forward_extend(s0, self.ops(), lo, sites(jmps@), set![jmp as int]);
                        lemma_sites_append(jmps@, seq![jmp]);
                        assert(sites(seq![jmp]) =~= set![jmp as int]) by {
                            assert(seq![jmp][0] == jmp);
                        }
                    }
                    let ghost prev = jmps@;
                    jmps.push(jmp);
                    proof {
                        assert(jmps@ == prev + seq![jmp]);
                        assert(sites(prev).union(set![jmp as int]) == sites(jmps@));
                    }
                    i = i + 1;
                }
                proof {
                    assert(arms@.subrange(0, arms.len() as int) =~= arms@);
                }
                let ghost s1 = self.ops();
                let ghost c1 = self.constants@;
                self.emit_match_error("Couldn't match any clause", loc);
                proof {
                    lemma_code_extend(s1, c1, lo, acc, self.ops(), self.constants@);
                    lemma_code_extend(s1, c1, alo, arms_acc, self.ops(), self.constants@);
                    lemma_forward_extend(s1, self.ops(), lo, sites(jmps@), Set::empty());
                    assert(Set::<int>::empty().union(sites(jmps@)) =~= sites(jmps@));
                }
                let ghost s2 = self.ops();
                let ghost c2 = self.constants@;
                self.patch_sites(&jmps, Ghost(lo), Ghost(Set::empty()));
                proof {
                    let n = self.ops().len() as int;
                    assert forall|i: int| #[trigger] exit_set(arms_acc, alo).contains(i) implies self.ops()[i].opcode == OpCode::Jmp(n as usize) by {
                        let k = choose|k: int| 0 <= k < jmps.len() && jmps@[k] as int == i;
                        assert(step_ok(arms_acc[i - alo], s2[i].opcode, i, c2));
                        assert(self.ops()[jmps@[k] as int].opcode == retarget(s2[jmps@[k] as int].opcode, n as usize));
                    }
                    lemma_resolve_exits(s2, self.ops(), alo, arms_acc, c2, n);
                    assert forall|i: int| lo <= i < lo + acc.len() implies #[trigger] self.ops()[i] == s2[i] by {
                        assert(!sites(jmps@).contains(i)) by {
                            if sites(jmps@).contains(i) {
                                let k = choose|k: int| 0 <= k < jmps.len() && jmps@[k] as int == i;
                            }
                        }
                    }
                    lemma_code_frame(s2, self.ops(), lo, acc, c2, c2);
                    let tl = tail_steps("Couldn't match any clause"@);
                    assert forall|i: int| s1.len() <= i < s1.len() + tl.len() implies #[trigger] self.ops()[i] == s2[i] by {
                        assert(!sites(jmps@).contains(i)) by {
                            if sites(jmps@).contains(i) {
                                let k = choose|k: int| 0 <= k < jmps.len() && jmps@[k] as int == i;
                            }
                        }
                    }
                    lemma_code_frame(s2, self.ops(), s1.len() as int, tl, c2, c2);
                    let ra = resolve_exits(arms_acc, (n - alo) as nat);
                    lemma_code_concat(self.ops(), lo, acc, ra, c2);
                    lemma_code_concat(self.ops(), lo, acc + ra, tl, c2);
                    assert(acc + ra + tl =~= expr_code(*node));
                    let last = self.ops().len() - 1;
                    assert(!sites(jmps@).contains(last)) by {
                        if sites(jmps@).contains(last) {
                            let k = choose|k: int| 0 <= k < jmps.len() && jmps@[k] as int == last;
                            assert(jmps@[k] < s1.len());
                        }
                    }
                    assert(self.ops()[last] == s2[last]);
                    assert forall|i: int| 0 <= i < lo implies #[trigger] self.ops()[i] == old(self).ops()[i] by {
                        assert(!sites(jmps@).contains(i));
                        assert(self.ops()[i] == s2[i]);
                    }
                }
            },
            _ => {},
        }
    }

    /// One arm: the pattern, the optional guard, the body and a jump to the
    /// end of the `match`, whose site is returned unpatched. Failing checks
    /// land just after that jump, at the next arm.
    #[verifier::rlimit(60)]
    fn match_arm(&mut self, arm: &MatchArm) -> (jmp: usize)
        requires
            old(self).wf(),
            old(self).counter_ok(),
        ensures
            final(self).wf(),
            final(self).unique_counter < final(self).ops().len(),
            old(self).ops().len() <= jmp < final(self).ops().len(),
            final(self).ops()[jmp as int].opcode == OpCode::Jmp(0),
            forall|i: int| 0 <= i < old(self).ops().len() ==> #[trigger] final(self).ops()[i] == old(self).ops()[i],
            extends(old(self).constants@, final(self).constants@),
            forward_except(final(self).ops(), old(self).ops().len() as int, set![jmp as int]),
            final(self).ops().len() == old(self).ops().len() + arm_code(*arm).len(),
            jmp == final(self).ops().len() - 1,
            code_matches(final(self).ops(), old(self).ops().len() as int, arm_code(*arm), final(self).constants@),
            forall|j: int|
                0 <= j < pattern_names(arm.cond).len() ==> final(self).scope.slot_of(
                    #[trigger] pattern_names(arm.cond)[j],
                ) is None,
            final(self).scope.next_slot >= old(self).scope.next_slot,
        decreases arm, 0nat,
    {
        let loc = arm.location;
        let ghost lo = self.ops().len() as int;
        let (declarations, fails) = self.match_pattern(&arm.cond, false, loc);
        let ghost fs = sites(fails@);
        proof {
            assert(fs =~= Set::<int>::empty().union(fs));
        }
        let ghost pc = pattern_code(arm.cond, false);
        let ghost glo = self.ops().len() as int;
        let ghost mut acc: Seq<Step> = Seq::empty();
        proof {
            lemma_code_extend(self.ops(), self.constants@, glo, acc, self.ops(), self.constants@);
        }
        let mut guard_label: Option<usize> = None;
        match &arm.guard {
            Some(guard) => {
                let ghost s0 = self.ops();
                let ghost c0 = self.constants@;
                self.expr(guard);
                proof {
                    lemma_forward_extend(s0, self.ops(), lo, fs, Set::empty());
                    lemma_code_append(s0, c0, glo, acc, self.ops(), self.constants@, expr_code(*guard));
                    acc = acc + expr_code(*guard);
                }
                let label = self.scope.opcodes.len();
                let ghost s0 = self.ops();
                let ghost c0 = self.constants@;
                self.emit_op(OpCode::Jmf(0), loc);
                proof {
                    lemma_code_step(s0, c0, glo, acc, self.ops(), self.constants@, Step::Fail);
                    acc = acc.push(Step::Fail);
                    let s1 = self.ops();
                    lemma_forward_push(s1.drop_last(), s1.last(), lo, fs);
                    assert(s1.drop_last().push(s1.last()) == s1);
                }
                guard_label = Some(label);
            },
            None => {},
        }
        let ghost gs = match guard_label {
            Some(g) => set![g as int],
            None => Set::<int>::empty(),
        };
        proof {
            assert(fs.union(gs) =~= match guard_label {
                Some(g) => fs.insert(g as int),
                None => fs,
            });
        }
        let ghost gcode = acc;
        proof {
            assert(gcode =~= guard_code(arm.guard));
        }
        let ghost s2 = self.ops();
        let ghost c2 = self.constants@;
        self.expr(&arm.body);
        proof {
            lemma_forward_extend(s2, self.ops(), lo, fs.union(gs), Set::empty());
            lemma_code_append(s2, c2, glo, acc, self.ops(), self.constants@, expr_code(arm.body));
            acc = acc + expr_code(arm.body);
        }
        self.remove_all(&declarations);
        let jmp_label = self.scope.opcodes.len();
        let ghost s25 = self.ops();
        let ghost c25 = self.constants@;
        self.emit_op(OpCode::Jmp(0), loc);
        let ghost s3 = self.ops();
        let ghost c3 = self.constants@;
        proof {
            lemma_code_step(s25, c25, glo, acc, self.ops(), self.constants@, Step::Exit);
            acc = acc.push(Step::Exit);
            lemma_code_extend(s3, c3, lo, pc, s3, c3);
        }
        proof {
            lemma_forward_push(s3.drop_last(), s3.last(), lo, fs.union(gs));
            assert(s3.drop_last().push(s3.last()) == s3);
            assert(fs.union(gs).insert(jmp_label as int) =~= gs.insert(jmp_label as int).union(fs));
            assert(!fs.contains(jmp_label as int)) by {
                if fs.contains(jmp_label as int) {
                    let k = choose|k: int| 0 <= k < fails.len() && fails@[k] as int == jmp_label as int;
                    assert(fails@[k] < s2.len());
                }
            }
        }
        self.patch_sites(&fails, Ghost(lo), Ghost(gs.insert(jmp_label as int)));
        let ghost n = self.ops().len() as int;
        proof {
            lemma_resolve_fails(s3, self.ops(), lo, pc, c3, n);
            assert forall|i: int| glo <= i < glo + acc.len() implies #[trigger] self.ops()[i] == s3[i] by {
                assert(!fs.contains(i));
            }
            lemma_code_frame(s3, self.ops(), glo, acc, c3, c3);
        }
        let ghost s35 = self.ops();
        match guard_label {
            Some(g) => {
                let ghost s4 = self.ops();
                proof {
                    assert(!fs.contains(g as int)) by {
                        if fs.contains(g as int) {
                            let k = choose|k: int| 0 <= k < fails.len() && fails@[k] as int == g as int;
                            assert(fails@[k] < g);
                        }
                    }
                    assert(s4[g as int] == s3[g as int]);
                }
                self.patch(g);
                proof {
                    lemma_code_patch_one(s4, self.ops(), glo, acc, c3, g as int, Step::JmfFwd((n - g) as nat));
                    acc = acc.update(g - glo, Step::JmfFwd((n - g) as nat));
                    lemma_resolve_fails(s3, s4, lo, pc, c3, n);
                    lemma_code_frame(s4, self.ops(), lo, resolve_fails(pc, (n - lo) as nat), c3, c3);
                    lemma_forward_patch(s4, self.ops(), lo, gs.insert(jmp_label as int), g as int);
                    assert(gs.insert(jmp_label as int).remove(g as int) =~= set![jmp_label as int]);
                }
            },
            None => {
                proof {
                    assert(gs.insert(jmp_label as int) =~= set![jmp_label as int]);
                }
            },
        }
        proof {
            assert(!fs.contains(jmp_label as int));
            lemma_code_concat(self.ops(), lo, resolve_fails(pc, (n - lo) as nat), acc, c3);
            lemma_code_extend(self.ops(), c3, lo, resolve_fails(pc, (n - lo) as nat) + acc, self.ops(), self.constants@);
            lemma_expr_no_exit(arm.body);
            if arm.guard is Some {
                lemma_expr_no_exit(arm.guard->0);
            }
            let body = pc + guard_code(arm.guard) + expr_code(arm.body) + seq![Step::Exit];
            assert(resolve_fails(pc, (n - lo) as nat) + acc =~= resolve_fails(body, body.len()));
            assert forall|j: int| 0 <= j < pattern_names(arm.cond).len() implies self.scope.slot_of(
                #[trigger] pattern_names(arm.cond)[j],
            ) is None by {
                assert(views(declarations@)[j] == declarations@[j]@);
            }
        }
        jmp_label
    }

    /// Compiles a function: each argument pattern against the value passed for
    /// it, then the body, in a fresh scope with its own temporaries.
    fn lambda_expr(&mut self, args: &Vec<Pattern>, body: &Expr, loc: Location) -> (f: Function)
        requires
            old(self).wf(),
        ensures
            final(self).wf(),
            final(self).scope == old(self).scope,
            final(self).unique_counter == old(self).unique_counter,
            extends(old(self).constants@, final(self).constants@),
            f.arity == args.len(),
            code_ok(f.body@, final(self).constants.len() as int),
            f.body.len() == lambda_code(args@, *body).len(),
            code_matches(f.body@, 0, lambda_code(args@, *body), final(self).constants@),
        decreases body, 2nat,
    {
        let mut saved = Scope::new();
        std::mem::swap(&mut self.scope, &mut saved);
        let saved_counter = self.unique_counter;
        self.unique_counter = 0;
        let mut fails: Vec<usize> = Vec::new();
        let mut i: usize = 0;
        let ghost mut acc: Seq<Step> = Seq::empty();
        proof {
            assert(sites(fails@) =~= Set::<int>::empty());
            assert(fail_set(acc, 0) =~= Set::<int>::empty());
            assert(args@.subrange(0, 0) =~= Seq::<Pattern>::empty());
        }
        while i < args.len()
            invariant
                i <= args.len(),
                code_matches(self.ops(), 0, acc, self.constants@),
                acc.len() == self.ops().len(),
                acc == params_code(args@.subrange(0, i as int)),
                sites(fails@) == fail_set(acc, 0),
                saved == old(self).scope,
                saved_counter == old(self).unique_counter,
                self.wf(),
                self.counter_ok(),
                extends(old(self).constants@, self.constants@),
                forward_except(self.ops(), 0, sites(fails@)),
                forall|k: int|
                    0 <= k < fails.len() ==> 0 <= #[trigger] fails@[k] < self.ops().len()
                        && self.ops()[fails@[k] as int].opcode == OpCode::Jmf(0),
            decreases args.len() - i,
        {
            let ghost o = self.ops();
            let ghost c = self.constants@;
            let ghost pf = fails@;
            let (_, mut fixes) = self.sub_pattern(&args[i], false, loc, Ghost(0), &fails);
            proof {
                lemma_code_append(o, c, 0, acc, self.ops(), self.constants@, pattern_code(args@[i as int], false));
                lemma_fail_set_append(acc, pattern_code(args@[i as int], false), 0);
                lemma_sites_append(pf, fixes@);
                acc = acc + pattern_code(args@[i as int], false);
                let sub = args@.subrange(0, i + 1);
                assert(sub.subrange(0, i as int) =~= args@.subrange(0, i as int));
                assert(sub[i as int] == args@[i as int]);
            }
            fails.append(&mut fixes);
            i = i + 1;
        }
        proof {
            assert(args@.subrange(0, args.len() as int) =~= args@);
        }
        let ghost s0 = self.ops();
        let ghost c0 = self.constants@;
        self.expr(body);
        proof {
            lemma_forward_extend(s0, self.ops(), 0, sites(fails@), Set::empty());
            lemma_code_append(s0, c0, 0, acc, self.ops(), self.constants@, expr_code(*body));
            lemma_fail_set_append(acc, expr_code(*body), 0);
            lemma_expr_no_exit(*body);
            assert(fail_set(expr_code(*body), s0.len() as int) =~= Set::<int>::empty());
            assert(fail_set(acc, 0).union(Set::<int>::empty()) =~= fail_set(acc, 0));
        }
        self.finish_clauses(&fails, Ghost(0), "No match of rhs value", loc, Ghost(0), Ghost(acc + expr_code(*body)));
        proof {
            let pc = params_code(args@);
            let bc = expr_code(*body);
            assert(resolve_fails(pc + bc, (pc + bc).len() + 1) =~= resolve_fails(pc, pc.len() + bc.len() + 1) + bc);
            assert(resolve_fails(pc + bc, (pc + bc).len() + 1) + seq![Step::JmpFwd(5)] + tail_steps("No match of rhs value"@) =~= lambda_code(args@, *body));
        }
        std::mem::swap(&mut self.scope, &mut saved);
        self.unique_counter = saved_counter;
        proof {
            lemma_pushes_mono(self.ops(), old(self).constants.len() as int, self.constants.len() as int);
        }
        Function { arity: args.len(), body: saved.opcodes }
    }

    /// Compiles a top-level statement. Temporaries are named afresh for each
    /// statement: the counter is back at zero afterwards.
    pub fn stmt(&mut self, node: &Stmt)
        requires
            old(self).wf(),
            stmt_well_formed(*node),
        ensures
            final(self).wf(),
            final(self).unique_counter == 0,
            old(self).ops().len() < final(self).ops().len(),
            extends(old(self).ops(), final(self).ops()),
            extends(old(self).constants@, final(self).constants@),
            forward_from(final(self).ops(), old(self).ops().len() as int),
            final(self).ops().len() == old(self).ops().len() + stmt_code(*node).len(),
            code_matches(final(self).ops(), old(self).ops().len() as int, stmt_code(*node), final(self).constants@),
            node.kind matches StmtKind::Def(d) ==> final(self).ops().last() == ins(
                OpCode::Savg(d.bind),
                node.location,
            ),
            node.kind matches StmtKind::Let { .. } ==> final(self).ops().last().opcode == OpCode::Call(2),
            node.kind matches StmtKind::Type { name, .. } ==> final(self).ops().last() == ins(
                OpCode::Savg(name),
                node.location,
            ) && final(self).ops()[final(self).ops().len() - 2].opcode == OpCode::Push(
                old(self).constants.len() as usize,
            ) && (final(self).constants@[old(self).constants.len() as int] matches Value::Module(m)
                && m.id == old(self).constants.len() && m.name == name),
            node.kind matches StmtKind::Type { variants, members, .. } ==> (final(self).constants@[old(
                self
            ).constants.len() as int] matches Value::Module(m) && (forall|j: int|
                0 <= j < m.fields.len() ==> type_field(
                    #[trigger] m.fields@[j],
                    variants@,
                    members@,
                    old(self).constants.len() as usize,
                    node.location,
                )) && (forall|k: int|
                0 <= k < variants.len() ==> has_key(m.fields@, short_name(#[trigger] variants@[k])))
                && (forall|k: int| 0 <= k < members.len() ==> has_key(m.fields@, (#[trigger] members@[k]).bind@))),
    {
        self.unique_counter = 0;
        let loc = node.location;
        let ghost lo = self.ops().len() as int;
        match &node.kind {
            StmtKind::Def(def) => {
                self.expr(&def.value);
                let ghost o_ = self.ops();
                let ghost c_ = self.constants@;
                self.emit_op(OpCode::Savg(def.bind.clone()), loc);
                proof {
                    lemma_code_step(o_, c_, lo, expr_code(def.value), self.ops(), self.constants@, Step::SavgName(def.bind@));
                    assert(expr_code(def.value).push(Step::SavgName(def.bind@)) =~= stmt_code(*node));
                }
            },
            StmtKind::Let { bind, value } => {
                self.expr(value);
                let ghost blo = self.ops().len() as int;
                let ghost s0 = self.ops();
                let (_, fails) = self.match_pattern(bind, true, loc);
                proof {
                    lemma_forward_extend(s0, self.ops(), lo, Set::empty(), sites(fails@));
                    assert(Set::<int>::empty().union(sites(fails@)) =~= sites(fails@));
                }
                let ghost s2 = self.ops();
                let ghost c2 = self.constants@;
                self.finish_clauses(&fails, Ghost(lo), "No match of rhs value", loc, Ghost(blo), Ghost(pattern_code(*bind, true)));
                proof {
                    lemma_code_frame(s0, self.ops(), lo, expr_code(*value), c2, self.constants@);
                    let rest = resolve_fails(pattern_code(*bind, true), pattern_code(*bind, true).len() + 1) + seq![Step::JmpFwd(5)] + tail_steps("No match of rhs value"@);
                    lemma_code_concat(self.ops(), lo, expr_code(*value), rest, self.constants@);
                    assert(expr_code(*value) + rest =~= stmt_code(*node));
                }
            },
            StmtKind::Type { name, variants, members } => {
                self.type_(name, variants, members, loc);
                proof {
                    let code = stmt_code(*node);
                    assert(code[0] == Step::PushModule(name@));
                    assert(code[1] == Step::SavgName(name@));
                    assert(code_matches(self.ops(), lo, code, self.constants@));
                }
            },
        }
        self.unique_counter = 0;
    }

    /// A type declaration: a module saved under the global `name`, whose
    /// fields are the member functions, a constructor function for each variant
    /// with fields, and a tagged value for each variant without. The module's
    /// pool slot is reserved first, so constructors can refer to it.
    #[verifier::rlimit(80)]
    fn type_(&mut self, name: &String, variants: &Vec<Variant>, members: &Vec<Def>, loc: Location)
        requires
            old(self).wf(),
            forall|j: int| 0 <= j < members.len() ==> (#[trigger] members@[j]).value.kind is Lambda,
        ensures
            final(self).wf(),
            final(self).unique_counter == old(self).unique_counter,
            final(self).ops() == old(self).ops().push(
                ins(OpCode::Push(old(self).constants.len() as usize), loc),
            ).push(ins(OpCode::Savg(*name), loc)),
            extends(old(self).constants@, final(self).constants@),
            final(self).constants@[old(self).constants.len() as int] matches Value::Module(m) && m.id
                == old(self).constants.len() && m.name == *name,
            final(self).constants@[old(self).constants.len() as int] matches Value::Module(m) && (forall|j: int|
                0 <= j < m.fields.len() ==> type_field(#[trigger] m.fields@[j], variants@, members@, old(self).constants.len() as usize, loc))
                && (forall|k: int| 0 <= k < variants.len() ==> has_key(m.fields@, short_name(#[trigger] variants@[k])))
                && (forall|k: int| 0 <= k < members.len() ==> has_key(m.fields@, (#[trigger] members@[k]).bind@)),
    {
        let index = self.constants.len();
        let placeholder = Value::Module(Module { id: index, name: name.clone(), fields: Vec::new() });
        let ghost ph = placeholder;
        proof {
            lemma_pool_grow(self.constants@, placeholder);
        }
        self.constants.push(placeholder);
        proof {
            lemma_pushes_mono(self.ops(), index as int, index + 1);
        }
        let ghost reserved = self.constants@;
        let mut table: Vec<(String, Value)> = Vec::new();
        let mut i: usize = 0;
        while i < members.len()
            invariant
                i <= members.len(),
                index < self.constants.len(),
                self.wf(),
                self.ops() == old(self).ops(),
                self.scope == old(self).scope,
                self.unique_counter == old(self).unique_counter,
                extends(reserved, self.constants@),
                reserved == old(self).constants@.push(ph),
                ph is Module,
                forall|j: int| 0 <= j < table.len() ==> ((#[trigger] table@[j]).1 matches Value::Fn(f) ==> code_ok(f.body@, self.constants.len() as int)),
                forall|j: int| 0 <= j < members.len() ==> (#[trigger] members@[j]).value.kind is Lambda,
                forall|j: int| 0 <= j < table.len() ==> type_field(#[trigger] table@[j], variants@, members@, index, loc),
                forall|k: int| 0 <= k < i ==> has_key(table@, (#[trigger] members@[k]).bind@),
            decreases members.len() - i,
        {
            match &members[i].value.kind {
                ExprKind::Lambda { args, body } => {
                    let ghost n0 = self.constants.len();
                    let f = self.lambda_expr(args, body, loc);
                    let ghost prev = table@;
                    proof {
                        assert forall|j: int| 0 <= j < prev.len() implies ((#[trigger] prev[j]).1 matches Value::Fn(g) ==> code_ok(g.body@, self.constants.len() as int)) by {
                            if prev[j].1 is Fn {
                                lemma_code_ok_mono(prev[j].1->Fn_0.body@, n0 as int, self.constants.len() as int);
                            }
                        }
                    }
                    let key = members[i].bind.clone();
                    let ghost kv = key;
                    let fv = Value::Fn(f);
                    let ghost vv = fv;
                    table_insert(&mut table, key, fv);
                    proof {
                        lemma_insert_effect(prev, table@, kv, vv);
                        assert(type_field((kv, vv), variants@, members@, index, loc)) by {
                            assert(kv@ == members@[i as int].bind@);
                        }
                        assert forall|j: int| 0 <= j < table.len() implies type_field(#[trigger] table@[j], variants@, members@, index, loc) by {
                            if table@[j] != (kv, vv) {
                                let q = choose|q: int| 0 <= q < prev.len() && table@[j] == prev[q];
                            }
                        }
                        assert forall|k: int| 0 <= k < i + 1 implies has_key(table@, (#[trigger] members@[k]).bind@) by {
                            if k < i {
                                assert(has_key(prev, members@[k].bind@));
                            }
                        }
                        assert forall|j: int| 0 <= j < table.len() implies ((#[trigger] table@[j]).1 matches Value::Fn(g) ==> code_ok(g.body@, self.constants.len() as int)) by {
                        }
                    }
                },
                _ => {},
            }
            i = i + 1;
        }
        let mut i: usize = 0;
        while i < variants.len()
            invariant
                i <= variants.len(),
                index < self.constants.len(),
                self.wf(),
                self.ops() == old(self).ops(),
                self.scope == old(self).scope,
                self.unique_counter == old(self).unique_counter,
                extends(reserved, self.constants@),
                reserved == old(self).constants@.push(ph),
                ph is Module,
                forall|j: int| 0 <= j < table.len() ==> ((#[trigger] table@[j]).1 matches Value::Fn(f) ==> code_ok(f.body@, self.constants.len() as int)),
                forall|j: int| 0 <= j < table.len() ==> type_field(#[trigger] table@[j], variants@, members@, index, loc),
                forall|k: int| 0 <= k < members.len() ==> has_key(table@, (#[trigger] members@[k]).bind@),
                forall|k: int| 0 <= k < i && (#[trigger] variants@[k]).args.len() > 0 ==> has_key(table@, short_name(variants@[k])),
            decreases variants.len() - i,
        {
            let variant = &variants[i];
            proof {
                assert(variants@[i as int] == *variant);
            }
            if variant.args.len() > 0 {
                let short = last_segment(&variant.name);
                let n = variant.args.len();
                let mut body: Vec<Instruction> = Vec::new();
                body.push(Instruction { opcode: OpCode::Tup(n), line: loc.line, column: loc.column });
                body.push(Instruction { opcode: OpCode::Push(index), line: loc.line, column: loc.column });
                body.push(Instruction { opcode: OpCode::Tag(variant.name.clone()), line: loc.line, column: loc.column });
                let ghost prev = table@;
                let ghost kv = short;
                let ctor = Value::Fn(Function { arity: n, body });
                let ghost vv = ctor;
                proof {
                    assert(body@ =~= seq![ins(OpCode::Tup(n), loc), ins(OpCode::Push(index), loc), ins(OpCode::Tag(variant.name), loc)]);
                }
                table_insert(&mut table, short, ctor);
                proof {
                    lemma_insert_effect(prev, table@, kv, vv);
                    assert(type_field((kv, vv), variants@, members@, index, loc));
                    assert forall|j: int| 0 <= j < table.len() implies type_field(#[trigger] table@[j], variants@, members@, index, loc) by {
                        if table@[j] != (kv, vv) {
                            let q = choose|q: int| 0 <= q < prev.len() && table@[j] == prev[q];
                        }
                    }
                    assert forall|k: int| 0 <= k < members.len() implies has_key(table@, (#[trigger] members@[k]).bind@) by {
                        assert(has_key(prev, members@[k].bind@));
                    }
                    assert forall|k: int| 0 <= k < i + 1 && (#[trigger] variants@[k]).args.len() > 0 implies has_key(table@, short_name(variants@[k])) by {
                        if k < i {
                            assert(has_key(prev, short_name(variants@[k])));
                        }
                    }
                    assert forall|j: int| 0 <= j < table.len() implies ((#[trigger] table@[j]).1 matches Value::Fn(g) ==> code_ok(g.body@, self.constants.len() as int)) by {
                    }
                }
            }
            i = i + 1;
        }
        let mut i: usize = 0;
        while i < variants.len()
            invariant
                i <= variants.len(),
                index < self.constants.len(),
                self.wf(),
                self.ops() == old(self).ops(),
                self.scope == old(self).scope,
                self.unique_counter == old(self).unique_counter,
                extends(reserved, self.constants@),
                reserved == old(self).constants@.push(ph),
                ph is Module,
                forall|j: int| 0 <= j < table.len() ==> ((#[trigger] table@[j]).1 matches Value::Fn(f) ==> code_ok(f.body@, self.constants.len() as int)),
                forall|j: int| 0 <= j < table.len() ==> type_field(#[trigger] table@[j], variants@, members@, index, loc),
                forall|k: int| 0 <= k < members.len() ==> has_key(table@, (#[trigger] members@[k]).bind@),
                forall|k: int| 0 <= k < variants.len() && (#[trigger] variants@[k]).args.len() > 0 ==> has_key(table@, short_name(variants@[k])),
                forall|k: int| 0 <= k < i && (#[trigger] variants@[k]).args.len() == 0 ==> has_key(table@, short_name(variants@[k])),
            decreases variants.len() - i,
        {
            let variant = &variants[i];
            proof {
                assert(variants@[i as int] == *variant);
            }
            if variant.args.len() == 0 {
                let ghost prev = table@;
                let key = last_segment(&variant.name);
                let tagged = Value::Tagged(index, variant.name.clone(), Vec::new());
                let ghost kv = key;
                let ghost vv = tagged;
                table_insert(&mut table, key, tagged);
                proof {
                    lemma_insert_effect(prev, table@, kv, vv);
                    assert(type_field((kv, vv), variants@, members@, index, loc));
                    assert forall|j: int| 0 <= j < table.len() implies type_field(#[trigger] table@[j], variants@, members@, index, loc) by {
                        if table@[j] != (kv, vv) {
                            let q = choose|q: int| 0 <= q < prev.len() && table@[j] == prev[q];
                        }
                    }
                    assert forall|k: int| 0 <= k < members.len() implies has_key(table@, (#[trigger] members@[k]).bind@) by {
                        assert(has_key(prev, members@[k].bind@));
                    }
                    assert forall|k: int| 0 <= k < variants.len() && (#[trigger] variants@[k]).args.len() > 0 implies has_key(table@, short_name(variants@[k])) by {
                        assert(has_key(prev, short_name(variants@[k])));
                    }
                    assert forall|k: int| 0 <= k < i + 1 && (#[trigger] variants@[k]).args.len() == 0 implies has_key(table@, short_name(variants@[k])) by {
                        if k < i {
                            assert(has_key(prev, short_name(variants@[k])));
                        }
                    }
                }
            }
            i = i + 1;
        }
        proof {
            assert forall|k: int| 0 <= k < variants.len() implies has_key(table@, short_name(#[trigger] variants@[k])) by {
                if variants@[k].args.len() == 0 {
                    assert(has_key(table@, short_name(variants@[k])));
                } else {
                    assert(has_key(table@, short_name(variants@[k])));
                }
            }
        }
        let module = Value::Module(Module { id: index, name: name.clone(), fields: table });
        proof {
            assert(self.constants@[index as int] == reserved[index as int]);
            lemma_pool_set_module(self.constants@, index as int, module);
        }
        self.constants.set(index, module);
        self.emit_op(OpCode::Push(index), loc);
        self.emit_op(OpCode::Savg(name.clone()), loc);
    }

    /// Compiles a sequence of top-level statements into a fresh outer scope
    /// and returns its instructions and the constant pool.
    pub fn compile_stmts(self, stmts: &Vec<Stmt>) -> (r: (Vec<Instruction>, Vec<Value>))
        requires
            self.wf(),
            forall|i: int| 0 <= i < stmts.len() ==> stmt_well_formed(#[trigger] stmts@[i]),
        ensures
            forward_from(r.0@, 0),
            pushes_below(r.0@, r.1.len() as int),
            pool_wf(r.1@),
            extends(self.constants@, r.1@),
            stmts.len() == 0 <==> r.0@.len() == 0,
            stmts.len() == 0 ==> r.1@ == self.constants@,
            r.0@.len() == stmts_code(stmts@).len(),
            code_matches(r.0@, 0, stmts_code(stmts@), r.1@),
    {
        let ghost c0 = self.constants@;
        let mut this = Compiler { scope: Scope::new(), constants: self.constants, unique_counter: 0 };
        let mut i: usize = 0;
        proof {
            assert(stmts@.subrange(0, 0) =~= Seq::<Stmt>::empty());
        }
        while i < stmts.len()
            invariant
                i <= stmts.len(),
                this.wf(),
                this.unique_counter == 0,
                forward_from(this.ops(), 0),
                extends(c0, this.constants@),
                forall|k: int| 0 <= k < stmts.len() ==> stmt_well_formed(#[trigger] stmts@[k]),
                i == 0 <==> this.ops().len() == 0,
                i == 0 ==> this.constants@ == c0,
                this.ops().len() == stmts_code(stmts@.subrange(0, i as int)).len(),
                code_matches(this.ops(), 0, stmts_code(stmts@.subrange(0, i as int)), this.constants@),
            decreases stmts.len() - i,
        {
            let ghost s0 = this.ops();
            let ghost c0_ = this.constants@;
            this.stmt(&stmts[i]);
            proof {
                lemma_forward_extend(s0, this.ops(), 0, Set::empty(), Set::empty());
                lemma_code_append(s0, c0_, 0, stmts_code(stmts@.subrange(0, i as int)), this.ops(), this.constants@, stmt_code(stmts@[i as int]));
                let sub = stmts@.subrange(0, i + 1);
                assert(sub.subrange(0, i as int) =~= stmts@.subrange(0, i as int));
                assert(sub[i as int] == stmts@[i as int]);
            }
            i = i + 1;
        }
        proof {
            assert(stmts@.subrange(0, stmts.len() as int) =~= stmts@);
        }
        (this.scope.opcodes, this.constants)
    }

    /// Compiles one expression into a fresh outer scope and returns its
    /// instructions and the constant pool.
    pub fn compile_expr(self, expr: &Expr) -> (r: (Vec<Instruction>, Vec<Value>))
        requires
            self.wf(),
        ensures
            forward_from(r.0@, 0),
            pushes_below(r.0@, r.1.len() as int),
            pool_wf(r.1@),
            extends(self.constants@, r.1@),
            r.0@.len() > 0,
            shape(*expr, 0, r.0@, r.1@),
            r.0@.len() == expr_code(*expr).len(),
            code_matches(r.0@, 0, expr_code(*expr), r.1@),
            expr.kind matches ExprKind::Var(x) ==> r.0@ == seq![ins(OpCode::Loag(x), expr.location)],
    {
        let mut this = Compiler { scope: Scope::new(), constants: self.constants, unique_counter: 0 };
        let ghost before = this;
        this.expr(expr);
        proof {
            assert(before.scope.slot_of(expr.kind->Var_0@) is None) by {
                assert(before.scope.locals@.len() == 0);
            }
            assert(before.ops().push(ins(OpCode::Loag(expr.kind->Var_0), expr.location)) =~= seq![ins(OpCode::Loag(expr.kind->Var_0), expr.location)]);
        }
        (this.scope.opcodes, this.constants)
    }

    /// Rewrites the placeholder at `site` into a jump of the same kind to the
    /// current end of the buffer.
    fn patch(&mut self, site: usize)
        requires
            old(self).wf(),
            site < old(self).ops().len(),
            is_jump(old(self).ops()[site as int].opcode),
        ensures
            final(self).wf(),
            final(self).ops().len() == old(self).ops().len(),
            forall|i: int| 0 <= i < old(self).ops().len() && i != site ==> #[trigger] final(self).ops()[i]
                == old(self).ops()[i],
            final(self).ops()[site as int].opcode == retarget(
                old(self).ops()[site as int].opcode,
                old(self).ops().len() as usize,
            ),
            final(self).constants == old(self).constants,
            final(self).scope.locals == old(self).scope.locals,
            final(self).scope.next_slot == old(self).scope.next_slot,
            final(self).unique_counter == old(self).unique_counter,
    {
        let target = self.scope.opcodes.len();
        let line = self.scope.opcodes[site].line;
        let column = self.scope.opcodes[site].column;
        let op = match self.scope.opcodes[site].opcode {
            OpCode::Jmp(_) => OpCode::Jmp(target),
            OpCode::Jmf(_) => OpCode::Jmf(target),
            _ => OpCode::Try(target),
        };
        self.scope.opcodes.set(site, Instruction { opcode: op, line, column });
    }
}

} // verus!
