//! Opcodes, instructions and the values that a constant pool holds.
use vstd::prelude::*;

verus! {

broadcast use vstd::std_specs::vec::group_vec_axioms;

/// One operation of the stack machine. Symbols are carried by name.
#[derive(Debug, PartialEq, Eq)]
pub enum OpCode {
    Push(usize),
    Pop,
    Dup,
    Rev,
    RevN(usize),
    Save(usize),
    Load(usize),
    Drop(usize),
    Savg(String),
    Loag(String),
    Jmp(usize),
    Jmf(usize),
    Call(usize),
    TCall(usize),
    Try(usize),
    EndTry,
    Tup(usize),
    TupGet(usize),
    Tag(String),
    TagOf,
    TagTup,
    Ref(String),
    Insert(String),
    Prep,
    Index,
    Len,
    Nsc,
    Esc,
    Add,
    Sub,
    Mul,
    Div,
    Rem,
    Neg,
    Eq,
    Less,
    LessEq,
    Greater,
    GreaterEq,
    BitAnd,
    BitOr,
    Xor,
    Shl,
    Shr,
    Not,
}

/// An opcode with the source position it was emitted for.
#[derive(Debug, PartialEq, Eq)]
pub struct Instruction {
    pub opcode: OpCode,
    pub line: usize,
    pub column: usize,
}

/// Compiled code of a function value.
#[derive(Debug, PartialEq, Eq)]
pub struct Function {
    pub arity: usize,
    pub body: Vec<Instruction>,
}

/// A module value: a named table of fields. A module is identified by `id`,
/// the constant-pool slot it was reserved at.
#[derive(Debug, PartialEq, Eq)]
pub struct Module {
    pub id: usize,
    pub name: String,
    pub fields: Vec<(String, Value)>,
}

/// A value of the language, as it is stored in a constant pool.
/// A tagged value refers to its module by the module's `id`.
#[derive(Debug, PartialEq, Eq)]
pub enum Value {
    Nil,
    Bool(bool),
    Num(i64),
    Str(String),
    Sym(String),
    List(Vec<Value>),
    Tuple(Vec<Value>),
    Table(Vec<(String, Value)>),
    Fn(Function),
    Module(Module),
    Tagged(usize, String, Vec<Value>),
}

/// Opcode equality, with symbols compared by their characters.
pub open spec fn op_same(a: OpCode, b: OpCode) -> bool {
    match (a, b) {
        (OpCode::Savg(x), OpCode::Savg(y)) => x@ == y@,
        (OpCode::Loag(x), OpCode::Loag(y)) => x@ == y@,
        (OpCode::Tag(x), OpCode::Tag(y)) => x@ == y@,
        (OpCode::Ref(x), OpCode::Ref(y)) => x@ == y@,
        (OpCode::Insert(x), OpCode::Insert(y)) => x@ == y@,
        (OpCode::Savg(_), _) | (OpCode::Loag(_), _) | (OpCode::Tag(_), _) | (OpCode::Ref(_), _)
        | (OpCode::Insert(_), _) => false,
        _ => a == b,
    }
}

/// Instruction equality: same opcode and position.
pub open spec fn instr_same(a: Instruction, b: Instruction) -> bool {
    op_same(a.opcode, b.opcode) && a.line == b.line && a.column == b.column
}

/// Equality of table entries: same key, structurally equal values.
pub open spec fn entry_same(x: (String, Value), y: (String, Value)) -> bool
    decreases x, 0nat,
{
    x.0@ == y.0@ && value_same(x.1, y.1)
}

/// Entry-wise equality of two tables.
pub open spec fn entries_same(xs: Seq<(String, Value)>, ys: Seq<(String, Value)>) -> bool
    decreases xs, 1nat,
{
    if xs.len() == 0 {
        ys.len() == 0
    } else {
        &&& ys.len() == xs.len()
        &&& entries_same(xs.subrange(0, xs.len() - 1), ys.subrange(0, ys.len() - 1))
        &&& entry_same(xs[xs.len() - 1], ys[ys.len() - 1])
    }
}

/// Element-wise structural equality of two sequences of values.
pub open spec fn values_same(xs: Seq<Value>, ys: Seq<Value>) -> bool
    decreases xs, 0nat,
{
    if xs.len() == 0 {
        ys.len() == 0
    } else {
        &&& ys.len() == xs.len()
        &&& values_same(xs.subrange(0, xs.len() - 1), ys.subrange(0, ys.len() - 1))
        &&& value_same(xs[xs.len() - 1], ys[ys.len() - 1])
    }
}

/// Structural equality of values; modules compare by identity.
pub open spec fn value_same(a: Value, b: Value) -> bool
    decreases a, 1nat,
{
    match a {
        Value::Nil => b is Nil,
        Value::Bool(x) => b matches Value::Bool(y) && x == y,
        Value::Num(x) => b matches Value::Num(y) && x == y,
        Value::Str(x) => b matches Value::Str(y) && x@ == y@,
        Value::Sym(x) => b matches Value::Sym(y) && x@ == y@,
        Value::List(xs) => b matches Value::List(ys) && values_same(xs@, ys@),
        Value::Tuple(xs) => b matches Value::Tuple(ys) && values_same(xs@, ys@),
        Value::Table(xs) => b matches Value::Table(ys) && entries_same(xs@, ys@),
        Value::Fn(f) => b matches Value::Fn(g) && f.arity == g.arity && f.body.len() == g.body.len()
            && forall|i: int| 0 <= i < f.body.len() ==> #[trigger] instr_same(f.body@[i], g.body@[i]),
        Value::Module(m) => b matches Value::Module(n) && m.id == n.id,
        Value::Tagged(m, t, xs) => b matches Value::Tagged(n, u, ys) && m == n && t@ == u@
            && values_same(xs@, ys@),
    }
}


/// Jumps, conditional jumps and handler installs carry an absolute address.
pub open spec fn is_jump(op: OpCode) -> bool {
    op is Jmp || op is Jmf || op is Try
}

/// The address a jump carries.
pub open spec fn jump_target(op: OpCode) -> int {
    match op {
        OpCode::Jmp(a) => a as int,
        OpCode::Jmf(a) => a as int,
        OpCode::Try(a) => a as int,
        _ => 0,
    }
}

/// Every jump at an index in `[lo, |ops|)` outside `pending` goes strictly
/// forward, to an address no further than the end of the buffer.
pub open spec fn forward_except(ops: Seq<Instruction>, lo: int, pending: Set<int>) -> bool {
    forall|i: int|
        lo <= i < ops.len() && !pending.contains(i) && is_jump(#[trigger] ops[i].opcode) ==> i
            < jump_target(ops[i].opcode) <= ops.len()
}

/// Every jump at an index in `[lo, |ops|)` goes strictly forward, within the buffer.
pub open spec fn forward_from(ops: Seq<Instruction>, lo: int) -> bool {
    forward_except(ops, lo, Set::empty())
}

/// Every `Push(i)` refers to one of the first `n` constants.
pub open spec fn pushes_below(ops: Seq<Instruction>, n: int) -> bool {
    forall|i: int| 0 <= i < ops.len() ==> (#[trigger] ops[i].opcode matches OpCode::Push(k) ==> k < n)
}

/// `after` keeps `before` as its prefix.
pub open spec fn extends<T>(before: Seq<T>, after: Seq<T>) -> bool {
    before.len() <= after.len() && forall|i: int| 0 <= i < before.len() ==> #[trigger] after[i] == before[i]
}

/// Code of a function body: its pushes refer to the first `n` constants and its
/// jumps all go forward within the body.
pub open spec fn code_ok(body: Seq<Instruction>, n: int) -> bool {
    pushes_below(body, n) && forward_from(body, 0)
}

/// Code carried by a constant (a function, or the functions of a module) is well formed.
pub open spec fn value_code_ok(v: Value, n: int) -> bool {
    match v {
        Value::Fn(f) => code_ok(f.body@, n),
        Value::Module(m) => forall|j: int|
            0 <= j < m.fields.len() ==> (#[trigger] m.fields@[j].1 matches Value::Fn(f) ==> code_ok(
                f.body@,
                n,
            )),
        _ => true,
    }
}

/// No two entries of the pool are structurally equal, unless the first is a module.
pub open spec fn pool_dedup(c: Seq<Value>) -> bool {
    forall|i: int, j: int|
        0 <= i < j < c.len() && !(c[i] is Module) ==> !value_same(#[trigger] c[i], #[trigger] c[j])
}

/// A constant pool: deduplicated, and all code in it refers into it.
pub open spec fn pool_wf(c: Seq<Value>) -> bool {
    &&& pool_dedup(c)
    &&& forall|i: int| 0 <= i < c.len() ==> value_code_ok(#[trigger] c[i], c.len() as int)
}

/// Code whose jumps all go forward holds no placeholder: every jump target is
/// a real address in `1..=|ops|`, never the `0` a placeholder is written with.
pub proof fn lemma_forward_code_has_no_placeholder(ops: Seq<Instruction>)
    requires
        forward_from(ops, 0),
    ensures
        forall|i: int|
            0 <= i < ops.len() && is_jump(#[trigger] ops[i].opcode) ==> 0 < jump_target(ops[i].opcode)
                <= ops.len(),
{
    assert forall|i: int| 0 <= i < ops.len() && is_jump(#[trigger] ops[i].opcode) implies 0
        < jump_target(ops[i].opcode) <= ops.len() by {
        assert(!Set::<int>::empty().contains(i));
    }
}

/// The positions listed in `s`.
pub open spec fn sites(s: Seq<usize>) -> Set<int> {
    Set::new(|i: int| exists|k: int| 0 <= k < s.len() && s[k] as int == i)
}

/// The sites of two lists together are the union of their sites.
pub proof fn lemma_sites_append(s: Seq<usize>, t: Seq<usize>)
    ensures
        sites(s + t) == sites(s).union(sites(t)),
{
    assert forall|i: int| sites(s + t).contains(i) <==> sites(s).union(sites(t)).contains(i) by {
        if sites(s + t).contains(i) {
            let k = choose|k: int| 0 <= k < (s + t).len() && (s + t)[k] as int == i;
            if k < s.len() {
                assert(s[k] as int == i);
            } else {
                assert(t[k - s.len()] as int == i);
            }
        }
        if sites(s).contains(i) {
            let k = choose|k: int| 0 <= k < s.len() && s[k] as int == i;
            assert((s + t)[k] as int == i);
        }
        if sites(t).contains(i) {
            let k = choose|k: int| 0 <= k < t.len() && t[k] as int == i;
            assert((s + t)[k + s.len()] as int == i);
        }
    }
    assert(sites(s + t) =~= sites(s).union(sites(t)));
}

/// Appending code whose jumps go forward keeps the jumps of a region forward,
/// with the new code's own pending sites added.
pub proof fn lemma_forward_extend(
    a: Seq<Instruction>,
    b: Seq<Instruction>,
    lo: int,
    pending: Set<int>,
    more: Set<int>,
)
    requires
        0 <= lo,
        forward_except(a, lo, pending),
        extends(a, b),
        forward_except(b, a.len() as int, more),
    ensures
        forward_except(b, lo, pending.union(more)),
        more == Set::<int>::empty() ==> forward_except(b, lo, pending),
{
    assert(pending.union(Set::<int>::empty()) =~= pending);
    assert forall|i: int|
        lo <= i < b.len() && !pending.union(more).contains(i) && is_jump(
            #[trigger] b[i].opcode,
        ) implies i < jump_target(b[i].opcode) <= b.len() by {
        if i < a.len() {
            assert(b[i] == a[i]);
        }
    }
}

/// Appending one instruction: a jump becomes a pending site, anything else
/// keeps the region as it was.
pub proof fn lemma_forward_push(a: Seq<Instruction>, x: Instruction, lo: int, pending: Set<int>)
    requires
        0 <= lo <= a.len(),
        forward_except(a, lo, pending),
    ensures
        is_jump(x.opcode) ==> forward_except(a.push(x), lo, pending.insert(a.len() as int)),
        !is_jump(x.opcode) ==> forward_except(a.push(x), lo, pending),
{
    let b = a.push(x);
    assert forall|i: int|
        lo <= i < b.len() && !pending.insert(a.len() as int).contains(i) && is_jump(
            #[trigger] b[i].opcode,
        ) implies i < jump_target(b[i].opcode) <= b.len() by {
        assert(b[i] == a[i]);
    }
    if !is_jump(x.opcode) {
        assert forall|i: int|
            lo <= i < b.len() && !pending.contains(i) && is_jump(
                #[trigger] b[i].opcode,
            ) implies i < jump_target(b[i].opcode) <= b.len() by {
            if i < a.len() {
                assert(b[i] == a[i]);
            }
        }
    }
}

/// Rewriting a pending site into a forward jump removes it from the pending sites.
pub proof fn lemma_forward_patch(
    a: Seq<Instruction>,
    b: Seq<Instruction>,
    lo: int,
    pending: Set<int>,
    site: int,
)
    requires
        0 <= lo,
        forward_except(a, lo, pending),
        0 <= site < a.len(),
        b.len() == a.len(),
        forall|i: int| 0 <= i < a.len() && i != site ==> #[trigger] b[i] == a[i],
        is_jump(b[site].opcode) ==> site < jump_target(b[site].opcode) <= a.len(),
    ensures
        forward_except(b, lo, pending.remove(site)),
{
    assert forall|i: int|
        lo <= i < b.len() && !pending.remove(site).contains(i) && is_jump(
            #[trigger] b[i].opcode,
        ) implies i < jump_target(b[i].opcode) <= b.len() by {
        if i != site {
            assert(b[i] == a[i]);
        }
    }
}

/// Appending a constant that equals no entry (or a module) keeps the pool well formed.
pub proof fn lemma_pool_grow(c: Seq<Value>, v: Value)
    requires
        pool_wf(c),
        value_code_ok(v, c.len() + 1 as int),
        v is Module || forall|i: int| 0 <= i < c.len() ==> !value_same(#[trigger] c[i], v),
    ensures
        pool_wf(c.push(v)),
{
    let d = c.push(v);
    assert forall|i: int, j: int|
        0 <= i < j < d.len() && !(d[i] is Module) implies !value_same(#[trigger] d[i], #[trigger] d[j]) by {
        if j == c.len() {
            assert(d[i] == c[i]);
            if v is Module {
                assert(!value_same(c[i], v));
            }
        } else {
            assert(d[i] == c[i] && d[j] == c[j]);
        }
    }
    assert forall|i: int| 0 <= i < d.len() implies value_code_ok(#[trigger] d[i], d.len() as int) by {
        if i < c.len() {
            assert(d[i] == c[i]);
            assert(value_code_ok(c[i], c.len() as int));
            lemma_value_code_ok_mono(c[i], c.len() as int, d.len() as int);
        }
    }
}

/// Code that refers into a pool still does once the pool has grown.
pub proof fn lemma_value_code_ok_mono(v: Value, n: int, m: int)
    requires
        value_code_ok(v, n),
        n <= m,
    ensures
        value_code_ok(v, m),
{
    match v {
        Value::Module(md) => {
            assert forall|j: int| 0 <= j < md.fields.len() implies (#[trigger] md.fields@[j].1 matches Value::Fn(f)
                ==> code_ok(f.body@, m)) by {
                if md.fields@[j].1 is Fn {
                    assert(code_ok(md.fields@[j].1->Fn_0.body@, n));
                }
            }
        },
        _ => {},
    }
}

/// Structural equality is reflexive.
pub proof fn lemma_value_same_refl(v: Value)
    ensures
        value_same(v, v),
    decreases v, 1nat,
{
    match v {
        Value::List(xs) => lemma_values_same_refl(xs@),
        Value::Tuple(xs) => lemma_values_same_refl(xs@),
        Value::Tagged(_, _, xs) => lemma_values_same_refl(xs@),
        Value::Table(xs) => lemma_entries_same_refl(xs@),
        Value::Fn(f) => {
            assert forall|i: int| 0 <= i < f.body.len() implies #[trigger] instr_same(
                f.body@[i],
                f.body@[i],
            ) by {
                let o = f.body@[i].opcode;
                assert(op_same(o, o));
            }
        },
        _ => {},
    }
}

proof fn lemma_values_same_refl(xs: Seq<Value>)
    ensures
        values_same(xs, xs),
    decreases xs, 0nat,
{
    if xs.len() > 0 {
        lemma_values_same_refl(xs.subrange(0, xs.len() - 1));
        lemma_value_same_refl(xs[xs.len() - 1]);
    }
}

proof fn lemma_entries_same_refl(xs: Seq<(String, Value)>)
    ensures
        entries_same(xs, xs),
    decreases xs, 0nat,
{
    if xs.len() > 0 {
        lemma_entries_same_refl(xs.subrange(0, xs.len() - 1));
        lemma_value_same_refl(xs[xs.len() - 1].1);
        assert(entry_same(xs[xs.len() - 1], xs[xs.len() - 1]));
    }
}

/// Allowing more pending sites keeps a region's jumps forward.
pub proof fn lemma_forward_mono(ops: Seq<Instruction>, lo: int, small: Set<int>, big: Set<int>)
    requires
        forward_except(ops, lo, small),
        small.subset_of(big),
    ensures
        forward_except(ops, lo, big),
{
}

/// Pushes below `n` are below any `m >= n`.
pub proof fn lemma_pushes_mono(ops: Seq<Instruction>, n: int, m: int)
    requires
        pushes_below(ops, n),
        n <= m,
    ensures
        pushes_below(ops, m),
{
    assert forall|i: int| 0 <= i < ops.len() implies (#[trigger] ops[i].opcode matches OpCode::Push(
        k,
    ) ==> k < m) by {}
}

/// Function code stays well formed as the pool grows.
pub proof fn lemma_code_ok_mono(body: Seq<Instruction>, n: int, m: int)
    requires
        code_ok(body, n),
        n <= m,
    ensures
        code_ok(body, m),
{
    lemma_pushes_mono(body, n, m);
}

/// Replacing a module of the pool by another module with well-formed code
/// keeps the pool well formed.
pub proof fn lemma_pool_set_module(c: Seq<Value>, idx: int, v: Value)
    requires
        pool_wf(c),
        0 <= idx < c.len(),
        c[idx] is Module,
        v is Module,
        value_code_ok(v, c.len() as int),
    ensures
        pool_wf(c.update(idx, v)),
{
    let d = c.update(idx, v);
    assert forall|i: int, j: int|
        0 <= i < j < d.len() && !(d[i] is Module) implies !value_same(#[trigger] d[i], #[trigger] d[j]) by {
        if j == idx {
            assert(d[i] == c[i]);
        } else if i != idx {
            assert(d[i] == c[i] && d[j] == c[j]);
        }
    }
    assert forall|i: int| 0 <= i < d.len() implies value_code_ok(#[trigger] d[i], d.len() as int) by {
        if i != idx {
            assert(d[i] == c[i]);
        }
    }
}

/// Inserts `v` under `key`: replaces the entry with that key, or appends one.
pub fn table_insert(table: &mut Vec<(String, Value)>, key: String, v: Value)
    ensures
        (exists|j: int|
            0 <= j < old(table).len() && (#[trigger] old(table)@[j]).0@ == key@ && final(table)@
                == old(table)@.update(j, (key, v))) || ((forall|j: int|
            0 <= j < old(table).len() ==> (#[trigger] old(table)@[j]).0@ != key@) && final(table)@
            == old(table)@.push((key, v))),
{
    let mut j: usize = 0;
    while j < table.len()
        invariant
            j <= table.len(),
            table@ == old(table)@,
            forall|k: int| 0 <= k < j ==> (#[trigger] table@[k]).0@ != key@,
        decreases table.len() - j,
    {
        if table[j].0 == key {
            table.set(j, (key, v));
            return;
        }
        j = j + 1;
    }
    table.push((key, v));
}

/// Decides `op_same`.
pub fn op_eq(a: &OpCode, b: &OpCode) -> (r: bool)
    ensures
        r == op_same(*a, *b),
{
    match (a, b) {
        (OpCode::Push(x), OpCode::Push(y)) => *x == *y,
        (OpCode::RevN(x), OpCode::RevN(y)) => *x == *y,
        (OpCode::Save(x), OpCode::Save(y)) => *x == *y,
        (OpCode::Load(x), OpCode::Load(y)) => *x == *y,
        (OpCode::Drop(x), OpCode::Drop(y)) => *x == *y,
        (OpCode::Jmp(x), OpCode::Jmp(y)) => *x == *y,
        (OpCode::Jmf(x), OpCode::Jmf(y)) => *x == *y,
        (OpCode::Call(x), OpCode::Call(y)) => *x == *y,
        (OpCode::TCall(x), OpCode::TCall(y)) => *x == *y,
        (OpCode::Try(x), OpCode::Try(y)) => *x == *y,
        (OpCode::Tup(x), OpCode::Tup(y)) => *x == *y,
        (OpCode::TupGet(x), OpCode::TupGet(y)) => *x == *y,
        (OpCode::Savg(x), OpCode::Savg(y)) => *x == *y,
        (OpCode::Loag(x), OpCode::Loag(y)) => *x == *y,
        (OpCode::Tag(x), OpCode::Tag(y)) => *x == *y,
        (OpCode::Ref(x), OpCode::Ref(y)) => *x == *y,
        (OpCode::Insert(x), OpCode::Insert(y)) => *x == *y,
        (OpCode::Pop, OpCode::Pop) => true,
        (OpCode::Dup, OpCode::Dup) => true,
        (OpCode::Rev, OpCode::Rev) => true,
        (OpCode::EndTry, OpCode::EndTry) => true,
        (OpCode::TagOf, OpCode::TagOf) => true,
        (OpCode::TagTup, OpCode::TagTup) => true,
        (OpCode::Prep, OpCode::Prep) => true,
        (OpCode::Index, OpCode::Index) => true,
        (OpCode::Len, OpCode::Len) => true,
        (OpCode::Nsc, OpCode::Nsc) => true,
        (OpCode::Esc, OpCode::Esc) => true,
        (OpCode::Add, OpCode::Add) => true,
        (OpCode::Sub, OpCode::Sub) => true,
        (OpCode::Mul, OpCode::Mul) => true,
        (OpCode::Div, OpCode::Div) => true,
        (OpCode::Rem, OpCode::Rem) => true,
        (OpCode::Neg, OpCode::Neg) => true,
        (OpCode::Eq, OpCode::Eq) => true,
        (OpCode::Less, OpCode::Less) => true,
        (OpCode::LessEq, OpCode::LessEq) => true,
        (OpCode::Greater, OpCode::Greater) => true,
        (OpCode::GreaterEq, OpCode::GreaterEq) => true,
        (OpCode::BitAnd, OpCode::BitAnd) => true,
        (OpCode::BitOr, OpCode::BitOr) => true,
        (OpCode::Xor, OpCode::Xor) => true,
        (OpCode::Shl, OpCode::Shl) => true,
        (OpCode::Shr, OpCode::Shr) => true,
        (OpCode::Not, OpCode::Not) => true,
        _ => false,
    }
}

/// Decides `instr_same`.
pub fn instr_eq(a: &Instruction, b: &Instruction) -> (r: bool)
    ensures
        r == instr_same(*a, *b),
{
    a.line == b.line && a.column == b.column && op_eq(&a.opcode, &b.opcode)
}

/// `values_same` holds exactly when the sequences agree element by element.
proof fn lemma_values_same(xs: Seq<Value>, ys: Seq<Value>)
    ensures
        values_same(xs, ys) == (xs.len() == ys.len() && forall|i: int|
            0 <= i < xs.len() ==> #[trigger] value_same(xs[i], ys[i])),
    decreases xs.len(),
{
    if xs.len() > 0 && ys.len() == xs.len() {
        let n = xs.len() - 1;
        lemma_values_same(xs.subrange(0, n), ys.subrange(0, n));
        assert(values_same(xs, ys) == (values_same(xs.subrange(0, n), ys.subrange(0, n)) && value_same(xs[n], ys[n])));
        if forall|i: int| 0 <= i < xs.len() ==> #[trigger] value_same(xs[i], ys[i]) {
            assert forall|i: int| 0 <= i < n implies #[trigger] value_same(
                xs.subrange(0, n)[i],
                ys.subrange(0, n)[i],
            ) by {
                assert(value_same(xs[i], ys[i]));
            }
        }
        if values_same(xs, ys) {
            assert forall|i: int| 0 <= i < xs.len() implies #[trigger] value_same(xs[i], ys[i]) by {
                if i < n {
                    assert(value_same(xs.subrange(0, n)[i], ys.subrange(0, n)[i]));
                }
            }
        }
    }
}

/// Decides `values_same`.
fn values_eq(xs: &Vec<Value>, ys: &Vec<Value>) -> (r: bool)
    ensures
        r == values_same(xs@, ys@),
    decreases xs, 0nat,
{
    if xs.len() != ys.len() {
        return false;
    }
    let mut i: usize = 0;
    while i < xs.len()
        invariant
            xs.len() == ys.len(),
            i <= xs.len(),
            forall|k: int| 0 <= k < i ==> #[trigger] value_same(xs@[k], ys@[k]),
        decreases xs.len() - i,
    {
        if !value_eq(&xs[i], &ys[i]) {
            assert(!value_same(xs@[i as int], ys@[i as int]));
            proof {
                lemma_values_same(xs@, ys@);
            }
            return false;
        }
        i = i + 1;
    }
    proof {
        lemma_values_same(xs@, ys@);
    }
    true
}

/// Decides element-wise `instr_same`.
fn instrs_eq(xs: &Vec<Instruction>, ys: &Vec<Instruction>) -> (r: bool)
    ensures
        r == (xs.len() == ys.len() && forall|i: int|
            0 <= i < xs.len() ==> #[trigger] instr_same(xs@[i], ys@[i])),
{
    if xs.len() != ys.len() {
        return false;
    }
    let mut i: usize = 0;
    while i < xs.len()
        invariant
            xs.len() == ys.len(),
            i <= xs.len(),
            forall|k: int| 0 <= k < i ==> #[trigger] instr_same(xs@[k], ys@[k]),
        decreases xs.len() - i,
    {
        if !instr_eq(&xs[i], &ys[i]) {
            return false;
        }
        i = i + 1;
    }
    true
}

/// `entries_same` holds exactly when the tables agree entry by entry.
pub proof fn lemma_entries_same(xs: Seq<(String, Value)>, ys: Seq<(String, Value)>)
    ensures
        entries_same(xs, ys) == (xs.len() == ys.len() && forall|i: int|
            0 <= i < xs.len() ==> #[trigger] entry_same(xs[i], ys[i])),
    decreases xs.len(),
{
    if xs.len() > 0 && ys.len() == xs.len() {
        let n = xs.len() - 1;
        lemma_entries_same(xs.subrange(0, n), ys.subrange(0, n));
        assert(entries_same(xs, ys) == (entries_same(xs.subrange(0, n), ys.subrange(0, n))
            && entry_same(xs[n], ys[n])));
        if forall|i: int| 0 <= i < xs.len() ==> #[trigger] entry_same(xs[i], ys[i]) {
            assert forall|i: int| 0 <= i < n implies #[trigger] entry_same(
                xs.subrange(0, n)[i],
                ys.subrange(0, n)[i],
            ) by {
                assert(entry_same(xs[i], ys[i]));
            }
        }
        if entries_same(xs, ys) {
            assert forall|i: int| 0 <= i < xs.len() implies #[trigger] entry_same(xs[i], ys[i]) by {
                if i < n {
                    assert(entry_same(xs.subrange(0, n)[i], ys.subrange(0, n)[i]));
                }
            }
        }
    }
}

/// Decides `entries_same`.
fn entries_eq(xs: &Vec<(String, Value)>, ys: &Vec<(String, Value)>) -> (r: bool)
    ensures
        r == entries_same(xs@, ys@),
    decreases xs, 0nat,
{
    if xs.len() != ys.len() {
        return false;
    }
    let mut i: usize = 0;
    while i < xs.len()
        invariant
            xs.len() == ys.len(),
            i <= xs.len(),
            forall|k: int| 0 <= k < i ==> #[trigger] entry_same(xs@[k], ys@[k]),
        decreases xs.len() - i,
    {
        proof {
            assert(decreases_to!(*xs => xs[i as int]));
        }
        let (kx, vx) = &xs[i];
        let (ky, vy) = &ys[i];
        let same_key = *kx == *ky;
        if !same_key || !value_eq(vx, vy) {
            assert(!entry_same(xs@[i as int], ys@[i as int]));
            proof {
                lemma_entries_same(xs@, ys@);
            }
            return false;
        }
        assert(entry_same(xs@[i as int], ys@[i as int]));
        i = i + 1;
    }
    proof {
        lemma_entries_same(xs@, ys@);
    }
    true
}

/// Decides `value_same`.
pub fn value_eq(a: &Value, b: &Value) -> (r: bool)
    ensures
        r == value_same(*a, *b),
    decreases a, 1nat,
{
    match a {
        Value::Nil => matches!(b, Value::Nil),
        Value::Bool(x) => match b {
            Value::Bool(y) => *x == *y,
            _ => false,
        },
        Value::Num(x) => match b {
            Value::Num(y) => *x == *y,
            _ => false,
        },
        Value::Str(x) => match b {
            Value::Str(y) => *x == *y,
            _ => false,
        },
        Value::Sym(x) => match b {
            Value::Sym(y) => *x == *y,
            _ => false,
        },
        Value::List(xs) => match b {
            Value::List(ys) => values_eq(xs, ys),
            _ => false,
        },
        Value::Tuple(xs) => match b {
            Value::Tuple(ys) => values_eq(xs, ys),
            _ => false,
        },
        Value::Table(xs) => match b {
            Value::Table(ys) => entries_eq(xs, ys),
            _ => false,
        },
        Value::Fn(f) => match b {
            Value::Fn(g) => f.arity == g.arity && instrs_eq(&f.body, &g.body),
            _ => false,
        },
        Value::Module(m) => match b {
            Value::Module(n) => m.id == n.id,
            _ => false,
        },
        Value::Tagged(m, t, xs) => match b {
            Value::Tagged(n, u, ys) => *m == *n && *t == *u && values_eq(xs, ys),
            _ => false,
        },
    }
}

/// A copy of an opcode.
pub fn copy_op(op: &OpCode) -> (r: OpCode)
    ensures
        r == *op,
{
    match op {
        OpCode::Push(x) => OpCode::Push(*x),
        OpCode::RevN(x) => OpCode::RevN(*x),
        OpCode::Save(x) => OpCode::Save(*x),
        OpCode::Load(x) => OpCode::Load(*x),
        OpCode::Drop(x) => OpCode::Drop(*x),
        OpCode::Jmp(x) => OpCode::Jmp(*x),
        OpCode::Jmf(x) => OpCode::Jmf(*x),
        OpCode::Call(x) => OpCode::Call(*x),
        OpCode::TCall(x) => OpCode::TCall(*x),
        OpCode::Try(x) => OpCode::Try(*x),
        OpCode::Tup(x) => OpCode::Tup(*x),
        OpCode::TupGet(x) => OpCode::TupGet(*x),
        OpCode::Savg(x) => OpCode::Savg(x.clone()),
        OpCode::Loag(x) => OpCode::Loag(x.clone()),
        OpCode::Tag(x) => OpCode::Tag(x.clone()),
        OpCode::Ref(x) => OpCode::Ref(x.clone()),
        OpCode::Insert(x) => OpCode::Insert(x.clone()),
        OpCode::Pop => OpCode::Pop,
        OpCode::Dup => OpCode::Dup,
        OpCode::Rev => OpCode::Rev,
        OpCode::EndTry => OpCode::EndTry,
        OpCode::TagOf => OpCode::TagOf,
        OpCode::TagTup => OpCode::TagTup,
        OpCode::Prep => OpCode::Prep,
        OpCode::Index => OpCode::Index,
        OpCode::Len => OpCode::Len,
        OpCode::Nsc => OpCode::Nsc,
        OpCode::Esc => OpCode::Esc,
        OpCode::Add => OpCode::Add,
        OpCode::Sub => OpCode::Sub,
        OpCode::Mul => OpCode::Mul,
        OpCode::Div => OpCode::Div,
        OpCode::Rem => OpCode::Rem,
        OpCode::Neg => OpCode::Neg,
        OpCode::Eq => OpCode::Eq,
        OpCode::Less => OpCode::Less,
        OpCode::LessEq => OpCode::LessEq,
        OpCode::Greater => OpCode::Greater,
        OpCode::GreaterEq => OpCode::GreaterEq,
        OpCode::BitAnd => OpCode::BitAnd,
        OpCode::BitOr => OpCode::BitOr,
        OpCode::Xor => OpCode::Xor,
        OpCode::Shl => OpCode::Shl,
        OpCode::Shr => OpCode::Shr,
        OpCode::Not => OpCode::Not,
    }
}

/// A copy of an instruction.
pub fn copy_instr(i: &Instruction) -> (r: Instruction)
    ensures
        r == *i,
{
    Instruction { opcode: copy_op(&i.opcode), line: i.line, column: i.column }
}

/// A copy of a sequence of values.
pub fn copy_values(xs: &Vec<Value>) -> (r: Vec<Value>)
    ensures
        values_same(r@, xs@),
    decreases xs, 0nat,
{
    let mut r: Vec<Value> = Vec::new();
    let mut i: usize = 0;
    while i < xs.len()
        invariant
            i <= xs.len(),
            values_same(r@, xs@.subrange(0, i as int)),
        decreases xs.len() - i,
    {
        proof {
            assert(decreases_to!(*xs => xs[i as int]));
        }
        let v = copy_value(&xs[i]);
        let ghost prev = r@;
        r.push(v);
        proof {
            let t = xs@.subrange(0, i + 1);
            assert(r@.subrange(0, r@.len() - 1) =~= prev);
            assert(t.subrange(0, t.len() - 1) =~= xs@.subrange(0, i as int));
        }
        i = i + 1;
    }
    assert(xs@.subrange(0, xs.len() as int) =~= xs@);
    r
}

/// A copy of a table.
fn copy_entries(xs: &Vec<(String, Value)>) -> (r: Vec<(String, Value)>)
    ensures
        entries_same(r@, xs@),
    decreases xs, 0nat,
{
    let mut r: Vec<(String, Value)> = Vec::new();
    let mut i: usize = 0;
    while i < xs.len()
        invariant
            i <= xs.len(),
            entries_same(r@, xs@.subrange(0, i as int)),
        decreases xs.len() - i,
    {
        proof {
            assert(decreases_to!(*xs => xs[i as int]));
        }
        let (k, v) = &xs[i];
        let e = (k.clone(), copy_value(v));
        let ghost prev = r@;
        r.push(e);
        proof {
            let t = xs@.subrange(0, i + 1);
            assert(r@.subrange(0, r@.len() - 1) =~= prev);
            assert(t.subrange(0, t.len() - 1) =~= xs@.subrange(0, i as int));
            assert(entry_same(e, xs@[i as int]));
        }
        i = i + 1;
    }
    assert(xs@.subrange(0, xs.len() as int) =~= xs@);
    r
}

/// A copy of a buffer of instructions.
fn copy_instrs(xs: &Vec<Instruction>) -> (r: Vec<Instruction>)
    ensures
        r@ == xs@,
{
    let mut r: Vec<Instruction> = Vec::new();
    let mut i: usize = 0;
    while i < xs.len()
        invariant
            i <= xs.len(),
            r@ == xs@.subrange(0, i as int),
        decreases xs.len() - i,
    {
        r.push(copy_instr(&xs[i]));
        proof {
            assert(r@ =~= xs@.subrange(0, i + 1));
        }
        i = i + 1;
    }
    assert(xs@.subrange(0, xs.len() as int) =~= xs@);
    r
}

/// A copy of a value, structurally equal to it.
pub fn copy_value(v: &Value) -> (r: Value)
    ensures
        value_same(r, *v),
    decreases v, 1nat,
{
    let r = match v {
        Value::Nil => Value::Nil,
        Value::Bool(b) => Value::Bool(*b),
        Value::Num(n) => Value::Num(*n),
        Value::Str(s) => Value::Str(s.clone()),
        Value::Sym(s) => Value::Sym(s.clone()),
        Value::List(xs) => Value::List(copy_values(xs)),
        Value::Tuple(xs) => Value::Tuple(copy_values(xs)),
        Value::Table(xs) => Value::Table(copy_entries(xs)),
        Value::Fn(f) => Value::Fn(Function { arity: f.arity, body: copy_instrs(&f.body) }),
        Value::Module(m) => Value::Module(
            Module { id: m.id, name: m.name.clone(), fields: copy_entries(&m.fields) },
        ),
        Value::Tagged(m, t, xs) => Value::Tagged(*m, t.clone(), copy_values(xs)),
    };
    proof {
        if let Value::Fn(f) = v {
            assert forall|i: int| 0 <= i < f.body.len() implies #[trigger] instr_same(
                r->Fn_0.body@[i],
                f.body@[i],
            ) by {
                let o = f.body@[i].opcode;
                assert(op_same(o, o));
            }
        }
    }
    r
}

} // verus!
