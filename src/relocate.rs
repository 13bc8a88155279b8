//! Splicing an already compiled unit into the current one: its constant
//! indices and jump addresses are shifted by the sizes of what is already there.
use vstd::prelude::*;

use crate::bytecode::{copy_value, value_same, Function, Instruction, OpCode, Value};

verus! {

/// `op` moved into a unit whose pool holds `c` constants and whose buffer holds
/// `b` instructions: pushes move by `c`, jumps by `b`.
pub open spec fn relocated_op(op: OpCode, c: int, b: int) -> OpCode {
    match op {
        OpCode::Push(i) => OpCode::Push((i + c) as usize),
        OpCode::Jmp(a) => OpCode::Jmp((a + b) as usize),
        OpCode::Jmf(a) => OpCode::Jmf((a + b) as usize),
        _ => op,
    }
}

/// The shifted indices and addresses of `ops` fit in a `usize`.
pub open spec fn fits(ops: Seq<Instruction>, c: int, b: int) -> bool {
    forall|i: int|
        0 <= i < ops.len() ==> match #[trigger] ops[i].opcode {
            OpCode::Push(k) => k + c <= usize::MAX,
            OpCode::Jmp(a) => a + b <= usize::MAX,
            OpCode::Jmf(a) => a + b <= usize::MAX,
            _ => true,
        }
}

/// `ops` relocated instruction by instruction.
pub open spec fn relocated(ops: Seq<Instruction>, c: int, b: int) -> Seq<Instruction> {
    Seq::new(
        ops.len(),
        |i: int|
            Instruction {
                opcode: relocated_op(ops[i].opcode, c, b),
                line: ops[i].line,
                column: ops[i].column,
            },
    )
}

/// Every function of `consts` can be relocated by `c` and `b`.
pub open spec fn consts_fit(consts: Seq<Value>, c: int, b: int) -> bool {
    forall|k: int|
        0 <= k < consts.len() ==> (#[trigger] consts[k] matches Value::Fn(f) ==> fits(f.body@, c, b))
}

fn relocate_op(op: &OpCode, c: usize, b: usize) -> (r: OpCode)
    requires
        match *op {
            OpCode::Push(k) => k + c <= usize::MAX,
            OpCode::Jmp(a) => a + b <= usize::MAX,
            OpCode::Jmf(a) => a + b <= usize::MAX,
            _ => true,
        },
    ensures
        r == relocated_op(*op, c as int, b as int),
{
    match op {
        OpCode::Push(i) => OpCode::Push(*i + c),
        OpCode::Jmp(a) => OpCode::Jmp(*a + b),
        OpCode::Jmf(a) => OpCode::Jmf(*a + b),
        _ => crate::bytecode::copy_op(op),
    }
}

/// Relocates a buffer of instructions by `c` constants and `b` instructions.
pub fn relocate(ops: &Vec<Instruction>, c: usize, b: usize) -> (r: Vec<Instruction>)
    requires
        fits(ops@, c as int, b as int),
    ensures
        r@ == relocated(ops@, c as int, b as int),
{
    let mut r: Vec<Instruction> = Vec::new();
    let mut i: usize = 0;
    while i < ops.len()
        invariant
            i <= ops.len(),
            fits(ops@, c as int, b as int),
            r@ == relocated(ops@, c as int, b as int).subrange(0, i as int),
        decreases ops.len() - i,
    {
        let ins = &ops[i];
        let op = relocate_op(&ins.opcode, c, b);
        r.push(Instruction { opcode: op, line: ins.line, column: ins.column });
        proof {
            assert(r@ =~= relocated(ops@, c as int, b as int).subrange(0, i + 1));
        }
        i = i + 1;
    }
    proof {
        assert(relocated(ops@, c as int, b as int).subrange(0, ops.len() as int) =~= relocated(
            ops@,
            c as int,
            b as int,
        ));
    }
    r
}

/// Appends an imported unit to the current one: each imported constant is
/// appended (a function with its body relocated), then the imported code,
/// relocated, is appended to the buffer.
pub fn splice(
    ops: &mut Vec<Instruction>,
    consts: &mut Vec<Value>,
    import_ops: &Vec<Instruction>,
    import_consts: &Vec<Value>,
)
    requires
        fits(import_ops@, old(consts).len() as int, old(ops).len() as int),
        consts_fit(import_consts@, old(consts).len() as int, old(ops).len() as int),
    ensures
        final(ops)@ == old(ops)@ + relocated(
            import_ops@,
            old(consts).len() as int,
            old(ops).len() as int,
        ),
        final(consts).len() == old(consts).len() + import_consts.len(),
        forall|k: int| 0 <= k < old(consts).len() ==> #[trigger] final(consts)@[k] == old(consts)@[k],
        forall|k: int|
            0 <= k < import_consts.len() ==> (match #[trigger] import_consts@[k] {
                Value::Fn(f) => final(consts)@[old(consts).len() + k] == Value::Fn(
                    Function {
                        arity: f.arity,
                        body: final(consts)@[old(consts).len() + k]->Fn_0.body,
                    },
                ) && final(consts)@[old(consts).len() + k]->Fn_0.body@ == relocated(
                    f.body@,
                    old(consts).len() as int,
                    old(ops).len() as int,
                ),
                v => value_same(final(consts)@[old(consts).len() + k], v),
            }),
{
    let c = consts.len();
    let b = ops.len();
    let mut k: usize = 0;
    while k < import_consts.len()
        invariant
            k <= import_consts.len(),
            c == old(consts).len(),
            b == old(ops).len(),
            *ops == *old(ops),
            consts_fit(import_consts@, c as int, b as int),
            consts.len() == c + k,
            forall|j: int| 0 <= j < c ==> #[trigger] consts@[j] == old(consts)@[j],
            forall|j: int|
                0 <= j < k ==> (match #[trigger] import_consts@[j] {
                    Value::Fn(f) => consts@[c + j] == Value::Fn(
                        Function { arity: f.arity, body: consts@[c + j]->Fn_0.body },
                    ) && consts@[c + j]->Fn_0.body@ == relocated(f.body@, c as int, b as int),
                    v => value_same(consts@[c + j], v),
                }),
        decreases import_consts.len() - k,
    {
        let v = match &import_consts[k] {
            Value::Fn(f) => {
                proof {
                    assert(import_consts@[k as int] matches Value::Fn(g) ==> fits(g.body@, c as int, b as int));
                }
                Value::Fn(Function { arity: f.arity, body: relocate(&f.body, c, b) })
            },
            other => copy_value(other),
        };
        consts.push(v);
        k = k + 1;
    }
    let mut moved = relocate(import_ops, c, b);
    ops.append(&mut moved);
}

} // verus!
