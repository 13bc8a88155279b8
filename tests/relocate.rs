use front::bytecode::{Function, Instruction, OpCode, Value};
use front::relocate::{relocate, splice};

fn ins(opcode: OpCode) -> Instruction {
    Instruction { opcode, line: 2, column: 5 }
}

#[test]
fn relocation_shifts_pushes_and_jumps() {
    let ops = vec![
        ins(OpCode::Push(0)),
        ins(OpCode::Jmf(3)),
        ins(OpCode::Jmp(4)),
        ins(OpCode::Load(1)),
        ins(OpCode::Loag("x".to_string())),
    ];
    let r = relocate(&ops, 10, 100);
    assert_eq!(
        r,
        vec![
            ins(OpCode::Push(10)),
            ins(OpCode::Jmf(103)),
            ins(OpCode::Jmp(104)),
            ins(OpCode::Load(1)),
            ins(OpCode::Loag("x".to_string())),
        ]
    );
}

#[test]
fn splice_appends_constants_and_code() {
    let mut ops = vec![ins(OpCode::Push(0)), ins(OpCode::Pop)];
    let mut consts = vec![Value::Num(1)];
    let f = Function { arity: 1, body: vec![ins(OpCode::Push(1)), ins(OpCode::Jmp(2))] };
    let import_consts = vec![Value::Str("s".to_string()), Value::Fn(f)];
    let import_ops = vec![ins(OpCode::Push(1)), ins(OpCode::Jmf(2))];
    splice(&mut ops, &mut consts, &import_ops, &import_consts);
    assert_eq!(
        ops,
        vec![ins(OpCode::Push(0)), ins(OpCode::Pop), ins(OpCode::Push(2)), ins(OpCode::Jmf(4))]
    );
    assert_eq!(consts.len(), 3);
    assert_eq!(consts[1], Value::Str("s".to_string()));
    assert_eq!(
        consts[2],
        Value::Fn(Function { arity: 1, body: vec![ins(OpCode::Push(2)), ins(OpCode::Jmp(4))] })
    );
}
