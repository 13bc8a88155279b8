use front::ast::{
    Bind, BinOp, Def, Expr, ExprKind, Literal, Location, MatchArm, Pattern, Stmt, StmtKind, UnOp,
    Variant,
};
use front::bytecode::{Instruction, OpCode, Value};
use front::compiler::{Compiler, Scope};

fn at() -> Location {
    Location::new(1, 1)
}

fn e(kind: ExprKind) -> Expr {
    Expr { kind, location: at() }
}

fn s(x: &str) -> String {
    x.to_string()
}

fn num(n: i64) -> Expr {
    e(ExprKind::Lit(Literal::Num(n)))
}

fn var(x: &str) -> Expr {
    e(ExprKind::Var(s(x)))
}

fn sym(x: &str) -> Expr {
    e(ExprKind::Lit(Literal::Sym(s(x))))
}

fn bin(left: Expr, op: BinOp, right: Expr) -> Expr {
    e(ExprKind::Binary { left: Box::new(left), op, right: Box::new(right) })
}

fn app(callee: Expr, args: Vec<Expr>, tail: bool) -> Expr {
    e(ExprKind::App { callee: Box::new(callee), args, tail })
}

fn compile(expr: &Expr) -> (Vec<Instruction>, Vec<Value>) {
    let (ops, consts) = Compiler::new().compile_expr(expr);
    check_output(&ops, &consts);
    (ops, consts)
}

fn codes(ops: &[Instruction]) -> Vec<&OpCode> {
    ops.iter().map(|i| &i.opcode).collect()
}

fn target(op: &OpCode) -> Option<usize> {
    match op {
        OpCode::Jmp(a) | OpCode::Jmf(a) | OpCode::Try(a) => Some(*a),
        _ => None,
    }
}

/// Every jump goes forward within its buffer and every push refers into the pool,
/// in the top-level code and in every function of the pool.
fn check_code(ops: &[Instruction], n_consts: usize) {
    for (i, ins) in ops.iter().enumerate() {
        if let Some(a) = target(&ins.opcode) {
            assert!(i < a && a <= ops.len(), "jump at {} to {} of {}", i, a, ops.len());
        }
        if let OpCode::Push(k) = ins.opcode {
            assert!(k < n_consts);
        }
    }
}

fn check_output(ops: &[Instruction], consts: &[Value]) {
    check_code(ops, consts.len());
    for c in consts {
        match c {
            Value::Fn(f) => check_code(&f.body, consts.len()),
            Value::Module(m) => {
                for (_, v) in &m.fields {
                    if let Value::Fn(f) = v {
                        check_code(&f.body, consts.len());
                    }
                }
            }
            _ => {}
        }
    }
    for i in 0..consts.len() {
        for j in (i + 1)..consts.len() {
            if !matches!(consts[i], Value::Module(_)) {
                assert_ne!(consts[i], consts[j], "constants {} and {} are equal", i, j);
            }
        }
    }
}

fn raise_tail(first: usize) -> Vec<OpCode> {
    vec![OpCode::Push(first), OpCode::Push(first + 1), OpCode::Loag(s("raise")), OpCode::Call(2)]
}

#[test]
fn let_binding_saves_then_loads() {
    let prog = e(ExprKind::Let {
        bind: Pattern::Id(s("x")),
        value: Box::new(num(1)),
        body: Box::new(bin(var("x"), BinOp::Add, num(2))),
    });
    let (ops, consts) = compile(&prog);
    assert_eq!(consts[0], Value::Num(1));
    assert_eq!(consts[1], Value::Num(2));
    let mut expected = vec![
        OpCode::Push(0),
        OpCode::Save(0),
        OpCode::Load(0),
        OpCode::Push(1),
        OpCode::Add,
        OpCode::Jmp(10),
    ];
    expected.extend(raise_tail(2));
    assert_eq!(codes(&ops), expected.iter().collect::<Vec<_>>());
    assert_eq!(consts[2], Value::Str(s("No match of rhs value")));
    assert_eq!(consts[3], Value::Sym(s("MatchError")));
}

#[test]
fn if_jumps_over_the_then_branch() {
    let prog = e(ExprKind::If {
        cond: Box::new(bin(num(1), BinOp::Eq, num(1))),
        then: Box::new(sym("ok")),
        else_: Box::new(sym("err")),
    });
    let (ops, consts) = compile(&prog);
    assert_eq!(consts, vec![Value::Num(1), Value::Sym(s("ok")), Value::Sym(s("err"))]);
    let expected = vec![
        OpCode::Push(0),
        OpCode::Push(0),
        OpCode::Eq,
        OpCode::Jmf(6),
        OpCode::Push(1),
        OpCode::Jmp(7),
        OpCode::Push(2),
    ];
    assert_eq!(codes(&ops), expected.iter().collect::<Vec<_>>());
}

#[test]
fn match_on_list_binds_head_and_tail() {
    let arms = vec![
        MatchArm {
            cond: Pattern::List(Box::new(Pattern::Id(s("x"))), Box::new(Pattern::Id(s("xs")))),
            guard: None,
            body: var("xs"),
            location: at(),
        },
        MatchArm {
            cond: Pattern::EmptyList,
            guard: None,
            body: e(ExprKind::List(vec![])),
            location: at(),
        },
    ];
    let prog = e(ExprKind::Match {
        expr: Box::new(e(ExprKind::List(vec![num(1), num(2)]))),
        arms,
    });
    let (ops, consts) = compile(&prog);
    let empties = consts.iter().filter(|c| matches!(c, Value::List(v) if v.is_empty())).count();
    assert_eq!(empties, 1);
    // the first arm binds x and xs and returns xs
    let c = codes(&ops);
    assert!(c.contains(&&OpCode::Ref(s("head"))));
    assert!(c.contains(&&OpCode::Ref(s("tail"))));
    let saves = c.iter().filter(|o| matches!(o, OpCode::Save(_))).count();
    assert_eq!(saves, 4);
    assert!(c.contains(&&OpCode::Load(3)));
    assert!(consts.contains(&Value::Str(s("Couldn't match any clause"))));
    assert!(consts.contains(&Value::Str(s("Starting match"))));
}

#[test]
fn type_declaration_builds_a_module() {
    let ty = Stmt {
        kind: StmtKind::Type {
            name: s("Option"),
            variants: vec![
                Variant { name: s("Option.None"), args: vec![] },
                Variant { name: s("Option.Some"), args: vec![s("x")] },
            ],
            members: vec![],
        },
        location: at(),
    };
    let call = Stmt {
        kind: StmtKind::Def(Def {
            bind: s("r"),
            value: app(
                e(ExprKind::MethodRef { ty: Box::new(var("Option")), method: s("Some") }),
                vec![num(3)],
                false,
            ),
        }),
        location: at(),
    };
    let (ops, consts) = Compiler::new().compile_stmts(&vec![ty, call]);
    check_output(&ops, &consts);
    let m = match &consts[0] {
        Value::Module(m) => m,
        other => panic!("expected a module, found {:?}", other),
    };
    assert_eq!(m.id, 0);
    assert_eq!(m.name, s("Option"));
    let field = |k: &str| m.fields.iter().find(|(n, _)| n == k).map(|(_, v)| v).unwrap();
    assert_eq!(field("None"), &Value::Tagged(0, s("Option.None"), vec![]));
    match field("Some") {
        Value::Fn(f) => {
            assert_eq!(f.arity, 1);
            let body: Vec<&OpCode> = f.body.iter().map(|i| &i.opcode).collect();
            assert_eq!(body, vec![&OpCode::Tup(1), &OpCode::Push(0), &OpCode::Tag(s("Option.Some"))]);
        }
        other => panic!("expected a constructor, found {:?}", other),
    }
    let expected = vec![
        OpCode::Push(0),
        OpCode::Savg(s("Option")),
        OpCode::Push(1),
        OpCode::Loag(s("Option")),
        OpCode::Ref(s("Some")),
        OpCode::Call(1),
        OpCode::Savg(s("r")),
    ];
    assert_eq!(codes(&ops), expected.iter().collect::<Vec<_>>());
    assert_eq!(consts[1], Value::Num(3));
}

#[test]
fn lambda_call_reverses_arguments() {
    let lambda = e(ExprKind::Lambda {
        args: vec![Pattern::Id(s("x")), Pattern::Id(s("y"))],
        body: Box::new(bin(var("x"), BinOp::Add, var("y"))),
    });
    let prog = app(lambda, vec![num(1), num(2)], false);
    let (ops, consts) = compile(&prog);
    let c = codes(&ops);
    assert_eq!(c.len(), 5);
    assert_eq!(c[0], &OpCode::Push(0));
    assert_eq!(c[1], &OpCode::Push(1));
    assert_eq!(c[2], &OpCode::RevN(2));
    assert_eq!(c[4], &OpCode::Call(2));
    let k = match c[3] {
        OpCode::Push(k) => *k,
        other => panic!("expected a push of the lambda, found {:?}", other),
    };
    match &consts[k] {
        Value::Fn(f) => {
            assert_eq!(f.arity, 2);
            let body: Vec<&OpCode> = f.body.iter().map(|i| &i.opcode).collect();
            assert_eq!(&body[..5], &[&OpCode::Save(0), &OpCode::Save(1), &OpCode::Load(0), &OpCode::Load(1), &OpCode::Add]);
            assert_eq!(body[5], &OpCode::Jmp(10));
        }
        other => panic!("expected a function, found {:?}", other),
    }
}

#[test]
fn try_rescue_has_one_handler() {
    let body = app(var("raise"), vec![e(ExprKind::Lit(Literal::Str(s("e")))), var("E")], false);
    let prog = e(ExprKind::Try { body: Box::new(body), bind: s("e"), rescue: Box::new(var("e")) });
    let (ops, consts) = compile(&prog);
    let c = codes(&ops);
    assert_eq!(c.iter().filter(|o| matches!(o, OpCode::Try(_))).count(), 1);
    assert_eq!(c.iter().filter(|o| matches!(o, OpCode::EndTry)).count(), 1);
    assert_eq!(c.iter().filter(|o| matches!(o, OpCode::Jmp(_))).count(), 1);
    let expected = vec![
        OpCode::Try(8),
        OpCode::Push(0),
        OpCode::Loag(s("E")),
        OpCode::RevN(2),
        OpCode::Loag(s("raise")),
        OpCode::Call(2),
        OpCode::EndTry,
        OpCode::Jmp(11),
        OpCode::Pop,
        OpCode::Save(0),
        OpCode::Load(0),
    ];
    assert_eq!(c, expected.iter().collect::<Vec<_>>());
    assert_eq!(consts, vec![Value::Str(s("e"))]);
}

#[test]
fn empty_list_literal_is_one_push() {
    let (ops, consts) = compile(&e(ExprKind::List(vec![])));
    assert_eq!(codes(&ops), vec![&OpCode::Push(0)]);
    assert_eq!(consts, vec![Value::List(vec![])]);
}

#[test]
fn list_literal_prepends_in_order() {
    let (ops, consts) = compile(&e(ExprKind::List(vec![num(1), num(2)])));
    let expected = vec![OpCode::Push(0), OpCode::Push(1), OpCode::Push(2), OpCode::Prep, OpCode::Prep];
    assert_eq!(codes(&ops), expected.iter().collect::<Vec<_>>());
    assert_eq!(consts[2], Value::List(vec![]));
}

#[test]
fn single_element_tuple_has_no_revn() {
    let (ops, _) = compile(&e(ExprKind::Tuple(vec![num(5)])));
    assert_eq!(codes(&ops), vec![&OpCode::Push(0), &OpCode::Tup(1)]);
}

#[test]
fn tuple_elements_are_emitted_in_reverse() {
    let (ops, consts) = compile(&e(ExprKind::Tuple(vec![num(1), num(2), num(3)])));
    assert_eq!(consts, vec![Value::Num(3), Value::Num(2), Value::Num(1)]);
    assert_eq!(codes(&ops).last(), Some(&&OpCode::Tup(3)));
}

#[test]
fn wildcard_pattern_pops_and_binds_nothing() {
    let prog = e(ExprKind::Let {
        bind: Pattern::Id(s("_")),
        value: Box::new(num(1)),
        body: Box::new(var("_")),
    });
    let (ops, _) = compile(&prog);
    let c = codes(&ops);
    assert_eq!(c[0], &OpCode::Push(0));
    assert_eq!(c[1], &OpCode::Pop);
    assert_eq!(c[2], &OpCode::Loag(s("_")));
}

#[test]
fn tail_flag_selects_call_opcode() {
    let (ops, _) = compile(&app(var("f"), vec![num(1)], true));
    assert_eq!(codes(&ops), vec![&OpCode::Push(0), &OpCode::Loag(s("f")), &OpCode::TCall(1)]);
    let (ops, _) = compile(&app(var("f"), vec![num(1)], false));
    assert_eq!(codes(&ops), vec![&OpCode::Push(0), &OpCode::Loag(s("f")), &OpCode::Call(1)]);
    let (ops, _) = compile(&app(var("f"), vec![], false));
    assert_eq!(codes(&ops), vec![&OpCode::Loag(s("f")), &OpCode::Call(0)]);
}

#[test]
fn and_skips_right_operand_when_left_is_falsy() {
    let (ops, _) = compile(&bin(var("a"), BinOp::And, var("b")));
    let expected = vec![OpCode::Loag(s("a")), OpCode::Dup, OpCode::Jmf(5), OpCode::Pop, OpCode::Loag(s("b"))];
    assert_eq!(codes(&ops), expected.iter().collect::<Vec<_>>());
}

#[test]
fn or_skips_right_operand_when_left_is_truthy() {
    let (ops, _) = compile(&bin(var("a"), BinOp::Or, var("b")));
    let expected = vec![
        OpCode::Loag(s("a")),
        OpCode::Dup,
        OpCode::Not,
        OpCode::Jmf(6),
        OpCode::Pop,
        OpCode::Loag(s("b")),
    ];
    assert_eq!(codes(&ops), expected.iter().collect::<Vec<_>>());
}

#[test]
fn not_equal_is_eq_then_not() {
    let (ops, _) = compile(&bin(var("a"), BinOp::Ne, var("b")));
    let expected = vec![OpCode::Loag(s("a")), OpCode::Loag(s("b")), OpCode::Eq, OpCode::Not];
    assert_eq!(codes(&ops), expected.iter().collect::<Vec<_>>());
}

#[test]
fn unary_and_method_reference() {
    let (ops, _) = compile(&e(ExprKind::UnOp(UnOp::Neg, Box::new(num(4)))));
    assert_eq!(codes(&ops), vec![&OpCode::Push(0), &OpCode::Neg]);
    let (ops, _) = compile(&e(ExprKind::MethodRef { ty: Box::new(var("List")), method: s("map") }));
    assert_eq!(codes(&ops), vec![&OpCode::Loag(s("List")), &OpCode::Ref(s("map"))]);
    let (ops, _) = compile(&e(ExprKind::Cons { head: Box::new(num(1)), tail: Box::new(var("t")) }));
    assert_eq!(codes(&ops), vec![&OpCode::Push(0), &OpCode::Loag(s("t")), &OpCode::Prep]);
}

#[test]
fn def_expression_saves_a_local() {
    let prog = e(ExprKind::Def {
        bind: Bind { bind: s("y"), value: Box::new(num(7)) },
        body: Box::new(var("y")),
    });
    let (ops, _) = compile(&prog);
    assert_eq!(codes(&ops), vec![&OpCode::Push(0), &OpCode::Save(0), &OpCode::Load(0)]);
}

#[test]
fn repeated_literals_share_one_constant() {
    let prog = e(ExprKind::List(vec![num(7), num(7), sym("a"), sym("a"), num(7)]));
    let (ops, consts) = compile(&prog);
    assert_eq!(consts, vec![Value::Num(7), Value::Sym(s("a")), Value::List(vec![])]);
    let pushes: Vec<&OpCode> = codes(&ops).into_iter().filter(|o| matches!(o, OpCode::Push(_))).collect();
    assert_eq!(pushes, vec![&OpCode::Push(0), &OpCode::Push(0), &OpCode::Push(1), &OpCode::Push(1), &OpCode::Push(0), &OpCode::Push(2)]);
}

#[test]
fn identical_lambdas_share_one_constant() {
    let lam = || e(ExprKind::Lambda { args: vec![Pattern::Id(s("x"))], body: Box::new(var("x")) });
    let (ops, consts) = compile(&e(ExprKind::Tuple(vec![lam(), lam()])));
    let fns = consts.iter().filter(|c| matches!(c, Value::Fn(_))).count();
    assert_eq!(fns, 1);
    let c = codes(&ops);
    assert_eq!(c[0], c[1]);
}

#[test]
fn tuple_pattern_in_lambda_checks_length() {
    let lambda = e(ExprKind::Lambda {
        args: vec![Pattern::Tuple(vec![Pattern::Id(s("a")), Pattern::Lit(Literal::Num(0))])],
        body: Box::new(var("a")),
    });
    let (_, consts) = compile(&lambda);
    let f = consts.iter().find_map(|c| if let Value::Fn(f) = c { Some(f) } else { None }).unwrap();
    let body: Vec<&OpCode> = f.body.iter().map(|i| &i.opcode).collect();
    assert_eq!(body[0], &OpCode::Save(0));
    assert_eq!(body[1], &OpCode::Load(0));
    assert_eq!(body[2], &OpCode::Len);
    assert_eq!(body[4], &OpCode::Eq);
    assert!(matches!(body[5], OpCode::Jmf(_)));
    assert_eq!(consts.iter().filter(|c| **c == Value::Num(2)).count(), 1);
    check_code(&f.body, consts.len());
}

#[test]
fn variant_pattern_compares_tag_and_arity() {
    let arms = vec![
        MatchArm {
            cond: Pattern::Variant(vec![s("Option"), s("Some")], vec![Pattern::Id(s("v"))]),
            guard: Some(bin(var("v"), BinOp::Greater, num(0))),
            body: var("v"),
            location: at(),
        },
        MatchArm { cond: Pattern::Id(s("_")), guard: None, body: num(0), location: at() },
    ];
    let prog = e(ExprKind::Match { expr: Box::new(var("o")), arms });
    let (ops, consts) = compile(&prog);
    assert!(consts.contains(&Value::Sym(s("Option.Some"))));
    let c = codes(&ops);
    assert!(c.contains(&&OpCode::TagOf));
    assert!(c.contains(&&OpCode::TagTup));
    assert!(c.contains(&&OpCode::TupGet(0)));
    assert!(c.contains(&&OpCode::Greater));
}

#[test]
fn top_level_let_stores_globals() {
    let stmt = Stmt {
        kind: StmtKind::Let {
            bind: Pattern::Tuple(vec![Pattern::Id(s("a")), Pattern::Id(s("b"))]),
            value: e(ExprKind::Tuple(vec![num(1), num(2)])),
        },
        location: at(),
    };
    let mut compiler = Compiler::new();
    compiler.stmt(&stmt);
    assert_eq!(compiler.unique_counter, 0);
    let c = codes(&compiler.scope.opcodes);
    assert!(c.contains(&&OpCode::Savg(s("a"))));
    assert!(c.contains(&&OpCode::Savg(s("b"))));
    check_output(&compiler.scope.opcodes, &compiler.constants);
}

#[test]
fn counter_is_reset_after_each_statement() {
    let pat = || Pattern::List(Box::new(Pattern::Id(s("h"))), Box::new(Pattern::Id(s("t"))));
    let stmts = vec![
        Stmt { kind: StmtKind::Let { bind: pat(), value: var("xs") }, location: at() },
        Stmt { kind: StmtKind::Let { bind: pat(), value: var("ys") }, location: at() },
    ];
    let mut compiler = Compiler::new();
    for st in &stmts {
        compiler.stmt(st);
        assert_eq!(compiler.unique_counter, 0);
    }
    let (ops, consts) = Compiler::new().compile_stmts(&stmts);
    check_output(&ops, &consts);
    assert!(codes(&ops).contains(&&OpCode::Savg(s("h"))));
}

#[test]
fn slots_are_handed_out_in_order_and_never_reused() {
    let mut scope = Scope::new();
    assert_eq!(scope.save(s("a"), at()), 0);
    assert_eq!(scope.save(s("b"), at()), 1);
    assert_eq!(scope.save(s("a"), at()), 0);
    scope.remove(&s("a"));
    assert_eq!(scope.lookup(&s("a")), None);
    assert_eq!(scope.save(s("c"), at()), 2);
    assert_eq!(scope.lookup(&s("b")), Some(1));
    assert_eq!(scope.next_slot, 3);
    assert_eq!(scope.opcodes.len(), 4);
}

#[test]
fn locals_do_not_leak_out_of_a_let() {
    let inner = e(ExprKind::Let {
        bind: Pattern::Id(s("x")),
        value: Box::new(num(1)),
        body: Box::new(var("x")),
    });
    let prog = e(ExprKind::Tuple(vec![var("x"), inner]));
    let (ops, _) = compile(&prog);
    let c = codes(&ops);
    assert!(c.contains(&&OpCode::Load(0)));
    assert!(c.contains(&&OpCode::Loag(s("x"))));
}

#[test]
fn empty_program_compiles_to_nothing() {
    let (ops, consts) = Compiler::new().compile_stmts(&vec![]);
    assert!(ops.is_empty());
    assert!(consts.is_empty());
}
