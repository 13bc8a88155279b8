//! The abstract syntax tree that the compiler consumes.
use vstd::prelude::*;

verus! {

/// A source position.
#[derive(Debug, Clone, Copy, PartialEq, Eq, Structural)]
pub struct Location {
    pub line: usize,
    pub column: usize,
}

/// A literal constant of the source language.
#[derive(Debug, PartialEq, Eq)]
pub enum Literal {
    Nil,
    Bool(bool),
    Num(i64),
    Str(String),
    Sym(String),
}

/// Binary operators.
#[derive(Debug, Clone, Copy, PartialEq, Eq, Structural)]
pub enum BinOp {
    Add,
    Sub,
    Mul,
    Div,
    Rem,
    Eq,
    Ne,
    Less,
    LessEq,
    Greater,
    GreaterEq,
    BitAnd,
    BitOr,
    BitXor,
    Shl,
    Shr,
    And,
    Or,
}

/// Unary operators.
#[derive(Debug, Clone, Copy, PartialEq, Eq, Structural)]
pub enum UnOp {
    Not,
    Neg,
    Len,
}

/// A pattern; the identifier `_` is a wildcard that binds nothing.
#[derive(Debug, PartialEq, Eq)]
pub enum Pattern {
    Lit(Literal),
    Id(String),
    Variant(Vec<String>, Vec<Pattern>),
    Tuple(Vec<Pattern>),
    List(Box<Pattern>, Box<Pattern>),
    EmptyList,
}

/// One arm of a `match`: a pattern, an optional guard and a body.
#[derive(Debug, PartialEq, Eq)]
pub struct MatchArm {
    pub cond: Pattern,
    pub guard: Option<Expr>,
    pub body: Expr,
    pub location: Location,
}

/// A name bound to a value.
#[derive(Debug, PartialEq, Eq)]
pub struct Bind {
    pub bind: String,
    pub value: Box<Expr>,
}

/// An expression with its position.
#[derive(Debug, PartialEq, Eq)]
pub struct Expr {
    pub kind: ExprKind,
    pub location: Location,
}

#[derive(Debug, PartialEq, Eq)]
#[allow(inconsistent_fields)]
pub enum ExprKind {
    Lit(Literal),
    Lambda { args: Vec<Pattern>, body: Box<Expr> },
    App { callee: Box<Expr>, args: Vec<Expr>, tail: bool },
    Var(String),
    If { cond: Box<Expr>, then: Box<Expr>, else_: Box<Expr> },
    Match { expr: Box<Expr>, arms: Vec<MatchArm> },
    Let { bind: Pattern, value: Box<Expr>, body: Box<Expr> },
    Def { bind: Bind, body: Box<Expr> },
    Binary { left: Box<Expr>, op: BinOp, right: Box<Expr> },
    List(Vec<Expr>),
    Cons { head: Box<Expr>, tail: Box<Expr> },
    UnOp(UnOp, Box<Expr>),
    MethodRef { ty: Box<Expr>, method: String },
    Try { body: Box<Expr>, bind: String, rescue: Box<Expr> },
    Tuple(Vec<Expr>),
}

/// A top-level definition `def name = value`.
#[derive(Debug, PartialEq, Eq)]
pub struct Def {
    pub bind: String,
    pub value: Expr,
}

/// One variant of a type declaration: its dotted tag path and its fields.
#[derive(Debug, PartialEq, Eq)]
pub struct Variant {
    pub name: String,
    pub args: Vec<String>,
}

#[derive(Debug, PartialEq, Eq)]
pub enum StmtKind {
    Def(Def),
    Let { bind: Pattern, value: Expr },
    Type { name: String, variants: Vec<Variant>, members: Vec<Def> },
}

/// A top-level statement with its position.
#[derive(Debug, PartialEq, Eq)]
pub struct Stmt {
    pub kind: StmtKind,
    pub location: Location,
}

impl Location {
    pub fn new(line: usize, column: usize) -> (r: Location)
        ensures
            r.line == line,
            r.column == column,
    {
        Location { line, column }
    }
}

/// Every member of a type declaration is a lambda.
pub open spec fn stmt_well_formed(s: Stmt) -> bool {
    s.kind matches StmtKind::Type { members, .. } ==> forall|j: int|
        0 <= j < members.len() ==> (#[trigger] members@[j]).value.kind is Lambda
}

} // verus!
