//! Tokens of the source language and its keyword table.
use vstd::prelude::*;

use crate::names::{decimal, push_decimal};

verus! {

/// The kind of a token; literal kinds carry their value.
#[derive(Debug, PartialEq, Eq)]
pub enum TokenType {
    Num(i64),
    Str(String),
    Sym(String),
    Name(String),
    True,
    False,
    Nil,
    If,
    ElseIf,
    Else,
    Then,
    Def,
    Let,
    Fn,
    Module,
    Struct,
    Trait,
    Do,
    End,
    When,
    Try,
    Rescue,
    Is,
    Add,
    Sub,
    Mul,
    Div,
    Rem,
    Eq,
    Ne,
    Greater,
    GreaterEq,
    Less,
    LessEq,
    Assign,
    Cons,
    Len,
    Mod,
    BitOr,
    BitAnd,
    BitXor,
    Shr,
    Shl,
    And,
    Or,
    Not,
    Lparen,
    Rparen,
    Lbrack,
    Rbrack,
    Lbrace,
    Rbrace,
    Comma,
    Colon,
    Semicolon,
    Sequence,
    Arrow,
    FatArrow,
    Dot,
    Pipe,
    Eof,
}

impl Default for TokenType {
    fn default() -> (r: TokenType)
        ensures
            r is Eof,
    {
        TokenType::Eof
    }
}

/// Decimal text of an integer, with a leading `-` when it is negative.
pub open spec fn int_text(n: int) -> Seq<char> {
    if n < 0 {
        seq!['-'] + decimal((-n) as nat)
    } else {
        decimal(n as nat)
    }
}

/// How a token is written in source text.
pub open spec fn token_text(t: TokenType) -> Seq<char> {
    match t {
        TokenType::Num(n) => int_text(n as int),
        TokenType::Str(s) => "\""@ + s@ + "\""@,
        TokenType::Sym(s) => ":"@ + s@,
        TokenType::Name(s) => s@,
        TokenType::True => "true"@,
        TokenType::False => "false"@,
        TokenType::Nil => "nil"@,
        TokenType::If => "if"@,
        TokenType::ElseIf => "elseif"@,
        TokenType::Else => "else"@,
        TokenType::Then => "then"@,
        TokenType::Def => "def"@,
        TokenType::Let => "let"@,
        TokenType::Fn => "fn"@,
        TokenType::Module => "module"@,
        TokenType::Struct => "struct"@,
        TokenType::Trait => "trait"@,
        TokenType::Do => "do"@,
        TokenType::End => "end"@,
        TokenType::When => "when"@,
        TokenType::Try => "try"@,
        TokenType::Rescue => "rescue"@,
        TokenType::Is => "is"@,
        TokenType::Add => "+"@,
        TokenType::Sub => "-"@,
        TokenType::Mul => "*"@,
        TokenType::Div => "/"@,
        TokenType::Rem => "%"@,
        TokenType::Eq => "=="@,
        TokenType::Ne => "!="@,
        TokenType::Greater => ">"@,
        TokenType::GreaterEq => ">="@,
        TokenType::Less => "<"@,
        TokenType::LessEq => "<="@,
        TokenType::Assign => "="@,
        TokenType::Cons => "::"@,
        TokenType::Len => "#"@,
        TokenType::Mod => "mod"@,
        TokenType::BitAnd => "&&&"@,
        TokenType::BitOr => "|||"@,
        TokenType::BitXor => "^^^"@,
        TokenType::Shr => ">>>"@,
        TokenType::Shl => "<<<"@,
        TokenType::And => "&&"@,
        TokenType::Or => "||"@,
        TokenType::Not => "!"@,
        TokenType::Lparen => "("@,
        TokenType::Rparen => ")"@,
        TokenType::Lbrack => "["@,
        TokenType::Rbrack => "]"@,
        TokenType::Lbrace => "{"@,
        TokenType::Rbrace => "}"@,
        TokenType::Comma => ","@,
        TokenType::Colon => ":"@,
        TokenType::Semicolon => ";"@,
        TokenType::Sequence => ">>"@,
        TokenType::Arrow => "->"@,
        TokenType::FatArrow => "=>"@,
        TokenType::Dot => "."@,
        TokenType::Pipe => "|>"@,
        TokenType::Eof => "<eof>"@,
    }
}

impl TokenType {
    /// The token as it is written in source text.
    pub fn text(&self) -> (r: String)
        ensures
            r@ == token_text(*self),
    {
        match self {
            TokenType::Num(n) => {
                let mut s = String::new();
                if *n < 0 {
                    proof {
                        reveal_strlit("-");
                    }
                    s.append("-");
                    let m: u64 = (-(*n + 1)) as u64 + 1;
                    push_decimal(&mut s, m);
                    proof {
                        assert(s@ =~= int_text(*n as int));
                    }
                } else {
                    push_decimal(&mut s, *n as u64);
                    proof {
                        assert(s@ =~= int_text(*n as int));
                    }
                }
                s
            },
            TokenType::Str(v) => {
                let mut s = String::from_str("\"");
                s.append(v.as_str());
                s.append("\"");
                s
            },
            TokenType::Sym(v) => {
                let mut s = String::from_str(":");
                s.append(v.as_str());
                s
            },
            TokenType::Name(v) => v.clone(),
            TokenType::True => String::from_str("true"),
            TokenType::False => String::from_str("false"),
            TokenType::Nil => String::from_str("nil"),
            TokenType::If => String::from_str("if"),
            TokenType::ElseIf => String::from_str("elseif"),
            TokenType::Else => String::from_str("else"),
            TokenType::Then => String::from_str("then"),
            TokenType::Def => String::from_str("def"),
            TokenType::Let => String::from_str("let"),
            TokenType::Fn => String::from_str("fn"),
            TokenType::Module => String::from_str("module"),
            TokenType::Struct => String::from_str("struct"),
            TokenType::Trait => String::from_str("trait"),
            TokenType::Do => String::from_str("do"),
            TokenType::End => String::from_str("end"),
            TokenType::When => String::from_str("when"),
            TokenType::Try => String::from_str("try"),
            TokenType::Rescue => String::from_str("rescue"),
            TokenType::Is => String::from_str("is"),
            TokenType::Add => String::from_str("+"),
            TokenType::Sub => String::from_str("-"),
            TokenType::Mul => String::from_str("*"),
            TokenType::Div => String::from_str("/"),
            TokenType::Rem => String::from_str("%"),
            TokenType::Eq => String::from_str("=="),
            TokenType::Ne => String::from_str("!="),
            TokenType::Greater => String::from_str(">"),
            TokenType::GreaterEq => String::from_str(">="),
            TokenType::Less => String::from_str("<"),
            TokenType::LessEq => String::from_str("<="),
            TokenType::Assign => String::from_str("="),
            TokenType::Cons => String::from_str("::"),
            TokenType::Len => String::from_str("#"),
            TokenType::Mod => String::from_str("mod"),
            TokenType::BitAnd => String::from_str("&&&"),
            TokenType::BitOr => String::from_str("|||"),
            TokenType::BitXor => String::from_str("^^^"),
            TokenType::Shr => String::from_str(">>>"),
            TokenType::Shl => String::from_str("<<<"),
            TokenType::And => String::from_str("&&"),
            TokenType::Or => String::from_str("||"),
            TokenType::Not => String::from_str("!"),
            TokenType::Lparen => String::from_str("("),
            TokenType::Rparen => String::from_str(")"),
            TokenType::Lbrack => String::from_str("["),
            TokenType::Rbrack => String::from_str("]"),
            TokenType::Lbrace => String::from_str("{"),
            TokenType::Rbrace => String::from_str("}"),
            TokenType::Comma => String::from_str(","),
            TokenType::Colon => String::from_str(":"),
            TokenType::Semicolon => String::from_str(";"),
            TokenType::Sequence => String::from_str(">>"),
            TokenType::Arrow => String::from_str("->"),
            TokenType::FatArrow => String::from_str("=>"),
            TokenType::Dot => String::from_str("."),
            TokenType::Pipe => String::from_str("|>"),
            TokenType::Eof => String::from_str("<eof>"),
        }
    }
}

/// The keyword spelled `word`, if it is one.
pub open spec fn keyword(word: Seq<char>) -> Option<TokenType> {
    if word == "if"@ {
        Some(TokenType::If)
    } else     if word == "elseif"@ {
        Some(TokenType::ElseIf)
    } else     if word == "else"@ {
        Some(TokenType::Else)
    } else     if word == "then"@ {
        Some(TokenType::Then)
    } else     if word == "def"@ {
        Some(TokenType::Def)
    } else     if word == "let"@ {
        Some(TokenType::Let)
    } else     if word == "true"@ {
        Some(TokenType::True)
    } else     if word == "false"@ {
        Some(TokenType::False)
    } else     if word == "nil"@ {
        Some(TokenType::Nil)
    } else     if word == "fn"@ {
        Some(TokenType::Fn)
    } else     if word == "module"@ {
        Some(TokenType::Module)
    } else     if word == "struct"@ {
        Some(TokenType::Struct)
    } else     if word == "trait"@ {
        Some(TokenType::Trait)
    } else     if word == "do"@ {
        Some(TokenType::Do)
    } else     if word == "end"@ {
        Some(TokenType::End)
    } else     if word == "when"@ {
        Some(TokenType::When)
    } else     if word == "try"@ {
        Some(TokenType::Try)
    } else     if word == "rescue"@ {
        Some(TokenType::Rescue)
    } else     if word == "is"@ {
        Some(TokenType::Is)
    } else     if word == "mod"@ {
        Some(TokenType::Mod)
    } else {
        None
    }
}

/// Looks `word` up in the keyword table.
pub fn fetch_keyword(word: &str) -> (r: Option<TokenType>)
    ensures
        r == keyword(word@),
{
    let s = String::from_str(word);
    if s == String::from_str("if") {
        return Some(TokenType::If);
    }
    if s == String::from_str("elseif") {
        return Some(TokenType::ElseIf);
    }
    if s == String::from_str("else") {
        return Some(TokenType::Else);
    }
    if s == String::from_str("then") {
        return Some(TokenType::Then);
    }
    if s == String::from_str("def") {
        return Some(TokenType::Def);
    }
    if s == String::from_str("let") {
        return Some(TokenType::Let);
    }
    if s == String::from_str("true") {
        return Some(TokenType::True);
    }
    if s == String::from_str("false") {
        return Some(TokenType::False);
    }
    if s == String::from_str("nil") {
        return Some(TokenType::Nil);
    }
    if s == String::from_str("fn") {
        return Some(TokenType::Fn);
    }
    if s == String::from_str("module") {
        return Some(TokenType::Module);
    }
    if s == String::from_str("struct") {
        return Some(TokenType::Struct);
    }
    if s == String::from_str("trait") {
        return Some(TokenType::Trait);
    }
    if s == String::from_str("do") {
        return Some(TokenType::Do);
    }
    if s == String::from_str("end") {
        return Some(TokenType::End);
    }
    if s == String::from_str("when") {
        return Some(TokenType::When);
    }
    if s == String::from_str("try") {
        return Some(TokenType::Try);
    }
    if s == String::from_str("rescue") {
        return Some(TokenType::Rescue);
    }
    if s == String::from_str("is") {
        return Some(TokenType::Is);
    }
    if s == String::from_str("mod") {
        return Some(TokenType::Mod);
    }
    None
}

/// A token with its position.
#[derive(Debug, PartialEq, Eq)]
pub struct Token {
    pub line: usize,
    pub column: usize,
    pub token: TokenType,
}

impl Default for Token {
    fn default() -> (r: Token)
        ensures
            r.line == 0,
            r.column == 0,
            r.token is Eof,
    {
        Token { line: 0, column: 0, token: TokenType::Eof }
    }
}

} // verus!
