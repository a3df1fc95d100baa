use vstd::prelude::*;

use crate::token::{SpecToken, Token};

verus! {

/// The mathematical value of an expression node.
pub ghost enum SpecExpression {
    Identifier { token: SpecToken, value: Seq<char> },
}

/// An expression node. Only the identifier variant exists so far; the
/// enum is meant to grow as expression parsing is filled in.
#[derive(Debug)]
pub enum Expression {
    Identifier { token: Token, value: String },
}

impl View for Expression {
    type V = SpecExpression;

    open spec fn view(&self) -> SpecExpression {
        match self {
            Expression::Identifier { token, value } => SpecExpression::Identifier {
                token: token@,
                value: value@,
            },
        }
    }
}

/// The mathematical value of a statement node.
pub ghost enum SpecStatement {
    Let { token: SpecToken, name: SpecExpression, value: SpecExpression },
}

/// A statement node. Only the let-binding variant exists so far.
#[derive(Debug)]
pub enum Statement {
    Let { token: Token, name: Expression, value: Expression },
}

impl View for Statement {
    type V = SpecStatement;

    open spec fn view(&self) -> SpecStatement {
        match self {
            Statement::Let { token, name, value } => SpecStatement::Let {
                token: token@,
                name: name@,
                value: value@,
            },
        }
    }
}

/// Any node of the tree: a statement or an expression.
#[derive(Debug)]
pub enum Node {
    Statement(Statement),
    Expression(Expression),
}

/// The mathematical values of a sequence of statements.
pub open spec fn spec_statements(v: Seq<Statement>) -> Seq<SpecStatement> {
    v.map_values(|s: Statement| s@)
}

/// A parsed program: the ordered sequence of its statements.
#[derive(Debug)]
pub struct Program {
    pub statements: Vec<Statement>,
}

impl View for Program {
    type V = Seq<SpecStatement>;

    open spec fn view(&self) -> Seq<SpecStatement> {
        spec_statements(self.statements@)
    }
}

} // verus!
