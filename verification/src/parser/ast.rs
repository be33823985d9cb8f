//! Expression trees of formulas.
use crate::models::cell::CellLocation;
use crate::models::cell::CellRange;
use crate::number::Number;
use vstd::prelude::*;

verus! {

/// An arithmetic operator of the formula language.
#[derive(Debug, PartialEq, Eq, Clone, Copy, Structural)]
pub enum Operator {
    Add,
    Subtract,
    Multiply,
    Divide,
    Null,
}

/// A reference to one cell, as written in a formula. A `row` of `-1` names
/// no row: the reference was written with column letters only.
#[derive(Debug, PartialEq, Eq, Clone, Copy, Structural)]
pub struct CellRef {
    pub col: i32,
    pub row: i32,
}

impl CellRef {
    /// Whether the reference names no row.
    pub fn is_unbounded(&self) -> (b: bool)
        ensures
            b == (self.row == -1),
    {
        self.row == -1
    }

    /// Whether the reference lies inside a grid of `max_row` rows and
    /// `max_col` columns.
    pub fn is_valid(&self, max_row: i32, max_col: i32) -> (b: bool)
        ensures
            b == self.spec_is_valid(max_row as int, max_col as int),
    {
        0 <= self.row && self.row < max_row && 0 <= self.col && self.col < max_col
    }

    /// Whether the reference lies inside a grid of `max_row` rows and
    /// `max_col` columns.
    pub open spec fn spec_is_valid(&self, max_row: int, max_col: int) -> bool {
        0 <= self.row < max_row && 0 <= self.col < max_col
    }

    /// The range that holds the referenced position and no other: see
    /// [`CellLocation::to_range`].
    pub fn to_cell_range(&self) -> (r: CellRange)
        ensures
            r == self.spec_loc().spec_to_range(),
    {
        self.loc().to_range()
    }

    /// The referenced position.
    pub fn loc(&self) -> (l: CellLocation)
        ensures
            l == self.spec_loc(),
    {
        CellLocation { row: self.row, col: self.col }
    }

    /// The referenced position.
    pub open spec fn spec_loc(&self) -> CellLocation {
        CellLocation { row: self.row, col: self.col }
    }
}

/// The expression tree of one cell's text.
#[derive(Debug, PartialEq)]
pub enum ASTNode {
    Empty,
    Number(Number),
    Text(String),
    UnaryExpr { op: Operator, operand: Box<ASTNode> },
    BinaryExpr { op: Operator, lhs: Box<ASTNode>, rhs: Box<ASTNode> },
    Function { name: String, args: Vec<Box<ASTNode>> },
    Ref(CellRef),
    Range { start: CellRef, stop: CellRef },
    ParseError(String),
}

/// The mathematical content of an [`ASTNode`].
pub enum Ast {
    Empty,
    Number(Number),
    Text(Seq<char>),
    Unary { op: Operator, operand: Box<Ast> },
    Binary { op: Operator, lhs: Box<Ast>, rhs: Box<Ast> },
    Function { name: Seq<char>, args: Seq<Ast> },
    Ref(CellRef),
    Range { start: CellRef, stop: CellRef },
    ParseError(Seq<char>),
}

/// The mathematical content of `node`.
pub open spec fn ast_of(node: ASTNode) -> Ast
    decreases node,
{
    match node {
        ASTNode::Empty => Ast::Empty,
        ASTNode::Number(n) => Ast::Number(n),
        ASTNode::Text(s) => Ast::Text(s@),
        ASTNode::UnaryExpr { op, operand } => Ast::Unary {
            op,
            operand: Box::new(ast_of(*operand)),
        },
        ASTNode::BinaryExpr { op, lhs, rhs } => Ast::Binary {
            op,
            lhs: Box::new(ast_of(*lhs)),
            rhs: Box::new(ast_of(*rhs)),
        },
        ASTNode::Function { name, args } => Ast::Function {
            name: name@,
            args: Seq::new(
                args@.len(),
                |i: int|
                    if 0 <= i < args@.len() {
                        ast_of(*args@[i])
                    } else {
                        Ast::Empty
                    },
            ),
        },
        ASTNode::Ref(r) => Ast::Ref(r),
        ASTNode::Range { start, stop } => Ast::Range { start, stop },
        ASTNode::ParseError(m) => Ast::ParseError(m@),
    }
}

impl View for ASTNode {
    type V = Ast;

    open spec fn view(&self) -> Ast {
        ast_of(*self)
    }
}

/// The view of a call holds the views of its arguments.
pub proof fn lemma_function_view(node: ASTNode)
    requires
        node is Function,
    ensures
        node@ == (Ast::Function {
            name: node->Function_name@,
            args: arg_views(node->Function_args@),
        }),
{
    assert(node@->Function_args =~= arg_views(node->Function_args@));
}

/// The views of the nodes of `args`, in order.
pub open spec fn arg_views(args: Seq<Box<ASTNode>>) -> Seq<Ast> {
    Seq::new(args.len(), |i: int| (*args[i]).view())
}

} // verus!
