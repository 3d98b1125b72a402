use vstd::prelude::*;

use crate::number::Number;
use crate::operator::Operator;
use crate::trigonometric::TrigonometricFunction;

verus! {

/// A failure to evaluate an expression tree.
#[derive(Debug, Clone, PartialEq, Eq, Structural)]
pub struct EvalError {
    pub kind: EvalErrorKind,
}

/// The kinds of evaluation failure. A tree that `parse` produced always evaluates, so these
/// exist for callers that build or evaluate trees in other ways.
#[derive(Debug, Clone, PartialEq, Eq, Structural)]
pub enum EvalErrorKind {
    NoSubstitute,
    InvalidOpenCloseParantheses,
    InvalidNumberParsed,
    InvalidExpression,
}

/// An operand: a constant, the free variable, a trigonometric function applied to a
/// sub-tree, or a parenthesized sub-tree.
#[derive(Debug)]
pub enum ExpressionNodeType {
    ValueOperand(Number),
    VariableOperand(char),
    TrigonometricOperand((TrigonometricFunction, Box<ExpressionNode>)),
    NodeOperand(Box<ExpressionNode>),
}

/// A node of an expression tree. With an operator and a right operand it applies the
/// operator; with a right operand and no operator it multiplies; with neither it stands for
/// its left operand alone.
#[derive(Debug)]
pub struct ExpressionNode {
    pub left: ExpressionNodeType,
    pub operator: Option<Operator>,
    pub right: Option<ExpressionNodeType>,
}

/// The mathematical value of an operand.
pub enum OperandView {
    Value(Seq<char>),
    Variable(char),
    Trigonometric(TrigonometricFunction, Box<NodeView>),
    Nested(Box<NodeView>),
}

/// The mathematical value of a node.
pub struct NodeView {
    pub left: OperandView,
    pub operator: Option<Operator>,
    pub right: Option<OperandView>,
}

impl ExpressionNodeType {
    /// The mathematical value of the operand.
    pub open spec fn view(&self) -> OperandView
        decreases self,
    {
        match self {
            ExpressionNodeType::ValueOperand(n) => OperandView::Value(n@),
            ExpressionNodeType::VariableOperand(c) => OperandView::Variable(*c),
            ExpressionNodeType::TrigonometricOperand((f, node)) => OperandView::Trigonometric(
                *f,
                Box::new(node.view()),
            ),
            ExpressionNodeType::NodeOperand(node) => OperandView::Nested(Box::new(node.view())),
        }
    }
}

impl ExpressionNode {
    /// The mathematical value of the tree.
    pub open spec fn view(&self) -> NodeView
        decreases self,
    {
        NodeView {
            left: self.left.view(),
            operator: self.operator,
            right: match &self.right {
                Some(r) => Some(r.view()),
                None => None,
            },
        }
    }
}

/// Canonical text of an operand: a constant as its decimal text, the variable as its
/// letter, a sub-tree in parentheses, a function as its keyword and its parenthesized
/// argument.
pub open spec fn operand_text(o: OperandView) -> Seq<char>
    decreases o,
{
    match o {
        OperandView::Value(t) => t,
        OperandView::Variable(c) => seq![c],
        OperandView::Trigonometric(f, node) => f.spec_name() + seq!['('] + node_text(*node) + seq![
            ')',
        ],
        OperandView::Nested(node) => seq!['('] + node_text(*node) + seq![')'],
    }
}

/// Canonical text of a node: left operand, operator symbol and right operand, with no
/// spaces.
pub open spec fn node_text(n: NodeView) -> Seq<char>
    decreases n,
{
    operand_text(n.left) + (match n.operator {
        Some(op) => seq![op.spec_symbol()],
        None => Seq::<char>::empty(),
    }) + (match n.right {
        Some(r) => operand_text(r),
        None => Seq::<char>::empty(),
    })
}

impl ExpressionNodeType {
    /// Appends the canonical text of the operand to `out`.
    pub fn write_to(&self, out: &mut String)
        ensures
            final(out)@ == old(out)@ + operand_text(self.view()),
        decreases self,
    {
        match self {
            ExpressionNodeType::ValueOperand(n) => n.write_to(out),
            ExpressionNodeType::VariableOperand(c) => out.push(*c),
            ExpressionNodeType::TrigonometricOperand((f, node)) => {
                out.append(f.name());
                out.push('(');
                node.write_to(out);
                out.push(')');
            },
            ExpressionNodeType::NodeOperand(node) => {
                out.push('(');
                node.write_to(out);
                out.push(')');
            },
        }
        proof {
            assert(out@ =~= old(out)@ + operand_text(self.view()));
        }
    }

    /// The canonical text of the operand.
    pub fn to_text(&self) -> (r: String)
        ensures
            r@ == operand_text(self.view()),
    {
        let mut out = String::new();
        self.write_to(&mut out);
        proof {
            assert(out@ =~= operand_text(self.view()));
        }
        out
    }
}

impl ExpressionNode {
    /// A node from its parts.
    pub fn new(
        left: ExpressionNodeType,
        operator: Option<Operator>,
        right: Option<ExpressionNodeType>,
    ) -> (r: Self)
        ensures
            r.left == left,
            r.operator == operator,
            r.right == right,
    {
        Self { left, operator, right }
    }

    /// Appends the canonical text of the node to `out`.
    pub fn write_to(&self, out: &mut String)
        ensures
            final(out)@ == old(out)@ + node_text(self.view()),
        decreases self,
    {
        self.left.write_to(out);
        match &self.operator {
            Some(op) => out.push(op.value_in_operator()),
            None => (),
        }
        match &self.right {
            Some(node) => node.write_to(out),
            None => (),
        }
        proof {
            assert(out@ =~= old(out)@ + node_text(self.view()));
        }
    }

    /// The canonical text of the tree (see `node_text`).
    pub fn generate_expression(&self) -> (r: String)
        ensures
            r@ == node_text(self.view()),
    {
        let mut expression_str = String::new();
        self.write_to(&mut expression_str);
        proof {
            assert(expression_str@ =~= node_text(self.view()));
        }
        expression_str
    }
}

} // verus!
