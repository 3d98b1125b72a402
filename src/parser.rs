use vstd::prelude::*;

use crate::node::{ExpressionNode, ExpressionNodeType, NodeView, OperandView};
use crate::operator::Operator;
use crate::token::{
    is_close, is_open, lemma_trim_middle, lex, token_views, tokenize, trim_range, trim_spec,
    validate_range, validate_spec, ErrorKind, ParseError, Parenthesis, Token, TokenView,
};

verus! {

// ---------------------------------------------------------------------------------------------
// Choice of the operator to split at
// ---------------------------------------------------------------------------------------------

/// Change of nesting depth across `t`.
pub open spec fn depth_step(t: TokenView) -> int {
    if is_open(t) {
        1
    } else if is_close(t) {
        -1
    } else {
        0
    }
}

/// Nesting depth just before position `i`: the `(` before it less the `)` before it.
pub open spec fn depth_before(ts: Seq<TokenView>, i: int) -> int
    decreases i,
{
    if i <= 0 {
        0
    } else {
        depth_before(ts, i - 1) + depth_step(ts[i - 1])
    }
}

/// Whether position `i` holds an operator outside all parentheses.
pub open spec fn top_level_operator(ts: Seq<TokenView>, i: int) -> bool {
    0 <= i < ts.len() && ts[i] is Operator && depth_before(ts, i) == 0
}

/// Precedence rank of the operator at position `i`.
pub open spec fn rank_at(ts: Seq<TokenView>, i: int) -> u8 {
    ts[i]->Operator_0.spec_rank()
}

/// Whether `i` is the split point among the first `m` positions: a top-level operator of the
/// lowest rank there, and the first of that rank.
pub open spec fn is_split_among(ts: Seq<TokenView>, i: int, m: int) -> bool {
    &&& i < m
    &&& top_level_operator(ts, i)
    &&& forall|j: int|
        0 <= j < i && #[trigger] top_level_operator(ts, j) ==> rank_at(ts, j) > rank_at(ts, i)
    &&& forall|j: int|
        i < j < m && #[trigger] top_level_operator(ts, j) ==> rank_at(ts, j) >= rank_at(ts, i)
}

/// The position at which `ts` is split: the first top-level operator of the lowest rank.
pub open spec fn split_point(ts: Seq<TokenView>) -> Option<int> {
    if exists|i: int| is_split_among(ts, i, ts.len() as int) {
        Some(choose|i: int| is_split_among(ts, i, ts.len() as int))
    } else {
        None
    }
}

/// There is at most one split point.
pub proof fn lemma_split_unique(ts: Seq<TokenView>, i: int, j: int, m: int)
    requires
        is_split_among(ts, i, m),
        is_split_among(ts, j, m),
    ensures
        i == j,
{
    if i < j {
        assert(top_level_operator(ts, i));
    } else if j < i {
        assert(top_level_operator(ts, j));
    }
}

/// Split point of `tokens[lo..hi]`, as a position in `tokens`, with its operator.
fn find_operator_range(tokens: &[Token], lo: usize, hi: usize) -> (r: Option<(usize, Operator)>)
    requires
        lo <= hi <= tokens@.len(),
    ensures
        ({
            let ts = token_views(tokens@).subrange(lo as int, hi as int);
            match r {
                Some((i, op)) => lo <= i < hi && split_point(ts) == Some(i - lo) && ts[i - lo]
                    == TokenView::Operator(op),
                None => split_point(ts) is None,
            }
        }),
{
    let ghost ts = token_views(tokens@).subrange(lo as int, hi as int);
    let mut min_i: usize = 0;
    let mut min_op_i: Option<Operator> = None;
    let mut opens: usize = 0;
    let mut closes: usize = 0;
    let mut k: usize = lo;
    while k < hi
        invariant
            ts == token_views(tokens@).subrange(lo as int, hi as int),
            lo <= k <= hi <= tokens@.len(),
            opens <= k - lo,
            closes <= k - lo,
            depth_before(ts, k - lo) == opens - closes,
            min_op_i is None ==> forall|j: int| 0 <= j < k - lo ==> !top_level_operator(ts, j),
            min_op_i matches Some(op) ==> lo <= min_i < k && is_split_among(
                ts,
                min_i - lo,
                k - lo,
            ) && ts[min_i - lo] == TokenView::Operator(op),
        decreases hi - k,
    {
        let ghost m = (k - lo) as int;
        assert(ts[m] == tokens@[k as int]@);
        assert(depth_before(ts, m + 1) == depth_before(ts, m) + depth_step(ts[m]));
        match &tokens[k] {
            Token::Operator(cop) => {
                if opens == closes {
                    match min_op_i {
                        Some(mop) => {
                            if cop.rank() < mop.rank() {
                                min_op_i = Some(*cop);
                                min_i = k;
                            }
                        },
                        None => {
                            min_op_i = Some(*cop);
                            min_i = k;
                        },
                    }
                }
            },
            Token::Parenthesis(Parenthesis::Open) => {
                opens = opens + 1;
            },
            Token::Parenthesis(Parenthesis::Close) => {
                closes = closes + 1;
            },
            _ => {},
        }
        k = k + 1;
    }
    match min_op_i {
        Some(op) => {
            proof {
                let n = ts.len() as int;
                assert(is_split_among(ts, min_i - lo, n));
                let c = choose|i: int| is_split_among(ts, i, n);
                lemma_split_unique(ts, c, min_i - lo, n);
            }
            Some((min_i, op))
        },
        None => {
            proof {
                if exists|i: int| is_split_among(ts, i, ts.len() as int) {
                    let c = choose|i: int| is_split_among(ts, i, ts.len() as int);
                    assert(top_level_operator(ts, c));
                }
            }
            None
        },
    }
}

/// The operator at which `current` is split, with its position: among the operators outside
/// all parentheses, the first one of the lowest rank.
pub fn find_operator(current: &[Token]) -> (r: Option<(usize, Operator)>)
    ensures
        match r {
            Some((i, op)) => split_point(token_views(current@)) == Some(i as int)
                && token_views(current@)[i as int] == TokenView::Operator(op),
            None => split_point(token_views(current@)) is None,
        },
{
    proof {
        assert(token_views(current@).subrange(0, current@.len() as int) =~= token_views(
            current@,
        ));
    }
    find_operator_range(current, 0, current.len())
}

// ---------------------------------------------------------------------------------------------
// Tree building
// ---------------------------------------------------------------------------------------------

/// The operand that a lone token stands for: a number is a constant, an identifier the
/// variable named by its first letter. A lone keyword also names the variable, by its first
/// letter, and any other lone token the variable `?`.
pub open spec fn operand_of_token(t: TokenView) -> OperandView {
    match t {
        TokenView::Number(n) => OperandView::Value(n),
        TokenView::Variable(v) => OperandView::Variable(
            if v.len() > 0 {
                v[0]
            } else {
                '?'
            },
        ),
        TokenView::Trigonometric(f) => OperandView::Variable(f.spec_name()[0]),
        _ => OperandView::Variable('?'),
    }
}

/// The node that stands for the operand `o` alone.
pub open spec fn leaf(o: OperandView) -> NodeView {
    NodeView { left: o, operator: None, right: None }
}

/// Trimming never makes the tokens longer.
pub proof fn lemma_trim_len(ts: Seq<TokenView>)
    ensures
        trim_spec(ts).len() <= ts.len(),
{
    lemma_trim_middle(ts);
}

/// The operand that a trimmed side `l` of a split stands for: a lone operand when it is one
/// token, its tree in parentheses otherwise.
pub open spec fn build_side(l: Seq<TokenView>) -> Result<OperandView, ErrorKind>
    decreases l.len(), 1int,
{
    if l.len() == 1 {
        Ok(operand_of_token(l[0]))
    } else {
        match build(l) {
            Ok(n) => Ok(OperandView::Nested(Box::new(n))),
            Err(e) => Err(e),
        }
    }
}

/// The tree that the minimum-precedence split builds from `ts`:
/// 1. remove the enclosing parentheses (`trim_spec`);
/// 2. at a split point, build each side, trimmed again, with `build_side`, the left side
///    first;
/// 3. with no operator outside parentheses and a leading keyword, apply the function to the
///    tree of the remaining tokens;
/// 4. one token is a lone operand; no token is `Empty`; anything else `InvalidExpression`.
pub open spec fn build(ts: Seq<TokenView>) -> Result<NodeView, ErrorKind>
    decreases ts.len(), 0int,
{
    let cur = trim_spec(ts);
    proof {
        lemma_trim_len(ts);
    }
    match split_point(cur) {
        Some(i) => {
            proof {
                assert(is_split_among(cur, i, cur.len() as int));
                lemma_trim_len(cur.subrange(0, i));
                lemma_trim_len(cur.subrange(i + 1, cur.len() as int));
            }
            match build_side(trim_spec(cur.subrange(0, i))) {
                Err(e) => Err(e),
                Ok(lo) => match build_side(trim_spec(cur.subrange(i + 1, cur.len() as int))) {
                    Err(e) => Err(e),
                    Ok(ro) => Ok(
                        NodeView {
                            left: lo,
                            operator: Some(cur[i]->Operator_0),
                            right: Some(ro),
                        },
                    ),
                },
            }
        },
        None => {
            if cur.len() > 1 && cur[0] is Trigonometric {
                match build(cur.subrange(1, cur.len() as int)) {
                    Ok(n) => Ok(
                        leaf(OperandView::Trigonometric(cur[0]->Trigonometric_0, Box::new(n))),
                    ),
                    Err(e) => Err(e),
                }
            } else if cur.len() == 1 {
                Ok(leaf(operand_of_token(cur[0])))
            } else if cur.len() == 0 {
                Err(ErrorKind::Empty)
            } else {
                Err(ErrorKind::InvalidExpression)
            }
        },
    }
}

/// What parsing `s` gives: its tokens must pass the balance check, then they are built into a
/// tree.
pub open spec fn parse_spec(s: Seq<char>) -> Result<NodeView, ErrorKind> {
    let ts = lex(s);
    match validate_spec(ts) {
        Err(e) => Err(e),
        Ok(_) => build(ts),
    }
}

/// The operand that the lone token `operand` stands for (see `operand_of_token`).
fn map_operand(operand: &Token) -> (r: ExpressionNodeType)
    ensures
        r.view() == operand_of_token(operand@),
{
    match operand {
        Token::Number(val) => ExpressionNodeType::ValueOperand(val.duplicate()),
        Token::Variable(var) => {
            let name = var.as_str();
            if name.unicode_len() > 0 {
                ExpressionNodeType::VariableOperand(name.get_char(0))
            } else {
                ExpressionNodeType::VariableOperand('?')
            }
        },
        Token::Trigonometric(f) => ExpressionNodeType::VariableOperand(f.name().get_char(0)),
        _ => ExpressionNodeType::VariableOperand('?'),
    }
}

/// One side of a split: a lone operand, or the parenthesized tree of its tokens.
fn parse_side(tokens: &[Token], lo: usize, hi: usize) -> (r: Result<ExpressionNodeType, ErrorKind>)
    requires
        lo <= hi <= tokens@.len(),
    ensures
        ({
            let expected = build_side(token_views(tokens@).subrange(lo as int, hi as int));
            match r {
                Ok(o) => expected == Ok::<OperandView, ErrorKind>(o.view()),
                Err(e) => expected == Err::<OperandView, ErrorKind>(e),
            }
        }),
    decreases hi - lo, 1int,
{
    if hi - lo == 1 {
        assert(token_views(tokens@).subrange(lo as int, hi as int)[0] == tokens@[lo as int]@);
        Ok(map_operand(&tokens[lo]))
    } else {
        match parse_token(tokens, lo, hi) {
            Ok(n) => Ok(ExpressionNodeType::NodeOperand(Box::new(n))),
            Err(e) => Err(e),
        }
    }
}

/// The tree that `build` gives for `tokens[lo..hi]`.
fn parse_token(tokens: &[Token], lo: usize, hi: usize) -> (r: Result<ExpressionNode, ErrorKind>)
    requires
        lo <= hi <= tokens@.len(),
    ensures
        match r {
            Ok(n) => build(token_views(tokens@).subrange(lo as int, hi as int)) == Ok::<
                NodeView,
                ErrorKind,
            >(n.view()),
            Err(e) => build(token_views(tokens@).subrange(lo as int, hi as int)) == Err::<
                NodeView,
                ErrorKind,
            >(e),
        },
    decreases hi - lo, 0int,
{
    let ghost vs = token_views(tokens@);
    let ghost ts = vs.subrange(lo as int, hi as int);
    let (a, b) = trim_range(tokens, lo, hi);
    let ghost cur = vs.subrange(a as int, b as int);
    assert(cur == trim_spec(ts));
    match find_operator_range(tokens, a, b) {
        Some((i, op)) => {
            let (la, lb) = trim_range(tokens, a, i);
            let (ra, rb) = trim_range(tokens, i + 1, b);
            assert(cur.subrange(0, i - a) =~= vs.subrange(a as int, i as int));
            assert(cur.subrange(i - a + 1, cur.len() as int) =~= vs.subrange(i + 1, b as int));
            let left_operand = match parse_side(tokens, la, lb) {
                Ok(o) => o,
                Err(e) => {
                    return Err(e);
                },
            };
            let right_operand = match parse_side(tokens, ra, rb) {
                Ok(o) => o,
                Err(e) => {
                    return Err(e);
                },
            };
            Ok(ExpressionNode::new(left_operand, Some(op), Some(right_operand)))
        },
        None => {
            if b - a > 1 {
                match &tokens[a] {
                    Token::Trigonometric(f) => {
                        assert(cur[0] == tokens@[a as int]@);
                        assert(cur.subrange(1, cur.len() as int) =~= vs.subrange(
                            a + 1,
                            b as int,
                        ));
                        let arg = match parse_token(tokens, a + 1, b) {
                            Ok(n) => n,
                            Err(e) => {
                                return Err(e);
                            },
                        };
                        return Ok(
                            ExpressionNode::new(
                                ExpressionNodeType::TrigonometricOperand((*f, Box::new(arg))),
                                None,
                                None,
                            ),
                        );
                    },
                    _ => {
                        assert(cur[0] == tokens@[a as int]@);
                    },
                }
            }
            if b - a == 1 {
                assert(cur[0] == tokens@[a as int]@);
                return Ok(ExpressionNode::new(map_operand(&tokens[a]), None, None));
            }
            if b == a {
                Err(ErrorKind::Empty)
            } else {
                Err(ErrorKind::InvalidExpression)
            }
        },
    }
}

/// Parses `expression` into a tree (see `parse_spec`): tokens, balance check, then the
/// minimum-precedence split.
pub fn parse(expression: &str) -> (r: Result<ExpressionNode, ParseError>)
    ensures
        match r {
            Ok(n) => parse_spec(expression@) == Ok::<NodeView, ErrorKind>(n.view()),
            Err(e) => parse_spec(expression@) == Err::<NodeView, ErrorKind>(e.kind),
        },
{
    let tokens = match tokenize(expression) {
        Ok(ts) => ts,
        Err(e) => {
            return Err(e);
        },
    };
    let tokens_ref = tokens.as_slice();
    proof {
        assert(token_views(tokens_ref@).subrange(0, tokens_ref@.len() as int) =~= token_views(
            tokens_ref@,
        ));
    }
    match validate_range(tokens_ref, 0, tokens_ref.len()) {
        Ok(()) => {},
        Err(kind) => {
            return Err(ParseError { kind });
        },
    }
    match parse_token(tokens_ref, 0, tokens_ref.len()) {
        Ok(root_node) => Ok(root_node),
        Err(kind) => Err(ParseError { kind }),
    }
}

} // verus!
