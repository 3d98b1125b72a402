use vstd::prelude::*;

use crate::node::{node_text, operand_text, NodeView, OperandView};
use crate::operator::Operator;
use crate::parser::{
    build, build_side, depth_before, depth_step, is_split_among, lemma_split_unique,
    operand_of_token, parse_spec, split_point, top_level_operator,
};
use crate::lex_lemmas::{
    canonical_number, lemma_lex_append, lemma_lex_keyword, lemma_lex_number,
    lemma_number_text_canonical,
    lemma_lex_symbol_prefix, lemma_lex_variable, starts_identifier,
};
use crate::operator::lemma_symbol_round_trip;
use crate::token::{
    ends_open, has_operand, is_close, is_open, is_symbol, is_word_char, lemma_token_len_bound,
    lemma_trim_middle, lemma_word_len_bound, lex, lex_from, token_at, token_len, trim_spec,
    validate_spec, Parenthesis, TokenView,
};

verus! {

// ---------------------------------------------------------------------------------------------
// Trees as tokens
// ---------------------------------------------------------------------------------------------

/// The token `(`.
pub open spec fn open_token() -> TokenView {
    TokenView::Parenthesis(Parenthesis::Open)
}

/// The token `)`.
pub open spec fn close_token() -> TokenView {
    TokenView::Parenthesis(Parenthesis::Close)
}

/// The tokens of the canonical text of an operand.
pub open spec fn operand_tokens(o: OperandView) -> Seq<TokenView>
    decreases o,
{
    match o {
        OperandView::Value(t) => seq![TokenView::Number(t)],
        OperandView::Variable(c) => seq![TokenView::Variable(seq![c])],
        OperandView::Trigonometric(f, m) => seq![TokenView::Trigonometric(f), open_token()]
            + node_tokens(*m) + seq![close_token()],
        OperandView::Nested(m) => seq![open_token()] + node_tokens(*m) + seq![close_token()],
    }
}

/// The tokens of the canonical text of a node.
pub open spec fn node_tokens(n: NodeView) -> Seq<TokenView>
    decreases n,
{
    operand_tokens(n.left) + (match n.operator {
        Some(op) => seq![TokenView::Operator(op)],
        None => Seq::<TokenView>::empty(),
    }) + (match n.right {
        Some(r) => operand_tokens(r),
        None => Seq::<TokenView>::empty(),
    })
}

// ---------------------------------------------------------------------------------------------
// Nesting depth
// ---------------------------------------------------------------------------------------------

/// Depth within a prefix does not see what follows.
pub proof fn lemma_depth_prefix(a: Seq<TokenView>, b: Seq<TokenView>, i: int)
    requires
        0 <= i <= a.len(),
    ensures
        depth_before(a + b, i) == depth_before(a, i),
    decreases i,
{
    if i > 0 {
        lemma_depth_prefix(a, b, i - 1);
        assert((a + b)[i - 1] == a[i - 1]);
    }
}

/// Depth within the second part of a concatenation starts from the depth of the first.
pub proof fn lemma_depth_suffix(a: Seq<TokenView>, b: Seq<TokenView>, j: int)
    requires
        0 <= j <= b.len(),
    ensures
        depth_before(a + b, a.len() + j) == depth_before(a, a.len() as int) + depth_before(b, j),
    decreases j,
{
    if j > 0 {
        lemma_depth_suffix(a, b, j - 1);
        assert((a + b)[a.len() + j - 1] == b[j - 1]);
    } else {
        lemma_depth_prefix(a, b, a.len() as int);
    }
}

/// Every prefix of `ts` opens at least as many parentheses as it closes, and all of `ts`
/// closes what it opens.
pub open spec fn balanced(ts: Seq<TokenView>) -> bool {
    &&& depth_before(ts, ts.len() as int) == 0
    &&& forall|i: int| 0 <= i <= ts.len() ==> depth_before(ts, i) >= 0
}

/// No operator of `ts` stands outside all parentheses.
pub open spec fn no_top_level_operator(ts: Seq<TokenView>) -> bool {
    forall|i: int| !top_level_operator(ts, i)
}

/// `( inner )` is balanced and shows no operator outside parentheses.
pub proof fn lemma_wrapped(pre: Seq<TokenView>, inner: Seq<TokenView>)
    requires
        balanced(inner),
        pre.len() >= 1,
        pre.last() == open_token(),
        forall|k: int| 0 <= k < pre.len() - 1 ==> depth_step(#[trigger] pre[k]) == 0 && !(
        pre[k] is Operator),
    ensures
        balanced(pre + inner + seq![close_token()]),
        no_top_level_operator(pre + inner + seq![close_token()]),
{
    let ts = pre + inner + seq![close_token()];
    let p = pre.len() as int;
    let n = inner.len() as int;
    assert forall|i: int| 0 <= i < p implies depth_before(pre, i) == 0 by {
        lemma_depth_zero_run(pre, i);
    }
    assert(depth_before(pre, p) == 1) by {
        lemma_depth_zero_run(pre, p - 1);
    }
    assert forall|i: int| 0 <= i <= ts.len() implies depth_before(ts, i) == (if i < p {
        0
    } else if i <= p + n {
        1 + depth_before(inner, i - p)
    } else {
        0
    }) by {
        if i <= p {
            lemma_depth_prefix(pre, inner + seq![close_token()], i);
            assert(pre + inner + seq![close_token()] =~= pre + (inner + seq![close_token()]));
            if i == p {
                assert(depth_before(inner, 0) == 0);
            }
        } else if i <= p + n {
            lemma_depth_suffix(pre, inner + seq![close_token()], i - p);
            assert(pre + inner + seq![close_token()] =~= pre + (inner + seq![close_token()]));
            lemma_depth_prefix(inner, seq![close_token()], i - p);
        } else {
            lemma_depth_suffix(pre + inner, seq![close_token()], 1);
            lemma_depth_suffix(pre, inner, n);
            assert(depth_before(seq![close_token()], 0) == 0);
            assert(depth_before(seq![close_token()], 1) == -1);
        }
    }
    assert forall|i: int| !top_level_operator(ts, i) by {
        if 0 <= i < ts.len() && ts[i] is Operator {
            if i < p - 1 {
                assert(ts[i] == pre[i]);
            } else if i == p - 1 {
                assert(ts[i] == pre[i]);
            } else if i < p + n {
                assert(depth_before(inner, i - p) >= 0);
            }
        }
    }
}

/// Depth along tokens that open nothing until a final `(`.
pub proof fn lemma_depth_zero_run(pre: Seq<TokenView>, i: int)
    requires
        0 <= i < pre.len(),
        forall|k: int| 0 <= k < pre.len() - 1 ==> depth_step(#[trigger] pre[k]) == 0 && !(
        pre[k] is Operator),
        pre.last() == open_token(),
    ensures
        depth_before(pre, i) == 0,
        depth_before(pre, i + 1) == if i == pre.len() - 1 {
            1int
        } else {
            0
        },
    decreases i,
{
    if i > 0 {
        lemma_depth_zero_run(pre, i - 1);
    }
}

/// The tokens of every operand are balanced and show no operator outside parentheses.
pub proof fn lemma_operand_tokens_shape(o: OperandView)
    ensures
        balanced(operand_tokens(o)),
        no_top_level_operator(operand_tokens(o)),
    decreases o,
{
    match o {
        OperandView::Value(t) => {
            let ts = operand_tokens(o);
            assert(depth_before(ts, 0) == 0);
            assert(depth_before(ts, 1) == 0);
            assert forall|i: int| !top_level_operator(ts, i) by {}
        },
        OperandView::Variable(c) => {
            let ts = operand_tokens(o);
            assert(depth_before(ts, 0) == 0);
            assert(depth_before(ts, 1) == 0);
            assert forall|i: int| !top_level_operator(ts, i) by {}
        },
        OperandView::Trigonometric(f, m) => {
            lemma_node_tokens_balanced(*m);
            let pre = seq![TokenView::Trigonometric(f), open_token()];
            lemma_wrapped(pre, node_tokens(*m));
        },
        OperandView::Nested(m) => {
            lemma_node_tokens_balanced(*m);
            lemma_wrapped(seq![open_token()], node_tokens(*m));
        },
    }
}

/// The tokens of every node are balanced.
pub proof fn lemma_node_tokens_balanced(n: NodeView)
    ensures
        balanced(node_tokens(n)),
    decreases n,
{
    lemma_operand_tokens_shape(n.left);
    let l = operand_tokens(n.left);
    let mid = match n.operator {
        Some(op) => seq![TokenView::Operator(op)],
        None => Seq::<TokenView>::empty(),
    };
    let r = match n.right {
        Some(r) => operand_tokens(r),
        None => Seq::<TokenView>::empty(),
    };
    if let Some(ro) = n.right {
        lemma_operand_tokens_shape(ro);
    }
    assert(balanced(mid)) by {
        if mid.len() == 1 {
            assert(depth_before(mid, 0) == 0);
            assert(depth_before(mid, 1) == 0);
        }
    }
    assert(balanced(r)) by {
        if n.right is None {
            assert(depth_before(r, 0) == 0);
        }
    }
    lemma_concat_balanced(l, mid);
    lemma_concat_balanced(l + mid, r);
}

/// Balanced tokens concatenate to balanced tokens.
pub proof fn lemma_concat_balanced(a: Seq<TokenView>, b: Seq<TokenView>)
    requires
        balanced(a),
        balanced(b),
    ensures
        balanced(a + b),
{
    assert forall|i: int| 0 <= i <= (a + b).len() implies depth_before(a + b, i) >= 0 by {
        if i <= a.len() {
            lemma_depth_prefix(a, b, i);
        } else {
            lemma_depth_suffix(a, b, i - a.len());
        }
    }
    lemma_depth_suffix(a, b, b.len() as int);
}

// ---------------------------------------------------------------------------------------------
// The balance check on printed tokens
// ---------------------------------------------------------------------------------------------

/// Whether some token of `ts` is a parenthesis.
pub open spec fn has_paren(ts: Seq<TokenView>) -> bool {
    exists|i: int| 0 <= i < ts.len() && ts[i] is Parenthesis
}

/// The last parenthesis of `a + b` is the last one of `b`, if `b` has any.
pub proof fn lemma_ends_open_append(a: Seq<TokenView>, b: Seq<TokenView>)
    ensures
        ends_open(a + b) == if has_paren(b) {
            ends_open(b)
        } else {
            ends_open(a)
        },
    decreases b.len(),
{
    if b.len() == 0 {
        assert(a + b =~= a);
    } else {
        let b2 = b.drop_last();
        assert((a + b).drop_last() =~= a + b2);
        assert((a + b).last() == b.last());
        lemma_ends_open_append(a, b2);
        if b.last() is Parenthesis {
            assert(b[b.len() - 1] is Parenthesis);
            let p = b.last()->Parenthesis_0;
            assert(p == Parenthesis::Open || p == Parenthesis::Close);
        } else {
            assert(has_paren(b) == has_paren(b2)) by {
                if has_paren(b) {
                    let i = choose|i: int| 0 <= i < b.len() && b[i] is Parenthesis;
                    assert(b2[i] == b[i]);
                }
                if has_paren(b2) {
                    let i = choose|i: int| 0 <= i < b2.len() && b2[i] is Parenthesis;
                    assert(b2[i] == b[i]);
                }
            }
        }
    }
}

/// Wrapping keeps a token that is not a parenthesis.
pub proof fn lemma_has_operand_wrapped(pre: Seq<TokenView>, x: Seq<TokenView>, post: Seq<TokenView>)
    requires
        has_operand(x),
    ensures
        has_operand(pre + x + post),
{
    let i = choose|i: int| 0 <= i < x.len() && !(x[i] is Parenthesis);
    assert((pre + x + post)[pre.len() + i] == x[i]);
}

/// The tokens of every operand end with the parentheses closed and hold a token that is not a
/// parenthesis.
pub proof fn lemma_operand_tokens_valid(o: OperandView)
    ensures
        !ends_open(operand_tokens(o)),
        has_operand(operand_tokens(o)),
    decreases o,
{
    let ts = operand_tokens(o);
    match o {
        OperandView::Trigonometric(f, m) => {
            lemma_node_tokens_valid(*m);
            let pre = seq![TokenView::Trigonometric(f), open_token()];
            lemma_has_operand_wrapped(pre, node_tokens(*m), seq![close_token()]);
            assert(ts.len() > 0 && ts.last() == close_token());
            assert(!is_open(ts.last()) && is_close(ts.last()));
            assert(!ends_open(ts));
        },
        OperandView::Nested(m) => {
            lemma_node_tokens_valid(*m);
            lemma_has_operand_wrapped(seq![open_token()], node_tokens(*m), seq![close_token()]);
            assert(ts.len() > 0 && ts.last() == close_token());
            assert(!is_open(ts.last()) && is_close(ts.last()));
            assert(!ends_open(ts));
        },
        _ => {
            assert(ts.drop_last() =~= Seq::<TokenView>::empty());
            assert(!(ts[0] is Parenthesis));
            assert(!ends_open(ts.drop_last()));
            assert(!ends_open(ts));
        },
    }
}

/// The tokens of every node pass the balance check.
pub proof fn lemma_node_tokens_valid(n: NodeView)
    ensures
        !ends_open(node_tokens(n)),
        has_operand(node_tokens(n)),
        validate_spec(node_tokens(n)) is Ok,
    decreases n,
{
    lemma_operand_tokens_valid(n.left);
    let l = operand_tokens(n.left);
    let mid = match n.operator {
        Some(op) => seq![TokenView::Operator(op)],
        None => Seq::<TokenView>::empty(),
    };
    let r = match n.right {
        Some(r) => operand_tokens(r),
        None => Seq::<TokenView>::empty(),
    };
    if let Some(ro) = n.right {
        lemma_operand_tokens_valid(ro);
    }
    assert(!has_paren(mid));
    lemma_ends_open_append(l, mid);
    lemma_ends_open_append(l + mid, r);
    lemma_has_operand_wrapped(Seq::<TokenView>::empty(), l, mid + r);
    assert(Seq::<TokenView>::empty() + l + (mid + r) =~= l + mid + r);
}

// ---------------------------------------------------------------------------------------------
// Shapes of trees
// ---------------------------------------------------------------------------------------------

/// A constant or the variable.
pub open spec fn is_simple(o: OperandView) -> bool {
    o is Value || o is Variable
}

/// A node that applies an operator, or a function application.
pub open spec fn is_compound(n: NodeView) -> bool {
    ||| (n.operator is Some && n.right is Some)
    ||| (n.operator is None && n.right is None && n.left is Trigonometric)
}

/// An operand as a side of a split comes out of the parser: a constant, the variable, or
/// a compound tree in parentheses.
pub open spec fn side_shape(o: OperandView) -> bool
    decreases o,
{
    match o {
        OperandView::Nested(m) => is_compound(*m) && node_shape(*m),
        OperandView::Trigonometric(_, _) => false,
        _ => true,
    }
}

/// The shapes of tree that the parser builds: an operator between two sides, a function
/// applied to a tree, or a lone constant or variable.
pub open spec fn node_shape(n: NodeView) -> bool
    decreases n,
{
    match n.operator {
        Some(_) => match n.right {
            Some(r) => side_shape(n.left) && side_shape(r),
            None => false,
        },
        None => n.right is None && match n.left {
            OperandView::Trigonometric(_, m) => node_shape(*m),
            OperandView::Nested(_) => false,
            _ => true,
        },
    }
}

/// A node whose operands are all constants or the variable: its text has no parenthesis.
pub open spec fn paren_free(n: NodeView) -> bool {
    is_simple(n.left) && (n.right matches Some(r) ==> is_simple(r))
}

/// No node of the tree puts parenthesized operands on both sides of its operator with
/// parentheses inside the right one. For such a node the text `(a)+((b)*c)` starts with `(`
/// and ends with `)`, and its interior `a)+((b)*c` passes the single-flag balance check, so
/// reading the text strips that pair and splits elsewhere.
pub open spec fn reads_back(n: NodeView) -> bool
    decreases n,
{
    &&& operand_reads_back(n.left)
    &&& match n.right {
        Some(r) => operand_reads_back(r) && !misread_pair(n.left, r),
        None => true,
    }
}

/// Both operands in parentheses, with parentheses inside the right one.
pub open spec fn misread_pair(l: OperandView, r: OperandView) -> bool {
    l is Nested && match r {
        OperandView::Nested(m) => !paren_free(*m),
        _ => false,
    }
}

/// Whether the trees inside an operand read back (see `reads_back`).
pub open spec fn operand_reads_back(o: OperandView) -> bool
    decreases o,
{
    match o {
        OperandView::Nested(m) => reads_back(*m),
        OperandView::Trigonometric(_, m) => reads_back(*m),
        _ => true,
    }
}

// ---------------------------------------------------------------------------------------------
// Building the printed tokens back
// ---------------------------------------------------------------------------------------------

/// First and last tokens of a printed operand.
pub proof fn lemma_operand_tokens_nonempty(o: OperandView)
    ensures
        operand_tokens(o).len() >= 1,
        is_open(operand_tokens(o)[0]) <==> o is Nested,
        is_close(operand_tokens(o).last()) <==> (o is Nested || o is Trigonometric),
        operand_tokens(o)[0] is Trigonometric <==> o is Trigonometric,
        o is Nested || o is Trigonometric ==> operand_tokens(o).len() >= 2,
{
}

/// A paren-free node prints with no parenthesis.
pub proof fn lemma_paren_free_tokens(n: NodeView)
    requires
        paren_free(n),
    ensures
        !has_paren(node_tokens(n)),
{
    let ts = node_tokens(n);
    assert forall|i: int| 0 <= i < ts.len() implies !(ts[i] is Parenthesis) by {
        let l = operand_tokens(n.left);
        if i >= l.len() + 1 {
            let r = n.right->0;
            assert(ts[i] == operand_tokens(r)[i - l.len() - 1]);
        }
    }
}

/// `(a) op (b)` read back: whether its outer pair is stripped.
pub proof fn lemma_pair_interior(a: NodeView, op: Operator, b: NodeView)
    requires
        paren_free(b),
    ensures
        ends_open(
            node_tokens(a) + seq![close_token(), TokenView::Operator(op), open_token()]
                + node_tokens(b),
        ),
{
    let three = seq![close_token(), TokenView::Operator(op), open_token()];
    lemma_paren_free_tokens(b);
    lemma_ends_open_append(node_tokens(a) + three, node_tokens(b));
    lemma_ends_open_append(node_tokens(a), three);
    assert(three[2] is Parenthesis);
    assert(three.last() == open_token());
}

/// Printed tokens of a compound node are longer than one token.
pub proof fn lemma_compound_len(m: NodeView)
    requires
        is_compound(m),
    ensures
        node_tokens(m).len() >= 2,
{
    lemma_operand_tokens_nonempty(m.left);
    if let Some(r) = m.right {
        lemma_operand_tokens_nonempty(r);
    }
}

/// No enclosing pair is stripped from the printed tokens of a tree that reads back.
pub proof fn lemma_trim_fixed(n: NodeView)
    requires
        node_shape(n),
        reads_back(n),
    ensures
        trim_spec(node_tokens(n)) == node_tokens(n),
{
    let ts = node_tokens(n);
    let l = operand_tokens(n.left);
    lemma_operand_tokens_nonempty(n.left);
    assert(ts[0] == l[0]);
    if ts.len() >= 2 && is_open(ts[0]) && is_close(ts.last()) {
        // both operands are in parentheses
        assert(n.left is Nested);
        assert(n.operator is Some);
        let r = n.right->0;
        let op = n.operator->0;
        lemma_operand_tokens_nonempty(r);
        assert(ts == l + seq![TokenView::Operator(op)] + operand_tokens(r));
        assert(ts.last() == operand_tokens(r).last());
        assert(side_shape(r));
        assert(!(r is Trigonometric));
        assert(r is Nested);
        let a = *n.left->Nested_0;
        let b = *r->Nested_0;
        assert(paren_free(b));
        assert(l == seq![open_token()] + node_tokens(a) + seq![close_token()]);
        assert(operand_tokens(r) == seq![open_token()] + node_tokens(b) + seq![close_token()]);
        let interior = ts.subrange(1, ts.len() - 1);
        let three = seq![close_token(), TokenView::Operator(op), open_token()];
        assert(interior =~= node_tokens(a) + three + node_tokens(b));
        lemma_pair_interior(a, op, b);
    }
}

/// The enclosing pair around the printed tokens of a tree that reads back is stripped, and
/// nothing more.
pub proof fn lemma_trim_wrapped(m: NodeView)
    requires
        node_shape(m),
        reads_back(m),
    ensures
        trim_spec(seq![open_token()] + node_tokens(m) + seq![close_token()]) == node_tokens(m),
{
    let w = seq![open_token()] + node_tokens(m) + seq![close_token()];
    assert(w.subrange(1, w.len() - 1) =~= node_tokens(m));
    lemma_node_tokens_valid(m);
    lemma_trim_fixed(m);
}

/// In the printed tokens of an operator node, the split point is that operator.
pub proof fn lemma_split_printed(n: NodeView)
    requires
        n.operator is Some,
        n.right is Some,
    ensures
        split_point(node_tokens(n)) == Some(operand_tokens(n.left).len() as int),
        node_tokens(n)[operand_tokens(n.left).len() as int] == TokenView::Operator(
            n.operator->0,
        ),
{
    let ts = node_tokens(n);
    let l = operand_tokens(n.left);
    let mid = seq![TokenView::Operator(n.operator->0)];
    let r = operand_tokens(n.right->0);
    let k = l.len() as int;
    assert(ts =~= l + (mid + r));
    lemma_operand_tokens_shape(n.left);
    lemma_operand_tokens_shape(n.right->0);
    lemma_depth_prefix(l, mid + r, k);
    assert forall|j: int| j != k implies !top_level_operator(ts, j) by {
        if 0 <= j < k {
            lemma_depth_prefix(l, mid + r, j);
            assert(ts[j] == l[j]);
            assert(!top_level_operator(l, j));
        } else if k < j < ts.len() {
            assert(ts =~= (l + mid) + r);
            lemma_depth_suffix(l + mid, r, j - k - 1);
            lemma_depth_suffix(l, mid, 1);
            assert(depth_before(mid, 0) == 0);
            assert(depth_before(mid, 1) == 0);
            assert(ts[j] == r[j - k - 1]);
            assert(!top_level_operator(r, j - k - 1));
        }
    }
    assert(is_split_among(ts, k, ts.len() as int));
    let c = choose|i: int| is_split_among(ts, i, ts.len() as int);
    lemma_split_unique(ts, c, k, ts.len() as int);
}

/// Building a side of a split from the printed tokens of an operand gives that operand.
pub proof fn lemma_build_side_printed(o: OperandView)
    requires
        side_shape(o),
        operand_reads_back(o),
    ensures
        build_side(trim_spec(operand_tokens(o))) == Ok::<OperandView, crate::token::ErrorKind>(o),
    decreases o, 1int,
{
    match o {
        OperandView::Nested(m) => {
            lemma_trim_wrapped(*m);
            lemma_compound_len(*m);
            lemma_build_printed(*m);
        },
        _ => {
            assert(trim_spec(operand_tokens(o)) == operand_tokens(o));
        },
    }
}

/// Building the printed tokens of a tree that reads back gives the tree.
#[verifier::rlimit(40)]
pub proof fn lemma_build_printed(n: NodeView)
    requires
        node_shape(n),
        reads_back(n),
    ensures
        build(node_tokens(n)) == Ok::<NodeView, crate::token::ErrorKind>(n),
    decreases n, 0int,
{
    let ts = node_tokens(n);
    lemma_trim_fixed(n);
    if n.operator is Some {
        let l = operand_tokens(n.left);
        let r = operand_tokens(n.right->0);
        let k = l.len() as int;
        lemma_split_printed(n);
        assert(ts.subrange(0, k) =~= l);
        assert(ts.subrange(k + 1, ts.len() as int) =~= r);
        lemma_build_side_printed(n.left);
        lemma_build_side_printed(n.right->0);
    } else {
        assert(ts =~= operand_tokens(n.left));
        lemma_operand_tokens_shape(n.left);
        assert(split_point(ts) is None) by {
            if exists|i: int| is_split_among(ts, i, ts.len() as int) {
                let c = choose|i: int| is_split_among(ts, i, ts.len() as int);
                assert(top_level_operator(ts, c));
            }
        }
        match n.left {
            OperandView::Trigonometric(f, m) => {
                let rest = ts.subrange(1, ts.len() as int);
                assert(rest =~= seq![open_token()] + node_tokens(*m) + seq![close_token()]);
                lemma_trim_wrapped(*m);
                lemma_trim_fixed(*m);
                assert(build(rest) == build(node_tokens(*m)));
                lemma_build_printed(*m);
            },
            _ => {},
        }
    }
}

// ---------------------------------------------------------------------------------------------
// Reading the printed text
// ---------------------------------------------------------------------------------------------

/// Constants in canonical text and variables named by a letter or `_`.
pub open spec fn operand_text_reads(o: OperandView) -> bool
    decreases o,
{
    match o {
        OperandView::Value(t) => canonical_number(t),
        OperandView::Variable(c) => starts_identifier(c),
        OperandView::Trigonometric(_, m) => node_text_reads(*m),
        OperandView::Nested(m) => node_text_reads(*m),
    }
}

/// Every leaf prints as the token it was read from, and a right operand has an operator.
pub open spec fn node_text_reads(n: NodeView) -> bool
    decreases n,
{
    &&& operand_text_reads(n.left)
    &&& n.operator is None ==> n.right is None
    &&& n.right matches Some(r) ==> operand_text_reads(r)
}

/// Text in parentheses reads as its tokens in parentheses.
pub proof fn lemma_lex_wrapped(x: Seq<char>)
    ensures
        lex(seq!['('] + x + seq![')']) == seq![open_token()] + lex(x) + seq![close_token()],
{
    assert(is_symbol('(') && is_symbol(')'));
    assert(seq!['('] + x + seq![')'] =~= seq!['('] + (x + seq![')']));
    lemma_lex_symbol_prefix('(', x + seq![')']);
    lemma_lex_append(x, seq![')']);
    lemma_lex_symbol_prefix(')', Seq::<char>::empty());
    assert(seq![')'] + Seq::<char>::empty() =~= seq![')']);
    assert(lex(Seq::<char>::empty()) =~= Seq::<TokenView>::empty());
    assert(seq![close_token()] + Seq::<TokenView>::empty() =~= seq![close_token()]);
    assert(seq![open_token()] + (lex(x) + seq![close_token()]) =~= seq![open_token()] + lex(x)
        + seq![close_token()]);
}

/// The printed text of an operand reads as its tokens.
pub proof fn lemma_lex_operand_text(o: OperandView)
    requires
        operand_text_reads(o),
    ensures
        lex(operand_text(o)) == operand_tokens(o),
    decreases o,
{
    match o {
        OperandView::Value(t) => {
            lemma_lex_number(t);
        },
        OperandView::Variable(c) => {
            lemma_lex_variable(c);
        },
        OperandView::Trigonometric(f, m) => {
            lemma_lex_node_text(*m);
            let x = node_text(*m);
            let name = f.spec_name();
            assert(operand_text(o) =~= name + (seq!['('] + x + seq![')']));
            lemma_lex_append(name, seq!['('] + x + seq![')']);
            lemma_lex_wrapped(x);
            lemma_lex_keyword(f);
            assert(operand_tokens(o) =~= seq![TokenView::Trigonometric(f)] + (seq![open_token()]
                + node_tokens(*m) + seq![close_token()]));
        },
        OperandView::Nested(m) => {
            lemma_lex_node_text(*m);
            lemma_lex_wrapped(node_text(*m));
        },
    }
}

/// The printed text of a node reads as its tokens.
pub proof fn lemma_lex_node_text(n: NodeView)
    requires
        node_text_reads(n),
    ensures
        lex(node_text(n)) == node_tokens(n),
    decreases n,
{
    lemma_lex_operand_text(n.left);
    let lt = operand_text(n.left);
    match n.operator {
        Some(op) => {
            let c = op.spec_symbol();
            lemma_symbol_round_trip(op);
            assert(is_symbol(c));
            let rt = match n.right {
                Some(r) => operand_text(r),
                None => Seq::<char>::empty(),
            };
            let rtok = match n.right {
                Some(r) => operand_tokens(r),
                None => Seq::<TokenView>::empty(),
            };
            if let Some(r) = n.right {
                lemma_lex_operand_text(r);
            } else {
                assert(lex(rt) =~= Seq::<TokenView>::empty());
            }
            assert(node_text(n) =~= lt + (seq![c] + rt));
            lemma_lex_append(lt, seq![c] + rt);
            lemma_lex_symbol_prefix(c, rt);
            assert(node_tokens(n) =~= operand_tokens(n.left) + (seq![TokenView::Operator(op)]
                + rtok));
        },
        None => {
            assert(node_text(n) =~= lt);
            assert(node_tokens(n) =~= operand_tokens(n.left));
        },
    }
}

// ---------------------------------------------------------------------------------------------
// What parsed trees look like
// ---------------------------------------------------------------------------------------------

/// Whether a token has a form that the lexer gives: a number in canonical text, or an
/// identifier that starts with a letter or `_`.
pub open spec fn lexical_token(t: TokenView) -> bool {
    match t {
        TokenView::Number(x) => canonical_number(x),
        TokenView::Variable(v) => v.len() > 0 && starts_identifier(v[0]),
        _ => true,
    }
}

/// Whether every token of `ts` has a form that the lexer gives.
pub open spec fn all_lexical(ts: Seq<TokenView>) -> bool {
    forall|i: int| 0 <= i < ts.len() ==> lexical_token(#[trigger] ts[i])
}

/// Every token the lexer reads has a form that the lexer gives.
pub proof fn lemma_lex_from_lexical(s: Seq<char>, i: int)
    ensures
        all_lexical(lex_from(s, i)),
    decreases s.len() - i,
{
    if 0 <= i < s.len() {
        lemma_token_len_bound(s, i);
        lemma_lex_from_lexical(s, i + token_len(s, i));
        let rest = lex_from(s, i + token_len(s, i));
        match token_at(s, i) {
            Some(t) => {
                if crate::number::is_digit(s[i]) {
                    lemma_number_text_canonical(s, i);
                } else if is_word_char(s[i]) {
                    lemma_word_len_bound(s, i);
                }
                assert(lexical_token(t));
                let all = seq![t] + rest;
                assert forall|k: int| 0 <= k < all.len() implies lexical_token(
                    #[trigger] all[k],
                ) by {
                    if k > 0 {
                        assert(all[k] == rest[k - 1]);
                    }
                }
            },
            None => {},
        }
    }
}

/// Part of lexical tokens is lexical.
pub proof fn lemma_lexical_subrange(ts: Seq<TokenView>, a: int, b: int)
    requires
        all_lexical(ts),
        0 <= a <= b <= ts.len(),
    ensures
        all_lexical(ts.subrange(a, b)),
{
    assert forall|k: int| 0 <= k < b - a implies lexical_token(#[trigger] ts.subrange(a, b)[k]) by {
        assert(ts.subrange(a, b)[k] == ts[a + k]);
    }
}

/// Trimming lexical tokens leaves lexical tokens.
pub proof fn lemma_lexical_trim(ts: Seq<TokenView>)
    requires
        all_lexical(ts),
    ensures
        all_lexical(trim_spec(ts)),
{
    lemma_trim_middle(ts);
    let k = choose|k: int|
        0 <= k && 2 * k <= ts.len() && trim_spec(ts) == #[trigger] ts.subrange(k, ts.len() - k);
    lemma_lexical_subrange(ts, k, ts.len() - k);
}

/// Trimming twice trims no more than trimming once.
pub proof fn lemma_trim_idempotent(ts: Seq<TokenView>)
    ensures
        trim_spec(trim_spec(ts)) == trim_spec(ts),
    decreases ts.len(),
{
    if ts.len() >= 2 && is_open(ts[0]) && is_close(ts.last()) && validate_spec(
        ts.subrange(1, ts.len() - 1),
    ) is Ok {
        lemma_trim_idempotent(ts.subrange(1, ts.len() - 1));
    }
}

/// Whether some variable of the operand is written `?`.
pub open spec fn operand_has_placeholder(o: OperandView) -> bool
    decreases o,
{
    match o {
        OperandView::Variable(c) => c == '?',
        OperandView::Value(_) => false,
        OperandView::Trigonometric(_, m) => has_placeholder(*m),
        OperandView::Nested(m) => has_placeholder(*m),
    }
}

/// Whether some variable of the tree is written `?`: the parser reads a lone operator or
/// parenthesis on one side of a split as that variable.
pub open spec fn has_placeholder(n: NodeView) -> bool
    decreases n,
{
    operand_has_placeholder(n.left) || match n.right {
        Some(r) => operand_has_placeholder(r),
        None => false,
    }
}

/// The operand of one lexical token is a constant or a variable, printed as that token
/// unless it is `?`.
pub proof fn lemma_lone_token_operand(t: TokenView)
    requires
        lexical_token(t),
    ensures
        ({
            let o = operand_of_token(t);
            &&& is_simple(o)
            &&& !operand_has_placeholder(o) ==> operand_text_reads(o)
        }),
{
    if let TokenView::Trigonometric(f) = t {
        assert(f.spec_name()[0] == 's' || f.spec_name()[0] == 'c' || f.spec_name()[0] == 't');
    }
}

/// A side of a split, as the parser builds it, has a side's shape.
pub proof fn lemma_side_parsed(l: Seq<TokenView>)
    requires
        all_lexical(l),
        trim_spec(l) == l,
        build_side(l) is Ok,
    ensures
        side_shape(build_side(l)->Ok_0),
        !operand_has_placeholder(build_side(l)->Ok_0) ==> operand_text_reads(
            build_side(l)->Ok_0,
        ),
    decreases l.len(), 1int,
{
    if l.len() == 1 {
        lemma_lone_token_operand(l[0]);
    } else {
        lemma_build_parsed(l);
    }
}

/// Every tree that the parser builds from tokens the lexer can give has the parser's shape,
/// and prints each leaf as the token it came from unless that leaf is a `?` variable.
pub proof fn lemma_build_parsed(ts: Seq<TokenView>)
    requires
        all_lexical(ts),
        build(ts) is Ok,
    ensures
        node_shape(build(ts)->Ok_0),
        !has_placeholder(build(ts)->Ok_0) ==> node_text_reads(build(ts)->Ok_0),
        trim_spec(ts).len() != 1 ==> is_compound(build(ts)->Ok_0),
    decreases ts.len(), 0int,
{
    let cur = trim_spec(ts);
    lemma_lexical_trim(ts);
    crate::parser::lemma_trim_len(ts);
    match split_point(cur) {
        Some(i) => {
            assert(is_split_among(cur, i, cur.len() as int));
            let lraw = cur.subrange(0, i);
            let rraw = cur.subrange(i + 1, cur.len() as int);
            lemma_lexical_subrange(cur, 0, i);
            lemma_lexical_subrange(cur, i + 1, cur.len() as int);
            lemma_lexical_trim(lraw);
            lemma_lexical_trim(rraw);
            lemma_trim_idempotent(lraw);
            lemma_trim_idempotent(rraw);
            crate::parser::lemma_trim_len(lraw);
            crate::parser::lemma_trim_len(rraw);
            lemma_side_parsed(trim_spec(lraw));
            lemma_side_parsed(trim_spec(rraw));
        },
        None => {
            if cur.len() > 1 && cur[0] is Trigonometric {
                let rest = cur.subrange(1, cur.len() as int);
                lemma_lexical_subrange(cur, 1, cur.len() as int);
                lemma_build_parsed(rest);
            } else {
                lemma_lone_token_operand(cur[0]);
            }
        },
    }
}

// ---------------------------------------------------------------------------------------------
// The round trip
// ---------------------------------------------------------------------------------------------

/// Printing a parsed tree and parsing the printed text gives back the very same tree, so the
/// two evaluate alike for every substitution value.
///
/// This holds for every parsed tree but two kinds, which the requirements leave out: a tree
/// with a variable written `?` (the parser reads a lone operator or parenthesis as that
/// variable, and the lexer skips `?`), and a tree that fails `reads_back` (the single-flag
/// balance check then lets the outer parentheses of the printed text be stripped, as for
/// `x*2+sin(x)`, printed `(x*2)+(sin(x))`).
pub proof fn lemma_print_parse_round_trip(s: Seq<char>)
    requires
        parse_spec(s) is Ok,
        !has_placeholder(parse_spec(s)->Ok_0),
        reads_back(parse_spec(s)->Ok_0),
    ensures
        parse_spec(node_text(parse_spec(s)->Ok_0)) == parse_spec(s),
{
    let t = parse_spec(s)->Ok_0;
    lemma_lex_from_lexical(s, 0);
    lemma_build_parsed(lex(s));
    lemma_lex_node_text(t);
    lemma_node_tokens_valid(t);
    lemma_build_printed(t);
}

/// Wrapping text whose tokens pass the balance check in one more pair of parentheses parses
/// to the same tree, or fails in the same way: the pair is stripped before anything else.
pub proof fn lemma_parenthesized_parse(s: Seq<char>)
    requires
        validate_spec(lex(s)) is Ok,
    ensures
        parse_spec(seq!['('] + s + seq![')']) == parse_spec(s),
{
    let ts = lex(s);
    let w = seq![open_token()] + ts + seq![close_token()];
    lemma_lex_wrapped(s);
    lemma_ends_open_append(seq![open_token()] + ts, seq![close_token()]);
    assert(seq![close_token()][0] is Parenthesis);
    assert(seq![close_token()].drop_last() =~= Seq::<TokenView>::empty());
    assert(!ends_open(seq![close_token()]));
    lemma_has_operand_wrapped(seq![open_token()], ts, seq![close_token()]);
    assert(w.subrange(1, w.len() - 1) =~= ts);
    assert(trim_spec(w) == trim_spec(ts));
    assert(build(w) == build(ts));
}

} // verus!
