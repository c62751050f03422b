use vstd::prelude::*;
use crate::lexer::Token;
use crate::tree::{Tree, children_of};

verus! {

/// A node of an expression tree.
#[derive(Clone, Copy, Debug, PartialEq, Eq, Structural)]
pub enum Grammar {
    Root,
    Value(char),
    Operator(char),
    Negation,
}

/// The value of the subtree at `index`, looking at most `fuel` levels deep:
/// a `t` leaf is true and any other leaf false, the root passes on its only
/// child, a negation inverts its only child, `.` is AND and `+` is OR of two
/// children. `None` where the tree has any other shape there.
pub open spec fn eval(vertices: Seq<Grammar>, edges: Seq<(usize, usize)>, index: int, fuel: nat) -> Option<
    bool,
>
    decreases fuel,
{
    if fuel == 0 || !(0 <= index < vertices.len()) {
        None
    } else {
        let ch = children_of(edges, index);
        match vertices[index] {
            Grammar::Value(c) => Some(c == 't'),
            Grammar::Root => if ch.len() == 1 {
                eval(vertices, edges, ch[0] as int, (fuel - 1) as nat)
            } else {
                None
            },
            Grammar::Negation => if ch.len() == 1 {
                match eval(vertices, edges, ch[0] as int, (fuel - 1) as nat) {
                    Some(b) => Some(!b),
                    None => None,
                }
            } else {
                None
            },
            Grammar::Operator(o) => if ch.len() == 2 && (o == '.' || o == '+') {
                match (
                    eval(vertices, edges, ch[0] as int, (fuel - 1) as nat),
                    eval(vertices, edges, ch[1] as int, (fuel - 1) as nat),
                ) {
                    (Some(a), Some(b)) => Some(if o == '.' { a && b } else { a || b }),
                    _ => None,
                }
            } else {
                None
            },
        }
    }
}

/// The value of the subtree at `index`, if it has the shape of an expression.
pub open spec fn value_of_tree(t: (Seq<Grammar>, Seq<(usize, usize)>), index: int) -> Option<bool> {
    eval(t.0, t.1, index, t.0.len())
}

/// The tree nodes that a token sequence brings, in token order; brackets bring none.
pub open spec fn nodes_of(s: Seq<Token>) -> Seq<Grammar>
    decreases s.len(),
{
    if s.len() == 0 {
        Seq::empty()
    } else {
        let rest = nodes_of(s.drop_last());
        match s.last() {
            Token::Value(c) => rest.push(Grammar::Value(c)),
            Token::Operator(c) => rest.push(Grammar::Operator(c)),
            Token::Negation => rest.push(Grammar::Negation),
            _ => rest,
        }
    }
}

/// Nodes of a concatenation are the concatenation of the nodes.
pub proof fn lemma_nodes_of_append(a: Seq<Token>, b: Seq<Token>)
    ensures
        nodes_of(a + b) == nodes_of(a) + nodes_of(b),
        nodes_of(b).len() <= b.len(),
    decreases b.len(),
{
    if b.len() == 0 {
        assert(a + b == a);
    } else {
        lemma_nodes_of_append(a, b.drop_last());
        assert((a + b).drop_last() == a + b.drop_last());
    }
}

/// Building and evaluating expression trees.
pub trait AST {
    /// Whether the tree is fit to grow.
    spec fn ready(&self) -> bool;

    /// The vertex values.
    spec fn nodes(&self) -> Seq<Grammar>;

    /// The parent-to-child edges.
    spec fn edges(&self) -> Seq<(usize, usize)>;

    /// The value of the subtree at `index`, if it has the shape of an expression.
    spec fn evaluated(&self, index: int) -> Option<bool>;

    /// Appends the tree of a token sequence under the root and returns the
    /// index of its top node: the operator that joins its two operands, or
    /// 0 where it has a single operand.
    fn create_ast(&mut self, tokens: &[Token]) -> (r: usize)
        requires
            old(self).ready(),
            layered((old(self).nodes(), old(self).edges())),
            old(self).nodes().len() + tokens@.len() < usize::MAX,
        ensures
            final(self).ready(),
            layered((final(self).nodes(), final(self).edges())),
            is_expression(tokens@) ==> final(self).nodes() == old(self).nodes() + nodes_of(tokens@),
            is_expression(tokens@) ==> final(self).edges() == old(self).edges() + expression_edges(
                tokens@,
                0,
                old(self).nodes().len() as int,
            ),
            r == if is_expression(tokens@) && top_operator(tokens@) is Some {
                expression_top(tokens@, old(self).nodes().len() as int) as usize
            } else {
                0
            },
            is_expression(tokens@) && old(self).nodes() == seq![Grammar::Root] && old(self).edges()
                == Seq::<(usize, usize)>::empty() ==> {
                &&& children_of(final(self).edges(), 0) == seq![expression_top(tokens@, 1) as usize]
                &&& final(self).evaluated(0) == Some(expression_value(tokens@))
                &&& values_are_leaves((final(self).nodes(), final(self).edges()))
            },
    ;

    /// The value of the subtree at `index`.
    fn evaluate(&self, index: usize) -> (r: bool)
        requires
            self.evaluated(index as int) is Some,
        ensures
            self.evaluated(index as int) == Some(r),
    ;
}

/// Computes `eval` of the subtree at `index` with the given depth budget.
pub fn try_evaluate(tree: &Tree<Grammar>, index: usize, fuel: usize) -> (r: Option<bool>)
    ensures
        r == eval(tree@.0, tree@.1, index as int, fuel as nat),
    decreases fuel,
{
    let vertices = tree.get_vertices();
    if fuel == 0 || index >= vertices.len() {
        return None;
    }
    let ch = tree.children(index);
    match vertices[index] {
        Grammar::Value(c) => Some(c == 't'),
        Grammar::Root => {
            if ch.len() == 1 {
                try_evaluate(tree, ch[0], fuel - 1)
            } else {
                None
            }
        },
        Grammar::Negation => {
            if ch.len() == 1 {
                match try_evaluate(tree, ch[0], fuel - 1) {
                    Some(b) => Some(!b),
                    None => None,
                }
            } else {
                None
            }
        },
        Grammar::Operator(o) => {
            if ch.len() == 2 && (o == '.' || o == '+') {
                let a = try_evaluate(tree, ch[0], fuel - 1);
                let b = try_evaluate(tree, ch[1], fuel - 1);
                match (a, b) {
                    (Some(x), Some(y)) => Some(if o == '.' { x && y } else { x || y }),
                    _ => None,
                }
            } else {
                None
            }
        },
    }
}

/// From position `i` on, with `depth` brackets open, the first operator that
/// stands outside every bracket.
pub open spec fn top_operator_from(s: Seq<Token>, i: int, depth: int) -> Option<int>
    decreases s.len() - i,
{
    if i < 0 || i >= s.len() {
        None
    } else {
        match s[i] {
            Token::OpeningBracket => top_operator_from(s, i + 1, depth + 1),
            Token::ClosingBracket => top_operator_from(s, i + 1, depth - 1),
            Token::Operator(_) => if depth == 0 {
                Some(i)
            } else {
                top_operator_from(s, i + 1, depth)
            },
            _ => top_operator_from(s, i + 1, depth),
        }
    }
}

/// The position of the operator that joins the two operands of an expression.
pub open spec fn top_operator(s: Seq<Token>) -> Option<int> {
    top_operator_from(s, 0, 0)
}

/// Whether `s` is an operand: `- U`, a value, or `[ E ]`.
pub open spec fn is_operand(s: Seq<Token>) -> bool
    decreases s.len(), 0int,
{
    if s.len() == 0 {
        false
    } else {
        match s[0] {
            Token::Negation => is_operand(s.drop_first()),
            Token::Value(_) => s.len() == 1,
            Token::OpeningBracket => s.len() >= 2 && s.last() is ClosingBracket && is_expression(
                s.subrange(1, s.len() - 1),
            ),
            _ => false,
        }
    }
}

/// Whether `s` is an expression: an operand, or two operands joined by `+` or `.`.
pub open spec fn is_expression(s: Seq<Token>) -> bool
    decreases s.len(), 1int,
{
    match top_operator(s) {
        Some(i) => 0 <= i < s.len() && (s[i] == Token::Operator('+') || s[i] == Token::Operator('.'))
            && is_operand(s.take(i)) && is_operand(s.skip(i + 1)),
        None => is_operand(s),
    }
}

/// The edges of the tree of operand `s`, whose vertices are numbered from
/// `first` in token order and whose top vertex hangs from `parent`: a
/// negation is the parent of the operand after it, and a bracket group
/// stands for the expression inside it.
pub open spec fn operand_edges(s: Seq<Token>, parent: int, first: int) -> Seq<(usize, usize)>
    decreases s.len(), 0int,
{
    if s.len() == 0 {
        Seq::empty()
    } else {
        match s[0] {
            Token::Negation => seq![(parent as usize, first as usize)] + operand_edges(
                s.drop_first(),
                first,
                first + 1,
            ),
            Token::OpeningBracket => if s.len() >= 2 {
                expression_edges(s.subrange(1, s.len() - 1), parent, first)
            } else {
                Seq::empty()
            },
            _ => seq![(parent as usize, first as usize)],
        }
    }
}

/// The edges of the tree of expression `s`, numbered as for `operand_edges`:
/// an operator is the parent of its left operand and then of its right one.
pub open spec fn expression_edges(s: Seq<Token>, parent: int, first: int) -> Seq<(usize, usize)>
    decreases s.len(), 1int,
{
    match top_operator(s) {
        Some(i) => if 0 <= i < s.len() {
            let op = first + nodes_of(s.take(i)).len();
            operand_edges(s.take(i), op, first) + seq![(parent as usize, op as usize)]
                + operand_edges(s.skip(i + 1), op, op + 1)
        } else {
            Seq::empty()
        },
        None => operand_edges(s, parent, first),
    }
}

/// The top vertex of the tree of operand `s`, numbered from `first`.
pub open spec fn operand_top(s: Seq<Token>, first: int) -> int
    decreases s.len(), 0int,
{
    if s.len() >= 2 && s[0] is OpeningBracket {
        expression_top(s.subrange(1, s.len() - 1), first)
    } else {
        first
    }
}

/// The top vertex of the tree of expression `s`: its operator, if it has one.
pub open spec fn expression_top(s: Seq<Token>, first: int) -> int
    decreases s.len(), 1int,
{
    match top_operator(s) {
        Some(i) => if 0 <= i < s.len() {
            first + nodes_of(s.take(i)).len()
        } else {
            first
        },
        None => operand_top(s, first),
    }
}

/// The value that symbol `c` holds once each of `variables`, in order, has
/// been replaced by the constant of the matching entry of `assignment`.
pub open spec fn label_under(c: char, variables: Seq<char>, assignment: Seq<bool>) -> char
    decreases variables.len(),
{
    if variables.len() == 0 || assignment.len() == 0 {
        c
    } else {
        let d = label_under(c, variables.drop_last(), assignment.drop_last());
        if d == variables.last() {
            if assignment.last() {
                't'
            } else {
                'c'
            }
        } else {
            d
        }
    }
}

/// A vertex once the variables are replaced as `label_under` says.
pub open spec fn vertex_under(g: Grammar, variables: Seq<char>, assignment: Seq<bool>) -> Grammar {
    match g {
        Grammar::Value(c) => Grammar::Value(label_under(c, variables, assignment)),
        _ => g,
    }
}

/// Vertices once the variables are replaced as `label_under` says.
pub open spec fn nodes_under(ns: Seq<Grammar>, variables: Seq<char>, assignment: Seq<bool>) -> Seq<
    Grammar,
> {
    ns.map_values(|g: Grammar| vertex_under(g, variables, assignment))
}

/// The truth value of operand `s` once the variables are replaced: `t` is
/// true and every other value false.
pub open spec fn operand_value_under(s: Seq<Token>, variables: Seq<char>, assignment: Seq<bool>) -> bool
    decreases s.len(), 0int,
{
    if s.len() == 0 {
        false
    } else {
        match s[0] {
            Token::Negation => !operand_value_under(s.drop_first(), variables, assignment),
            Token::OpeningBracket => if s.len() >= 2 {
                expression_value_under(s.subrange(1, s.len() - 1), variables, assignment)
            } else {
                false
            },
            Token::Value(c) => label_under(c, variables, assignment) == 't',
            _ => false,
        }
    }
}

/// The truth value of expression `s` once the variables are replaced: `.`
/// is AND and `+` is OR.
pub open spec fn expression_value_under(s: Seq<Token>, variables: Seq<char>, assignment: Seq<bool>) -> bool
    decreases s.len(), 1int,
{
    match top_operator(s) {
        Some(i) => if 0 <= i < s.len() {
            let a = operand_value_under(s.take(i), variables, assignment);
            let b = operand_value_under(s.skip(i + 1), variables, assignment);
            if s[i] == Token::Operator('.') {
                a && b
            } else {
                a || b
            }
        } else {
            false
        },
        None => operand_value_under(s, variables, assignment),
    }
}

/// The truth value of expression `s` as it stands.
pub open spec fn expression_value(s: Seq<Token>) -> bool {
    expression_value_under(s, Seq::empty(), Seq::empty())
}

/// Whether edge `k` enters vertex `k + 1`: the tree grew one child at a time.
pub open spec fn layered(t: (Seq<Grammar>, Seq<(usize, usize)>)) -> bool {
    &&& t.1.len() + 1 == t.0.len()
    &&& forall|k: int| 0 <= k < t.1.len() ==> (#[trigger] t.1[k]).1 == k + 1
}

/// The nodes of a sequence split around position `i`.
proof fn lemma_nodes_split(s: Seq<Token>, i: int)
    requires
        0 <= i < s.len(),
    ensures
        nodes_of(s) == nodes_of(s.take(i)) + nodes_of(seq![s[i]]) + nodes_of(s.skip(i + 1)),
        nodes_of(seq![s[i]]) == match s[i] {
            Token::Value(c) => seq![Grammar::Value(c)],
            Token::Operator(c) => seq![Grammar::Operator(c)],
            Token::Negation => seq![Grammar::Negation],
            _ => Seq::<Grammar>::empty(),
        },
{
    assert(s == s.take(i) + seq![s[i]] + s.skip(i + 1));
    lemma_nodes_of_append(s.take(i), seq![s[i]]);
    lemma_nodes_of_append(s.take(i) + seq![s[i]], s.skip(i + 1));
    assert(seq![s[i]].drop_last() == Seq::<Token>::empty());
    assert(nodes_of(Seq::<Token>::empty()) == Seq::<Grammar>::empty());
    assert(seq![s[i]].last() == s[i]);
}

/// An operand's tree has one edge per vertex, its top among its vertices;
/// hanging it from another parent changes only the top's edge.
proof fn lemma_operand_edges(s: Seq<Token>, p: int, q: int, f: int)
    requires
        is_operand(s),
    ensures
        operand_edges(s, p, f).len() == nodes_of(s).len(),
        f <= operand_top(s, f) < f + nodes_of(s).len(),
        operand_edges(s, q, f) == operand_edges(s, p, f).update(
            operand_top(s, f) - f,
            (q as usize, operand_top(s, f) as usize),
        ),
    decreases s.len(), 0int,
{
    lemma_nodes_split(s, 0);
    assert(s.take(0) == Seq::<Token>::empty());
    assert(nodes_of(Seq::<Token>::empty()) == Seq::<Grammar>::empty());
    assert(s.skip(1) == s.drop_first());
    match s[0] {
        Token::Negation => {
            lemma_operand_edges(s.drop_first(), f, f, f + 1);
        },
        Token::OpeningBracket => {
            let inner = s.subrange(1, s.len() - 1);
            let k = s.len() - 1;
            lemma_nodes_split(s, k);
            assert(s.take(k) == seq![s[0]] + inner);
            lemma_nodes_of_append(seq![s[0]], inner);
            assert(s.skip(k + 1) == Seq::<Token>::empty());
            lemma_expression_edges(inner, p, q, f);
        },
        _ => {
            assert(s.drop_first() == Seq::<Token>::empty());
        },
    }
}

/// As `lemma_operand_edges`, for an expression.
pub(crate) proof fn lemma_expression_edges(s: Seq<Token>, p: int, q: int, f: int)
    requires
        is_expression(s),
    ensures
        expression_edges(s, p, f).len() == nodes_of(s).len(),
        f <= expression_top(s, f) < f + nodes_of(s).len(),
        expression_edges(s, q, f) == expression_edges(s, p, f).update(
            expression_top(s, f) - f,
            (q as usize, expression_top(s, f) as usize),
        ),
    decreases s.len(), 1int,
{
    match top_operator(s) {
        Some(i) => {
            let op = f + nodes_of(s.take(i)).len();
            lemma_operand_edges(s.take(i), op, op, f);
            lemma_operand_edges(s.skip(i + 1), op, op, op + 1);
            lemma_nodes_split(s, i);
            let a = operand_edges(s.take(i), op, f);
            let b = operand_edges(s.skip(i + 1), op, op + 1);
            assert((a + seq![(p as usize, op as usize)] + b).update(
                op - f,
                (q as usize, op as usize),
            ) == a + seq![(q as usize, op as usize)] + b);
        },
        None => {
            lemma_operand_edges(s, p, q, f);
        },
    }
}

/// How the nodes of an operand come from its parts.
proof fn lemma_operand_nodes(s: Seq<Token>)
    requires
        is_operand(s),
    ensures
        s[0] is Negation ==> nodes_of(s) == seq![Grammar::Negation] + nodes_of(s.drop_first()),
        s[0] is OpeningBracket ==> nodes_of(s) == nodes_of(s.subrange(1, s.len() - 1)),
        s[0] matches Token::Value(c) ==> nodes_of(s) == seq![Grammar::Value(c)],
{
    lemma_nodes_split(s, 0);
    assert(s.take(0) == Seq::<Token>::empty());
    assert(nodes_of(Seq::<Token>::empty()) == Seq::<Grammar>::empty());
    assert(s.skip(1) == s.drop_first());
    if s[0] is OpeningBracket {
        let inner = s.subrange(1, s.len() - 1);
        let k = s.len() - 1;
        lemma_nodes_split(s, k);
        assert(s.take(k) == seq![s[0]] + inner);
        lemma_nodes_of_append(seq![s[0]], inner);
        assert(s.skip(k + 1) == Seq::<Token>::empty());
    }
    if s[0] is Value {
        assert(s.drop_first() == Seq::<Token>::empty());
    }
}

/// The children found in two edge lists, one after the other.
proof fn lemma_children_concat(a: Seq<(usize, usize)>, b: Seq<(usize, usize)>, v: int)
    ensures
        children_of(a + b, v) == children_of(a, v) + children_of(b, v),
    decreases b.len(),
{
    if b.len() == 0 {
        assert(a + b == a);
        assert(children_of(b, v) == Seq::<usize>::empty());
    } else {
        lemma_children_concat(a, b.drop_last(), v);
        assert((a + b).drop_last() == a + b.drop_last());
        assert((a + b).last() == b.last());
    }
}

/// The children of `v` along a single edge.
proof fn lemma_children_one(e: (usize, usize), v: int)
    ensures
        children_of(seq![e], v) == if e.0 == v {
            seq![e.1]
        } else {
            Seq::<usize>::empty()
        },
{
    assert(seq![e].drop_last() == Seq::<(usize, usize)>::empty());
    assert(seq![e].last() == e);
    assert(children_of(Seq::<(usize, usize)>::empty(), v) == Seq::<usize>::empty());
    assert(Seq::<usize>::empty().push(e.1) == seq![e.1]);
}

/// Outside its own vertices, an operand's edges leave only its parent, once, to its top.
proof fn lemma_operand_children(s: Seq<Token>, p: int, f: int, v: int)
    requires
        is_operand(s),
        0 <= p <= usize::MAX,
        0 <= f,
        f + nodes_of(s).len() <= usize::MAX,
        p < f || p >= f + nodes_of(s).len(),
        !(f <= v < f + nodes_of(s).len()),
    ensures
        children_of(operand_edges(s, p, f), v) == if v == p {
            seq![operand_top(s, f) as usize]
        } else {
            Seq::<usize>::empty()
        },
    decreases s.len(), 0int,
{
    lemma_operand_nodes(s);
    lemma_operand_edges(s, p, p, f);
    match s[0] {
        Token::Negation => {
            let rest = s.drop_first();
            lemma_children_concat(seq![(p as usize, f as usize)], operand_edges(rest, f, f + 1), v);
            lemma_children_one((p as usize, f as usize), v);
            lemma_operand_children(rest, f, f + 1, v);
        },
        Token::OpeningBracket => {
            lemma_expression_children(s.subrange(1, s.len() - 1), p, f, v);
        },
        _ => {
            lemma_children_one((p as usize, f as usize), v);
        },
    }
}

/// As `lemma_operand_children`, for an expression.
pub(crate) proof fn lemma_expression_children(s: Seq<Token>, p: int, f: int, v: int)
    requires
        is_expression(s),
        0 <= p <= usize::MAX,
        0 <= f,
        f + nodes_of(s).len() <= usize::MAX,
        p < f || p >= f + nodes_of(s).len(),
        !(f <= v < f + nodes_of(s).len()),
    ensures
        children_of(expression_edges(s, p, f), v) == if v == p {
            seq![expression_top(s, f) as usize]
        } else {
            Seq::<usize>::empty()
        },
    decreases s.len(), 1int,
{
    lemma_expression_edges(s, p, p, f);
    match top_operator(s) {
        Some(i) => {
            let l = s.take(i);
            let r = s.skip(i + 1);
            let op = f + nodes_of(l).len();
            lemma_nodes_split(s, i);
            let a = operand_edges(l, op, f);
            let b = operand_edges(r, op, op + 1);
            let e = (p as usize, op as usize);
            lemma_children_concat(a, seq![e], v);
            lemma_children_concat(a + seq![e], b, v);
            lemma_children_one(e, v);
            lemma_operand_children(l, op, f, v);
            lemma_operand_children(r, op, op + 1, v);
        },
        None => {
            lemma_operand_children(s, p, f, v);
        },
    }
}

/// Whether no edge of `x` leaves a vertex in `[lo, hi)`.
pub open spec fn leaves_none(x: Seq<(usize, usize)>, lo: int, hi: int) -> bool {
    forall|v: int| lo <= v < hi ==> #[trigger] children_of(x, v) == Seq::<usize>::empty()
}

/// Within a tree whose other edges leave none of its vertices, an operand's
/// tree evaluates to the operand's value.
proof fn lemma_operand_eval(
    vs: Seq<Grammar>,
    x: Seq<(usize, usize)>,
    y: Seq<(usize, usize)>,
    s: Seq<Token>,
    p: int,
    f: int,
    fuel: nat,
    variables: Seq<char>,
    assignment: Seq<bool>,
)
    requires
        is_operand(s),
        0 <= p <= usize::MAX,
        0 <= f,
        f + nodes_of(s).len() <= vs.len() <= usize::MAX,
        p < f || p >= f + nodes_of(s).len(),
        vs.subrange(f, f + nodes_of(s).len()) == nodes_under(nodes_of(s), variables, assignment),
        leaves_none(x, f, f + nodes_of(s).len()),
        leaves_none(y, f, f + nodes_of(s).len()),
        fuel >= nodes_of(s).len(),
    ensures
        eval(vs, x + operand_edges(s, p, f) + y, operand_top(s, f), fuel) == Some(
            operand_value_under(s, variables, assignment),
        ),
    decreases s.len(), 0int,
{
    let n = nodes_of(s).len() as int;
    let seg = operand_edges(s, p, f);
    lemma_operand_nodes(s);
    lemma_operand_edges(s, p, p, f);
    assert(vs.subrange(f, f + n)[0] == vs[f]);
    assert(nodes_under(nodes_of(s), variables, assignment)[0] == vertex_under(nodes_of(s)[0], variables, assignment));
    assert(vs[f] == vertex_under(nodes_of(s)[0], variables, assignment));
    match s[0] {
        Token::Negation => {
            let rest = s.drop_first();
            let e = (p as usize, f as usize);
            let re = operand_edges(rest, f, f + 1);
            let g = x + seg + y;
            assert(g == (x + seq![e]) + re + y);
            lemma_children_concat(x, seg, f);
            lemma_children_concat(x + seg, y, f);
            lemma_children_concat(seq![e], re, f);
            lemma_children_one(e, f);
            lemma_operand_children(rest, f, f + 1, f);
            assert(children_of(g, f) == seq![operand_top(rest, f + 1) as usize]);
            assert forall|w: int| f + 1 <= w < f + n implies #[trigger] children_of(x + seq![e], w)
                == Seq::<usize>::empty() by {
                lemma_children_concat(x, seq![e], w);
                lemma_children_one(e, w);
                assert(children_of(x, w) == Seq::<usize>::empty());
            }
            assert forall|w: int| f + 1 <= w < f + n implies #[trigger] children_of(y, w)
                == Seq::<usize>::empty() by {
                assert(children_of(y, w) == Seq::<usize>::empty());
            }
            assert(vs.subrange(f + 1, f + n) =~= vs.subrange(f, f + n).subrange(1, n));
            assert(nodes_under(nodes_of(s), variables, assignment).subrange(1, n) =~= nodes_under(
                nodes_of(rest),
                variables,
                assignment,
            ));
            assert(vs.subrange(f + 1, f + n) == nodes_under(nodes_of(rest), variables, assignment));
            lemma_operand_eval(vs, x + seq![e], y, rest, f, f + 1, (fuel - 1) as nat, variables, assignment);
        },
        Token::OpeningBracket => {
            lemma_expression_eval(vs, x, y, s.subrange(1, s.len() - 1), p, f, fuel, variables, assignment);
        },
        _ => {},
    }
}

/// As `lemma_operand_eval`, for an expression.
pub(crate) proof fn lemma_expression_eval(
    vs: Seq<Grammar>,
    x: Seq<(usize, usize)>,
    y: Seq<(usize, usize)>,
    s: Seq<Token>,
    p: int,
    f: int,
    fuel: nat,
    variables: Seq<char>,
    assignment: Seq<bool>,
)
    requires
        is_expression(s),
        0 <= p <= usize::MAX,
        0 <= f,
        f + nodes_of(s).len() <= vs.len() <= usize::MAX,
        p < f || p >= f + nodes_of(s).len(),
        vs.subrange(f, f + nodes_of(s).len()) == nodes_under(nodes_of(s), variables, assignment),
        leaves_none(x, f, f + nodes_of(s).len()),
        leaves_none(y, f, f + nodes_of(s).len()),
        fuel >= nodes_of(s).len(),
    ensures
        eval(vs, x + expression_edges(s, p, f) + y, expression_top(s, f), fuel) == Some(
            expression_value_under(s, variables, assignment),
        ),
    decreases s.len(), 1int,
{
    let n = nodes_of(s).len() as int;
    lemma_expression_edges(s, p, p, f);
    match top_operator(s) {
        Some(i) => {
            let l = s.take(i);
            let r = s.skip(i + 1);
            let op = f + nodes_of(l).len();
            let nl = nodes_of(l).len() as int;
            let nr = nodes_of(r).len() as int;
            lemma_nodes_split(s, i);
            lemma_operand_edges(l, op, op, f);
            lemma_operand_edges(r, op, op, op + 1);
            let a = operand_edges(l, op, f);
            let b = operand_edges(r, op, op + 1);
            let e = (p as usize, op as usize);
            let g = x + (a + seq![e] + b) + y;
            assert(vs.subrange(f, f + n)[nl] == vs[op]);
            assert(nodes_under(nodes_of(s), variables, assignment)[nl] == vertex_under(nodes_of(s)[nl], variables, assignment));
            assert(vs[op] == vertex_under(nodes_of(s)[nl], variables, assignment));
            assert(nodes_of(s)[nl] == Grammar::Operator(s[i]->Operator_0));
            assert(g == x + a + (seq![e] + b + y));
            assert(g == (x + a + seq![e]) + b + y);
            lemma_children_concat(x, a + seq![e] + b, op);
            lemma_children_concat(x + (a + seq![e] + b), y, op);
            lemma_children_concat(a + seq![e], b, op);
            lemma_children_concat(a, seq![e], op);
            lemma_children_one(e, op);
            lemma_operand_children(l, op, f, op);
            lemma_operand_children(r, op, op + 1, op);
            assert(children_of(g, op) == seq![operand_top(l, f) as usize, operand_top(r, op + 1) as usize]);
            assert forall|w: int| f <= w < op implies #[trigger] children_of(seq![e] + b + y, w)
                == Seq::<usize>::empty() by {
                lemma_children_concat(seq![e], b, w);
                lemma_children_concat(seq![e] + b, y, w);
                lemma_children_one(e, w);
                lemma_operand_children(r, op, op + 1, w);
                assert(children_of(y, w) == Seq::<usize>::empty());
            }
            assert forall|w: int| f <= w < op implies #[trigger] children_of(x, w)
                == Seq::<usize>::empty() by {
                assert(children_of(x, w) == Seq::<usize>::empty());
            }
            assert forall|w: int| op + 1 <= w < f + n implies #[trigger] children_of(x + a + seq![e], w)
                == Seq::<usize>::empty() by {
                lemma_children_concat(x, a, w);
                lemma_children_concat(x + a, seq![e], w);
                lemma_children_one(e, w);
                lemma_operand_children(l, op, f, w);
                assert(children_of(x, w) == Seq::<usize>::empty());
            }
            assert forall|w: int| op + 1 <= w < f + n implies #[trigger] children_of(y, w)
                == Seq::<usize>::empty() by {
                assert(children_of(y, w) == Seq::<usize>::empty());
            }
            assert(n == nl + 1 + nr);
            assert(vs.subrange(f, op) =~= vs.subrange(f, f + n).subrange(0, nl));
            assert(nodes_under(nodes_of(s), variables, assignment).subrange(0, nl) =~= nodes_under(
                nodes_of(l),
                variables,
                assignment,
            ));
            assert(vs.subrange(op + 1, op + 1 + nr) =~= vs.subrange(f, f + n).subrange(nl + 1, n));
            assert(nodes_under(nodes_of(s), variables, assignment).subrange(nl + 1, n) =~= nodes_under(
                nodes_of(r),
                variables,
                assignment,
            ));
            lemma_operand_eval(vs, x, seq![e] + b + y, l, op, f, (fuel - 1) as nat, variables, assignment);
            lemma_operand_eval(vs, x + a + seq![e], y, r, op, op + 1, (fuel - 1) as nat, variables, assignment);
        },
        None => {
            lemma_operand_eval(vs, x, y, s, p, f, fuel, variables, assignment);
        },
    }
}

/// Whether every edge leaves an existing vertex that holds no value, so that
/// values are leaves.
pub open spec fn values_are_leaves(t: (Seq<Grammar>, Seq<(usize, usize)>)) -> bool {
    forall|k: int|
        0 <= k < t.1.len() ==> (#[trigger] t.1[k]).0 < t.0.len() && !(t.0[t.1[k].0 as int] is Value)
}

/// Whether two vertex lists differ at most in the values of value vertices.
pub open spec fn same_kinds(a: Seq<Grammar>, b: Seq<Grammar>) -> bool {
    &&& a.len() == b.len()
    &&& forall|k: int| 0 <= k < a.len() ==> (#[trigger] a[k] is Value && b[k] is Value) || a[k] == b[k]
}

/// Changing which values the value vertices hold keeps a tree evaluable.
pub proof fn lemma_eval_relabelled(
    a: Seq<Grammar>,
    b: Seq<Grammar>,
    edges: Seq<(usize, usize)>,
    i: int,
    fuel: nat,
)
    requires
        same_kinds(a, b),
        eval(a, edges, i, fuel) is Some,
    ensures
        eval(b, edges, i, fuel) is Some,
    decreases fuel,
{
    if fuel > 0 && 0 <= i < a.len() {
        let ch = children_of(edges, i);
        if !(a[i] is Value) {
            assert(a[i] == b[i]);
            if ch.len() >= 1 {
                lemma_eval_relabelled(a, b, edges, ch[0] as int, (fuel - 1) as nat);
            }
            if ch.len() >= 2 {
                lemma_eval_relabelled(a, b, edges, ch[1] as int, (fuel - 1) as nat);
            }
        }
    }
}

/// Every edge of an operand's tree leaves its parent or one of its own
/// vertices that holds no value.
proof fn lemma_operand_sources(s: Seq<Token>, p: int, f: int)
    requires
        is_operand(s),
        0 <= p <= usize::MAX,
        0 <= f,
        f + nodes_of(s).len() <= usize::MAX,
    ensures
        forall|k: int|
            0 <= k < operand_edges(s, p, f).len() ==> (#[trigger] operand_edges(s, p, f)[k]).0 == p || (f
                <= operand_edges(s, p, f)[k].0 < f + nodes_of(s).len() && !(nodes_of(s)[operand_edges(
                s,
                p,
                f,
            )[k].0 - f] is Value)),
    decreases s.len(), 0int,
{
    lemma_operand_nodes(s);
    lemma_operand_edges(s, p, p, f);
    let seg = operand_edges(s, p, f);
    match s[0] {
        Token::Negation => {
            let rest = s.drop_first();
            lemma_operand_sources(rest, f, f + 1);
            let re = operand_edges(rest, f, f + 1);
            assert forall|k: int| 0 <= k < seg.len() implies (#[trigger] seg[k]).0 == p || (f <= seg[k].0
                < f + nodes_of(s).len() && !(nodes_of(s)[seg[k].0 - f] is Value)) by {
                if k > 0 {
                    assert(seg[k] == re[k - 1]);
                    if re[k - 1].0 != f {
                        assert(nodes_of(s)[re[k - 1].0 - f] == nodes_of(rest)[re[k - 1].0 - f - 1]);
                    }
                }
            }
        },
        Token::OpeningBracket => {
            lemma_expression_sources(s.subrange(1, s.len() - 1), p, f);
        },
        _ => {},
    }
}

/// As `lemma_operand_sources`, for an expression.
pub(crate) proof fn lemma_expression_sources(s: Seq<Token>, p: int, f: int)
    requires
        is_expression(s),
        0 <= p <= usize::MAX,
        0 <= f,
        f + nodes_of(s).len() <= usize::MAX,
    ensures
        forall|k: int|
            0 <= k < expression_edges(s, p, f).len() ==> (#[trigger] expression_edges(s, p, f)[k]).0 == p
                || (f <= expression_edges(s, p, f)[k].0 < f + nodes_of(s).len() && !(nodes_of(
                s,
            )[expression_edges(s, p, f)[k].0 - f] is Value)),
    decreases s.len(), 1int,
{
    lemma_expression_edges(s, p, p, f);
    match top_operator(s) {
        Some(i) => {
            let l = s.take(i);
            let r = s.skip(i + 1);
            let op = f + nodes_of(l).len();
            let nl = nodes_of(l).len() as int;
            lemma_nodes_split(s, i);
            lemma_operand_edges(l, op, op, f);
            lemma_operand_edges(r, op, op, op + 1);
            lemma_operand_sources(l, op, f);
            lemma_operand_sources(r, op, op + 1);
            let a = operand_edges(l, op, f);
            let b = operand_edges(r, op, op + 1);
            let seg = expression_edges(s, p, f);
            assert(seg == a + seq![(p as usize, op as usize)] + b);
            assert(nodes_of(s)[nl] is Operator);
            assert forall|k: int| 0 <= k < seg.len() implies (#[trigger] seg[k]).0 == p || (f <= seg[k].0
                < f + nodes_of(s).len() && !(nodes_of(s)[seg[k].0 - f] is Value)) by {
                if k < a.len() {
                    assert(seg[k] == a[k]);
                    if a[k].0 != op {
                        assert(nodes_of(s)[a[k].0 - f] == nodes_of(l)[a[k].0 - f]);
                    }
                } else if k > a.len() {
                    assert(seg[k] == b[k - a.len() - 1]);
                    let src = b[k - a.len() - 1].0 as int;
                    if src != op {
                        assert(nodes_of(s)[src - f] == nodes_of(r)[src - op - 1]);
                    }
                }
            }
        },
        None => {
            lemma_operand_sources(s, p, f);
        },
    }
}

/// The position of the operator that joins the two operands of
/// `tokens[start..end]`, if it has one.
fn find_top_operator(tokens: &[Token], start: usize, end: usize) -> (r: Option<usize>)
    requires
        start <= end <= tokens@.len(),
    ensures
        match top_operator(tokens@.subrange(start as int, end as int)) {
            Some(j) => r == Some((start + j) as usize) && start <= start + j < end,
            None => r is None,
        },
{
    let ghost s = tokens@.subrange(start as int, end as int);
    let mut opens: usize = 0;
    let mut closes: usize = 0;
    let mut i: usize = start;
    while i < end
        invariant
            start <= i <= end <= tokens@.len(),
            s == tokens@.subrange(start as int, end as int),
            opens <= i - start,
            closes <= i - start,
            top_operator(s) == top_operator_from(s, i - start, opens - closes),
        decreases end - i,
    {
        assert(s[i - start] == tokens@[i as int]);
        match tokens[i] {
            Token::OpeningBracket => {
                opens = opens + 1;
            },
            Token::ClosingBracket => {
                closes = closes + 1;
            },
            Token::Operator(_) => {
                if opens == closes {
                    return Some(i);
                }
            },
            _ => {},
        }
        i = i + 1;
    }
    None
}

/// Appends the tree of operand `tokens[start..end]`, its top under `parent`,
/// and returns its top vertex; `None` where the tokens are no operand.
fn parse_operand(tree: &mut Tree<Grammar>, tokens: &[Token], start: usize, end: usize, parent: usize) -> (r: Option<usize>)
    requires
        old(tree).well_formed(),
        layered(old(tree)@),
        parent < old(tree)@.0.len(),
        start <= end <= tokens@.len(),
        old(tree)@.0.len() + (end - start) < usize::MAX,
    ensures
        final(tree).well_formed(),
        layered(final(tree)@),
        old(tree)@.0.len() <= final(tree)@.0.len() <= old(tree)@.0.len() + (end - start),
        r is Some <==> is_operand(tokens@.subrange(start as int, end as int)),
        is_operand(tokens@.subrange(start as int, end as int)) ==> {
            let s = tokens@.subrange(start as int, end as int);
            let f = old(tree)@.0.len() as int;
            &&& final(tree)@.0 == old(tree)@.0 + nodes_of(s)
            &&& final(tree)@.1 == old(tree)@.1 + operand_edges(s, parent as int, f)
            &&& r == Some(operand_top(s, f) as usize)
        },
    decreases end - start, 0int,
{
    let ghost s = tokens@.subrange(start as int, end as int);
    let ghost f = tree@.0.len() as int;
    if start == end {
        return None;
    }
    proof {
        lemma_nodes_split(s, 0);
        assert(s.take(0) == Seq::<Token>::empty());
        assert(nodes_of(Seq::<Token>::empty()) == Seq::<Grammar>::empty());
        assert(s.skip(1) == s.drop_first());
        assert(s.drop_first() == tokens@.subrange(start + 1, end as int));
    }
    match tokens[start] {
        Token::Negation => {
            let v = tree.add_child(parent, Grammar::Negation);
            let ghost mid = tree@;
            match parse_operand(tree, tokens, start + 1, end, v) {
                Some(_) => {
                    assert(mid.1 == old(tree)@.1.push((parent, v)));
                    assert(seq![(parent as usize, f as usize)] + operand_edges(s.drop_first(), f, f + 1)
                        == operand_edges(s, parent as int, f));
                    Some(v)
                },
                None => None,
            }
        },
        Token::Value(c) => {
            if end - start != 1 {
                return None;
            }
            assert(s.drop_first() == Seq::<Token>::empty());
            let v = tree.add_child(parent, Grammar::Value(c));
            Some(v)
        },
        Token::OpeningBracket => {
            if end - start < 2 {
                return None;
            }
            if let Token::ClosingBracket = tokens[end - 1] {
            } else {
                return None;
            }
            proof {
                let inner = s.subrange(1, s.len() - 1);
                assert(inner == tokens@.subrange(start + 1, end - 1));
                let k = s.len() - 1;
                lemma_nodes_split(s, k);
                assert(s.take(k) == seq![s[0]] + inner);
                lemma_nodes_of_append(seq![s[0]], inner);
                assert(s.skip(k + 1) == Seq::<Token>::empty());
                assert(s.last() == tokens@[end - 1]);
            }
            parse_expression(tree, tokens, start + 1, end - 1, parent)
        },
        _ => None,
    }
}

/// Appends the tree of expression `tokens[start..end]`, its top under
/// `parent`, and returns its top vertex; `None` where the tokens are no expression.
fn parse_expression(tree: &mut Tree<Grammar>, tokens: &[Token], start: usize, end: usize, parent: usize) -> (r: Option<usize>)
    requires
        old(tree).well_formed(),
        layered(old(tree)@),
        parent < old(tree)@.0.len(),
        start <= end <= tokens@.len(),
        old(tree)@.0.len() + (end - start) < usize::MAX,
    ensures
        final(tree).well_formed(),
        layered(final(tree)@),
        old(tree)@.0.len() <= final(tree)@.0.len() <= old(tree)@.0.len() + (end - start),
        r is Some <==> is_expression(tokens@.subrange(start as int, end as int)),
        is_expression(tokens@.subrange(start as int, end as int)) ==> {
            let s = tokens@.subrange(start as int, end as int);
            let f = old(tree)@.0.len() as int;
            &&& final(tree)@.0 == old(tree)@.0 + nodes_of(s)
            &&& final(tree)@.1 == old(tree)@.1 + expression_edges(s, parent as int, f)
            &&& r == Some(expression_top(s, f) as usize)
        },
    decreases end - start, 1int,
{
    let ghost s = tokens@.subrange(start as int, end as int);
    let ghost f = tree@.0.len() as int;
    match find_top_operator(tokens, start, end) {
        None => parse_operand(tree, tokens, start, end, parent),
        Some(i) => {
            let ghost j = i - start;
            assert(s[j] == tokens@[i as int]);
            assert(s.take(j) == tokens@.subrange(start as int, i as int));
            assert(s.skip(j + 1) == tokens@.subrange(i + 1, end as int));
            let o = match tokens[i] {
                Token::Operator(o) => o,
                _ => {
                    return None;
                },
            };
            if !(o == '+' || o == '.') {
                return None;
            }
            let top = match parse_operand(tree, tokens, start, i, parent) {
                Some(t) => t,
                None => {
                    return None;
                },
            };
            let ghost left = tree@;
            let op = tree.add_child(parent, Grammar::Operator(o));
            let ghost pushed = tree@;
            tree.reparent(top, op);
            proof {
                lemma_operand_edges(s.take(j), parent as int, op as int, f);
                lemma_nodes_split(s, j);
                let a = operand_edges(s.take(j), parent as int, f);
                let k = top - 1;
                assert(pushed.1 == old(tree)@.1 + a + seq![(parent, op)]);
                assert forall|m: int| 0 <= m < pushed.1.len() implies (#[trigger] pushed.1[m]).1 == top
                    <==> m == k by {}
                assert(tree@.1 == pushed.1.update(k, (op, top)));
                assert(tree@.1 == old(tree)@.1 + a.update(top - f, (op, top)) + seq![(parent, op)]);
            }
            let ghost mid = tree@;
            match parse_operand(tree, tokens, i + 1, end, op) {
                Some(_) => {
                    assert(op as int == f + nodes_of(s.take(j)).len());
                    Some(op)
                },
                None => None,
            }
        },
    }
}

impl AST for Tree<Grammar> {
    open spec fn ready(&self) -> bool {
        self.well_formed()
    }

    open spec fn nodes(&self) -> Seq<Grammar> {
        self@.0
    }

    open spec fn edges(&self) -> Seq<(usize, usize)> {
        self@.1
    }

    open spec fn evaluated(&self, index: int) -> Option<bool> {
        value_of_tree(self@, index)
    }

    fn create_ast(&mut self, tokens: &[Token]) -> (r: usize) {
        assert(tokens@.subrange(0, tokens@.len() as int) == tokens@);
        let ghost fresh = self@;
        let top = parse_expression(self, tokens, 0, tokens.len(), 0);
        proof {
            if is_expression(tokens@) && fresh.0 == seq![Grammar::Root] && fresh.1 == Seq::<
                (usize, usize),
            >::empty() {
                let g = expression_edges(tokens@, 0, 1);
                let vs = self@.0;
                let n = nodes_of(tokens@).len() as int;
                assert(self@.1 == g);
                lemma_expression_edges(tokens@, 0, 0, 1);
                lemma_expression_children(tokens@, 0, 1, 0);
                let none_c = Seq::<char>::empty();
                let none_b = Seq::<bool>::empty();
                assert(nodes_under(nodes_of(tokens@), none_c, none_b) =~= nodes_of(tokens@));
                assert(vs.subrange(1, 1 + n) =~= nodes_under(nodes_of(tokens@), none_c, none_b));
                let empty = Seq::<(usize, usize)>::empty();
                assert(empty + g + empty == g);
                assert(leaves_none(empty, 1, 1 + n));
                lemma_expression_eval(vs, empty, empty, tokens@, 0, 1, n as nat, none_c, none_b);
                assert(vs[0] == Grammar::Root);
                lemma_expression_sources(tokens@, 0, 1);
                assert forall|k: int| 0 <= k < g.len() implies (#[trigger] g[k]).0 < vs.len() && !(
                vs[g[k].0 as int] is Value) by {
                    if g[k].0 != 0 {
                        assert(vs[g[k].0 as int] == nodes_of(tokens@)[g[k].0 - 1]);
                    }
                }
            }
        }
        match (top, find_top_operator(tokens, 0, tokens.len())) {
            (Some(t), Some(_)) => t,
            _ => 0,
        }
    }

    fn evaluate(&self, index: usize) -> (r: bool) {
        let n = self.get_vertices().len();
        match try_evaluate(self, index, n) {
            Some(b) => b,
            None => false,
        }
    }
}

} // verus!
