use vstd::prelude::*;
use vstd::arithmetic::power2::{
    pow2,
    lemma_pow2_unfold,
    lemma_pow2_strictly_increases,
    lemma2_to64_rest,
};
use crate::ast::{
    Grammar,
    value_of_tree,
    try_evaluate,
    values_are_leaves,
    same_kinds,
    lemma_eval_relabelled,
    label_under,
    nodes_under,
    nodes_of,
    is_expression,
    expression_edges,
    expression_top,
    expression_value_under,
    leaves_none,
    lemma_expression_edges,
    lemma_expression_children,
    lemma_expression_sources,
    lemma_expression_eval,
};
use crate::lexer::Token;
use crate::tree::children_of;
use crate::tree::{Tree, replaced, edges_without_sources, leaves_target};

verus! {

/// The assignment of row `r` over `k` variables: variable `p` is true
/// exactly when bit `p` of `r` is zero.
pub open spec fn row_bits(r: nat, k: nat) -> Seq<bool>
    decreases k,
{
    if k == 0 {
        Seq::empty()
    } else {
        seq![r % 2 == 0] + row_bits(r / 2, (k - 1) as nat)
    }
}

/// The row whose assignment is `s`.
pub open spec fn row_of_bits(s: Seq<bool>) -> nat
    decreases s.len(),
{
    if s.len() == 0 {
        0
    } else {
        (if s[0] { 0nat } else { 1nat }) + 2 * row_of_bits(s.drop_first())
    }
}

/// The constant leaf that stands for a truth value.
pub open spec fn constant(b: bool) -> Grammar {
    if b {
        Grammar::Value('t')
    } else {
        Grammar::Value('c')
    }
}

/// The tree once every variable leaf holds the constant that `assignment`
/// gives it, the variables taken in order.
pub open spec fn substituted(
    t: (Seq<Grammar>, Seq<(usize, usize)>),
    variables: Seq<char>,
    assignment: Seq<bool>,
) -> (Seq<Grammar>, Seq<(usize, usize)>)
    decreases variables.len(),
{
    if variables.len() == 0 || assignment.len() == 0 {
        t
    } else {
        let u = substituted(t, variables.drop_last(), assignment.drop_last());
        let target = Grammar::Value(variables.last());
        (
            replaced(u.0, target, constant(assignment.last())),
            edges_without_sources(u.0, u.1, target),
        )
    }
}

/// The value of the expression in row `r` of the table.
pub open spec fn row_value(
    t: (Seq<Grammar>, Seq<(usize, usize)>),
    variables: Seq<char>,
    r: nat,
) -> Option<bool> {
    value_of_tree(substituted(t, variables, row_bits(r, variables.len())), 0)
}

/// Row `r` of the table has `k` cells.
pub proof fn lemma_row_bits_len(r: nat, k: nat)
    ensures
        row_bits(r, k).len() == k,
    decreases k,
{
    if k > 0 {
        lemma_row_bits_len(r / 2, (k - 1) as nat);
    }
}

/// Two rows below `2^k` have the same assignment only if they are the same row.
pub proof fn lemma_rows_distinct(a: nat, b: nat, k: nat)
    requires
        a < pow2(k),
        b < pow2(k),
        row_bits(a, k) == row_bits(b, k),
    ensures
        a == b,
    decreases k,
{
    if k == 0 {
        assert(pow2(0) == 1) by {
            lemma2_to64_rest();
            vstd::arithmetic::power2::lemma2_to64();
        }
    } else {
        lemma_pow2_unfold(k);
        let k1 = (k - 1) as nat;
        assert(row_bits(a, k)[0] == (a % 2 == 0));
        assert(row_bits(b, k)[0] == (b % 2 == 0));
        assert(row_bits(a / 2, k1) == row_bits(a, k).drop_first());
        assert(row_bits(b / 2, k1) == row_bits(b, k).drop_first());
        lemma_rows_distinct(a / 2, b / 2, k1);
    }
}

/// Every assignment of `k` truth values is the assignment of some row below `2^k`.
pub proof fn lemma_rows_cover(s: Seq<bool>)
    ensures
        row_of_bits(s) < pow2(s.len()),
        row_bits(row_of_bits(s), s.len()) == s,
    decreases s.len(),
{
    if s.len() == 0 {
        vstd::arithmetic::power2::lemma2_to64();
        assert(row_bits(0, 0) == s);
    } else {
        let t = s.drop_first();
        lemma_rows_cover(t);
        lemma_pow2_unfold(s.len());
        let r = row_of_bits(s);
        assert(r / 2 == row_of_bits(t));
        assert((r % 2 == 0) == s[0]);
        assert(row_bits(r, s.len()) == seq![s[0]] + t);
        assert(seq![s[0]] + t == s);
    }
}

/// Dropping the edges that leave vertices holding `target` keeps every edge
/// when none leaves such a vertex.
proof fn lemma_no_edge_dropped(vs: Seq<Grammar>, edges: Seq<(usize, usize)>, target: Grammar)
    requires
        forall|k: int| 0 <= k < edges.len() ==> !leaves_target(vs, #[trigger] edges[k], target),
    ensures
        edges_without_sources(vs, edges, target) == edges,
    decreases edges.len(),
{
    if edges.len() > 0 {
        assert forall|k: int| 0 <= k < edges.drop_last().len() implies !leaves_target(
            vs,
            #[trigger] edges.drop_last()[k],
            target,
        ) by {
            assert(edges.drop_last()[k] == edges[k]);
        }
        lemma_no_edge_dropped(vs, edges.drop_last(), target);
        assert(edges.last() == edges[edges.len() - 1]);
        assert(edges.drop_last().push(edges.last()) == edges);
    }
}

/// Where values are leaves, substituting constants for variables keeps every
/// edge and changes only the values of value vertices.
pub proof fn lemma_substituted_shape(
    t: (Seq<Grammar>, Seq<(usize, usize)>),
    variables: Seq<char>,
    assignment: Seq<bool>,
)
    requires
        values_are_leaves(t),
    ensures
        substituted(t, variables, assignment).1 == t.1,
        same_kinds(t.0, substituted(t, variables, assignment).0),
    decreases variables.len(),
{
    if !(variables.len() == 0 || assignment.len() == 0) {
        let u = substituted(t, variables.drop_last(), assignment.drop_last());
        lemma_substituted_shape(t, variables.drop_last(), assignment.drop_last());
        let target = Grammar::Value(variables.last());
        assert forall|k: int| 0 <= k < u.1.len() implies !leaves_target(u.0, #[trigger] u.1[k], target) by {
            assert(u.1[k] == t.1[k]);
            let src = t.1[k].0 as int;
            assert(t.0[src] is Value && u.0[src] is Value || t.0[src] == u.0[src]);
        }
        lemma_no_edge_dropped(u.0, u.1, target);
        let w = replaced(u.0, target, constant(assignment.last()));
        assert forall|k: int| 0 <= k < t.0.len() implies (#[trigger] t.0[k] is Value && w[k] is Value)
            || t.0[k] == w[k] by {
            assert(t.0[k] is Value && u.0[k] is Value || t.0[k] == u.0[k]);
        }
    }
}

/// Where values are leaves and the tree evaluates, every row of its truth
/// table evaluates.
pub proof fn lemma_rows_evaluate(t: (Seq<Grammar>, Seq<(usize, usize)>), variables: Seq<char>, r: nat)
    requires
        values_are_leaves(t),
        value_of_tree(t, 0) is Some,
    ensures
        row_value(t, variables, r) is Some,
{
    let a = row_bits(r, variables.len());
    lemma_substituted_shape(t, variables, a);
    let u = substituted(t, variables, a);
    lemma_eval_relabelled(t.0, u.0, t.1, 0, t.0.len());
}

/// Where values are leaves, substituting constants for variables relabels
/// each value vertex as `label_under` says.
pub proof fn lemma_substituted_vertices(
    t: (Seq<Grammar>, Seq<(usize, usize)>),
    variables: Seq<char>,
    assignment: Seq<bool>,
)
    requires
        values_are_leaves(t),
    ensures
        substituted(t, variables, assignment).0 == nodes_under(t.0, variables, assignment),
    decreases variables.len(),
{
    if variables.len() == 0 || assignment.len() == 0 {
        assert(nodes_under(t.0, variables, assignment) =~= t.0);
    } else {
        let vd = variables.drop_last();
        let ad = assignment.drop_last();
        lemma_substituted_vertices(t, vd, ad);
        lemma_substituted_shape(t, vd, ad);
        let u = substituted(t, vd, ad);
        let w = substituted(t, variables, assignment).0;
        assert(w =~= nodes_under(t.0, variables, assignment));
    }
}

/// Row `r` of the truth table of the tree built from expression `tokens`
/// under a lone root is the value of the expression with each variable
/// replaced by its constant in that row.
pub proof fn lemma_row_is_expression_value(tokens: Seq<Token>, variables: Seq<char>, r: nat)
    requires
        is_expression(tokens),
        1 + nodes_of(tokens).len() < usize::MAX,
    ensures
        row_value(
            (seq![Grammar::Root] + nodes_of(tokens), expression_edges(tokens, 0, 1)),
            variables,
            r,
        ) == Some(expression_value_under(tokens, variables, row_bits(r, variables.len()))),
{
    let vs = seq![Grammar::Root] + nodes_of(tokens);
    let g = expression_edges(tokens, 0, 1);
    let t = (vs, g);
    let n = nodes_of(tokens).len() as int;
    let a = row_bits(r, variables.len());
    lemma_expression_edges(tokens, 0, 0, 1);
    lemma_expression_sources(tokens, 0, 1);
    assert forall|k: int| 0 <= k < g.len() implies (#[trigger] g[k]).0 < vs.len() && !(
    vs[g[k].0 as int] is Value) by {
        if g[k].0 != 0 {
            assert(vs[g[k].0 as int] == nodes_of(tokens)[g[k].0 - 1]);
        }
    }
    lemma_substituted_shape(t, variables, a);
    lemma_substituted_vertices(t, variables, a);
    let u = substituted(t, variables, a);
    let ws = u.0;
    assert(ws.subrange(1, 1 + n) =~= nodes_under(nodes_of(tokens), variables, a));
    assert(ws[0] == Grammar::Root);
    lemma_expression_children(tokens, 0, 1, 0);
    let empty = Seq::<(usize, usize)>::empty();
    assert(empty + g + empty == g);
    assert(leaves_none(empty, 1, 1 + n));
    lemma_expression_eval(ws, empty, empty, tokens, 0, 1, n as nat, variables, a);
}

/// The truth table of the expression tree `ast` over `variables`: row `r`
/// assigns variable `p` true exactly when bit `p` of `r` is zero, and holds
/// the value of the tree with every variable replaced by its constant. `None`
/// where some row's tree has not the shape of an expression.
pub fn truth_table(ast: &Tree<Grammar>, variables: &Vec<char>) -> (r: Option<Vec<(Vec<bool>, bool)>>)
    requires
        ast.well_formed(),
        variables@.len() < 64,
    ensures
        match r {
            Some(rows) => {
                &&& rows@.len() == pow2(variables@.len() as nat)
                &&& forall|i: int|
                    0 <= i < rows@.len() ==> (#[trigger] rows@[i]).0@ == row_bits(
                        i as nat,
                        variables@.len() as nat,
                    ) && row_value(ast@, variables@, i as nat) == Some(rows@[i].1)
            },
            None => exists|i: nat|
                i < pow2(variables@.len() as nat) && #[trigger] row_value(ast@, variables@, i) is None,
        },
        values_are_leaves(ast@) && value_of_tree(ast@, 0) is Some ==> r is Some,
{
    let n = variables.len();
    let mut total: u64 = 1;
    let mut k: usize = 0;
    proof {
        vstd::arithmetic::power2::lemma2_to64();
        lemma2_to64_rest();
    }
    while k < n
        invariant
            k <= n < 64,
            total as nat == pow2(k as nat),
            pow2(63) == 0x8000000000000000,
        decreases n - k,
    {
        proof {
            lemma_pow2_unfold((k + 1) as nat);
            if k + 1 < 63 {
                lemma_pow2_strictly_increases((k + 1) as nat, 63);
            }
        }
        total = total * 2;
        k = k + 1;
    }
    let mut rows: Vec<(Vec<bool>, bool)> = Vec::new();
    let mut index: u64 = 0;
    while index < total
        invariant
            n == variables@.len() < 64,
            total as nat == pow2(n as nat),
            index <= total,
            ast.well_formed(),
            rows@.len() == index,
            forall|i: int|
                0 <= i < rows@.len() ==> (#[trigger] rows@[i]).0@ == row_bits(i as nat, n as nat)
                    && row_value(ast@, variables@, i as nat) == Some(rows@[i].1),
        decreases total - index,
    {
        let mut tree = ast.copied();
        let mut assignment: Vec<bool> = Vec::new();
        let mut rest: u64 = index;
        let mut p: usize = 0;
        while p < n
            invariant
                n == variables@.len(),
                p <= n,
                tree.well_formed(),
                assignment@.len() == p,
                row_bits(index as nat, n as nat) == assignment@ + row_bits(rest as nat, (n - p) as nat),
                tree@ == substituted(ast@, variables@.take(p as int), assignment@),
            decreases n - p,
        {
            let bit = rest % 2 == 0;
            let value = if bit {
                Grammar::Value('t')
            } else {
                Grammar::Value('c')
            };
            tree.find_replace(Grammar::Value(variables[p]), value);
            proof {
                let m = (n - p) as nat;
                assert(row_bits(rest as nat, m) == seq![bit] + row_bits((rest / 2) as nat, (m - 1) as nat));
                assert(assignment@.push(bit) + row_bits((rest / 2) as nat, (m - 1) as nat)
                    == assignment@ + row_bits(rest as nat, m));
                assert(variables@.take(p + 1).drop_last() == variables@.take(p as int));
                assert(assignment@.push(bit).drop_last() == assignment@);
            }
            assignment.push(bit);
            rest = rest / 2;
            p = p + 1;
        }
        proof {
            lemma_row_bits_len(rest as nat, 0);
            assert(assignment@ + row_bits(rest as nat, 0) == assignment@);
            assert(variables@.take(n as int) == variables@);
        }
        let size = tree.get_vertices().len();
        match try_evaluate(&tree, 0, size) {
            Some(b) => {
                assert(row_bits(index as nat, n as nat) == assignment@);
                rows.push((assignment, b));
            },
            None => {
                assert(row_bits(index as nat, n as nat) == assignment@);
                assert(row_value(ast@, variables@, index as nat) is None);
                proof {
                    if values_are_leaves(ast@) && value_of_tree(ast@, 0) is Some {
                        lemma_rows_evaluate(ast@, variables@, index as nat);
                    }
                }
                return None;
            },
        }
        index = index + 1;
    }
    Some(rows)
}

} // verus!
