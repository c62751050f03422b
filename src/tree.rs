use vstd::prelude::*;
use crate::ast::Grammar;

verus! {

/// A rooted tree stored as an arena: a list of vertex values and a list of
/// parent-to-child edges, both addressed by vertex index.
#[derive(Clone, Debug)]
pub struct Tree<T> {
    vertices: Vec<T>,
    edges: Vec<(usize, usize)>,
}

/// The indices of the children of `index`, in edge order.
pub open spec fn children_of(edges: Seq<(usize, usize)>, index: int) -> Seq<usize>
    decreases edges.len(),
{
    if edges.len() == 0 {
        Seq::empty()
    } else {
        let rest = children_of(edges.drop_last(), index);
        if edges.last().0 == index {
            rest.push(edges.last().1)
        } else {
            rest
        }
    }
}

/// The number of edges that enter vertex `x`.
pub open spec fn in_degree(edges: Seq<(usize, usize)>, x: int) -> nat
    decreases edges.len(),
{
    if edges.len() == 0 {
        0
    } else {
        in_degree(edges.drop_last(), x) + if edges.last().1 == x {
            1nat
        } else {
            0nat
        }
    }
}

/// Edges with the same destinations, position by position, enter each vertex as often.
pub proof fn lemma_in_degree_by_destinations(a: Seq<(usize, usize)>, b: Seq<(usize, usize)>, x: int)
    requires
        a.len() == b.len(),
        forall|k: int| 0 <= k < a.len() ==> (#[trigger] a[k]).1 == b[k].1,
    ensures
        in_degree(a, x) == in_degree(b, x),
    decreases a.len(),
{
    if a.len() > 0 {
        assert forall|k: int| 0 <= k < a.drop_last().len() implies (#[trigger] a.drop_last()[k]).1
            == b.drop_last()[k].1 by {
            assert(a.drop_last()[k] == a[k]);
            assert(b.drop_last()[k] == b[k]);
        }
        lemma_in_degree_by_destinations(a.drop_last(), b.drop_last(), x);
        assert(a.last() == a[a.len() - 1]);
    }
}

/// No edge enters a vertex that lies beyond every destination.
pub proof fn lemma_in_degree_beyond(edges: Seq<(usize, usize)>, n: nat)
    requires
        forall|k: int| 0 <= k < edges.len() ==> (#[trigger] edges[k]).1 < n,
    ensures
        in_degree(edges, n as int) == 0,
    decreases edges.len(),
{
    if edges.len() > 0 {
        assert forall|k: int| 0 <= k < edges.drop_last().len() implies (#[trigger] edges.drop_last()[k]).1
            < n by {
            assert(edges.drop_last()[k] == edges[k]);
        }
        lemma_in_degree_beyond(edges.drop_last(), n);
        assert(edges.last() == edges[edges.len() - 1]);
    }
}

/// Whether the edge leaves a vertex that holds `target`.
pub open spec fn leaves_target<T>(vertices: Seq<T>, edge: (usize, usize), target: T) -> bool {
    edge.0 < vertices.len() && vertices[edge.0 as int] == target
}

/// The edges left once every edge that leaves a vertex holding `target` is dropped.
pub open spec fn edges_without_sources<T>(
    vertices: Seq<T>,
    edges: Seq<(usize, usize)>,
    target: T,
) -> Seq<(usize, usize)>
    decreases edges.len(),
{
    if edges.len() == 0 {
        Seq::empty()
    } else {
        let rest = edges_without_sources(vertices, edges.drop_last(), target);
        if leaves_target(vertices, edges.last(), target) {
            rest
        } else {
            rest.push(edges.last())
        }
    }
}

/// Each vertex holding `target` now holds `value`.
pub open spec fn replaced<T>(vertices: Seq<T>, target: T, value: T) -> Seq<T> {
    vertices.map_values(|v: T| if v == target { value } else { v })
}

/// The edge runs between two indices below `n`.
pub open spec fn joins(edge: (usize, usize), n: nat) -> bool {
    edge.0 < n && edge.1 < n
}

/// Replacing a value that no vertex holds leaves the vertices and the edges as they were.
pub proof fn lemma_absent_target_unchanged<T>(
    vertices: Seq<T>,
    edges: Seq<(usize, usize)>,
    target: T,
    value: T,
)
    requires
        !vertices.contains(target),
    ensures
        replaced(vertices, target, value) == vertices,
        edges_without_sources(vertices, edges, target) == edges,
    decreases edges.len(),
{
    assert forall|k: int| 0 <= k < vertices.len() implies #[trigger] vertices[k] != target by {
        if vertices[k] == target {
            assert(vertices.contains(target));
        }
    }
    assert(replaced(vertices, target, value) =~= vertices);
    if edges.len() > 0 {
        lemma_absent_target_unchanged(vertices, edges.drop_last(), target, value);
        if edges.last().0 < vertices.len() {
            assert(vertices[edges.last().0 as int] != target);
        }
    }
}

impl<T> View for Tree<T> {
    type V = (Seq<T>, Seq<(usize, usize)>);

    closed spec fn view(&self) -> (Seq<T>, Seq<(usize, usize)>) {
        (self.vertices@, self.edges@)
    }
}

impl<T> Tree<T> {
    /// Every edge joins two existing vertices, and the root exists.
    pub open spec fn well_formed(&self) -> bool {
        &&& self@.0.len() >= 1
        &&& forall|k: int| 0 <= k < self@.1.len() ==> joins(#[trigger] self@.1[k], self@.0.len())
    }
}

impl<T: Copy> Tree<T> {
    /// A tree holding only its root.
    pub fn new(value: T) -> (r: Tree<T>)
        ensures
            r@.0 == seq![value],
            r@.1 == Seq::<(usize, usize)>::empty(),
            r.well_formed(),
    {
        let mut vertices: Vec<T> = Vec::new();
        vertices.push(value);
        Tree { vertices, edges: Vec::new() }
    }

    /// Appends a vertex holding `value` as the last child of `index`.
    pub fn add_child(&mut self, index: usize, value: T) -> (r: usize)
        requires
            old(self).well_formed(),
            index < old(self)@.0.len(),
            old(self)@.0.len() < usize::MAX,
        ensures
            r == old(self)@.0.len(),
            final(self)@.0 == old(self)@.0.push(value),
            final(self)@.1 == old(self)@.1.push((index, r)),
            final(self).well_formed(),
            in_degree(final(self)@.1, r as int) == 1,
            forall|x: int| x != r ==> #[trigger] in_degree(final(self)@.1, x) == in_degree(old(self)@.1, x),
    {
        self.vertices.push(value);
        let r = self.vertices.len() - 1;
        self.edges.push((index, r));
        proof {
            assert forall|k: int| 0 <= k < old(self)@.1.len() implies (#[trigger] old(self)@.1[k]).1
                < old(self)@.0.len() by {
                assert(joins(old(self)@.1[k], old(self)@.0.len()));
            }
            lemma_in_degree_beyond(old(self)@.1, old(self)@.0.len());
            assert(self@.1.drop_last() == old(self)@.1);
            assert forall|k: int| 0 <= k < self@.1.len() implies joins(
                #[trigger] self@.1[k],
                self@.0.len(),
            ) by {
                if k < old(self)@.1.len() {
                    assert(self@.1[k] == old(self)@.1[k]);
                }
            }
        }
        r
    }

    /// Makes `new_parent` the source of every edge that enters `child`.
    pub fn reparent(&mut self, child: usize, new_parent: usize)
        requires
            old(self).well_formed(),
            new_parent < old(self)@.0.len(),
        ensures
            final(self)@.0 == old(self)@.0,
            final(self)@.1.len() == old(self)@.1.len(),
            forall|k: int|
                0 <= k < old(self)@.1.len() ==> #[trigger] final(self)@.1[k] == if old(self)@.1[k].1
                    == child {
                    (new_parent, child)
                } else {
                    old(self)@.1[k]
                },
            final(self).well_formed(),
            forall|x: int| #[trigger] in_degree(final(self)@.1, x) == in_degree(old(self)@.1, x),
    {
        let n = self.edges.len();
        let mut k: usize = 0;
        while k < n
            invariant
                n == self.edges@.len(),
                k <= n,
                self.vertices@ == old(self).vertices@,
                self.edges@.len() == old(self).edges@.len(),
                new_parent < self.vertices@.len(),
                forall|j: int|
                    0 <= j < n ==> #[trigger] self.edges@[j] == if j < k && old(self).edges@[j].1
                        == child {
                        (new_parent, child)
                    } else {
                        old(self).edges@[j]
                    },
                old(self).well_formed(),
            decreases n - k,
        {
            let edge = self.edges[k];
            if edge.1 == child {
                self.edges.set(k, (new_parent, child));
            }
            k = k + 1;
        }
        proof {
            assert forall|j: int| 0 <= j < self@.1.len() implies joins(
                #[trigger] self@.1[j],
                self@.0.len(),
            ) by {
                assert(old(self)@.1[j] == old(self).edges@[j]);
                assert(old(self)@.1[j].1 < old(self)@.0.len());
                assert(self.edges@[j] == self@.1[j]);
            }
            assert forall|x: int| #[trigger] in_degree(self@.1, x) == in_degree(old(self)@.1, x) by {
                assert forall|k: int| 0 <= k < self@.1.len() implies (#[trigger] self@.1[k]).1 == old(
                    self,
                )@.1[k].1 by {
                    assert(self.edges@[k] == self@.1[k]);
                    assert(old(self).edges@[k] == old(self)@.1[k]);
                }
                lemma_in_degree_by_destinations(self@.1, old(self)@.1, x);
            }
        }
    }

    /// The vertex values, by index.
    pub fn get_vertices(&self) -> (r: &Vec<T>)
        ensures
            r@ == self@.0,
    {
        &self.vertices
    }

    /// The parent-to-child edges, in insertion order.
    pub fn get_edges(&self) -> (r: &Vec<(usize, usize)>)
        ensures
            r@ == self@.1,
    {
        &self.edges
    }

    /// The indices of the children of `index`, in edge order.
    pub fn children(&self, index: usize) -> (r: Vec<usize>)
        ensures
            r@ == children_of(self@.1, index as int),
    {
        let mut r: Vec<usize> = Vec::new();
        let mut k: usize = 0;
        while k < self.edges.len()
            invariant
                k <= self.edges@.len(),
                r@ == children_of(self.edges@.take(k as int), index as int),
            decreases self.edges@.len() - k,
        {
            assert(self.edges@.take(k + 1).drop_last() == self.edges@.take(k as int));
            let edge = self.edges[k];
            if edge.0 == index {
                r.push(edge.1);
            }
            k = k + 1;
        }
        assert(self.edges@.take(k as int) == self.edges@);
        r
    }

    /// A copy of this tree, sharing nothing with it.
    pub fn copied(&self) -> (r: Tree<T>)
        ensures
            r@ == self@,
    {
        let mut vertices: Vec<T> = Vec::new();
        let mut i: usize = 0;
        while i < self.vertices.len()
            invariant
                i <= self.vertices@.len(),
                vertices@ == self.vertices@.take(i as int),
            decreases self.vertices@.len() - i,
        {
            vertices.push(self.vertices[i]);
            i = i + 1;
        }
        let mut edges: Vec<(usize, usize)> = Vec::new();
        let mut j: usize = 0;
        while j < self.edges.len()
            invariant
                j <= self.edges@.len(),
                edges@ == self.edges@.take(j as int),
            decreases self.edges@.len() - j,
        {
            edges.push(self.edges[j]);
            j = j + 1;
        }
        assert(vertices@ == self.vertices@.take(i as int));
        assert(self.vertices@.take(i as int) == self.vertices@);
        assert(self.edges@.take(j as int) == self.edges@);
        Tree { vertices, edges }
    }
}

impl Tree<Grammar> {
    /// Overwrites every vertex equal to `target` with `value`, and drops the
    /// edges that leave those vertices, so that each becomes a leaf.
    pub fn find_replace(&mut self, target: Grammar, value: Grammar)
        requires
            old(self).well_formed(),
        ensures
            final(self)@.0 == replaced(old(self)@.0, target, value),
            final(self)@.1 == edges_without_sources(old(self)@.0, old(self)@.1, target),
            final(self).well_formed(),
    {
        let mut kept: Vec<(usize, usize)> = Vec::new();
        let mut k: usize = 0;
        while k < self.edges.len()
            invariant
                k <= self.edges@.len(),
                self.well_formed(),
                kept@ == edges_without_sources(self.vertices@, self.edges@.take(k as int), target),
                forall|j: int| 0 <= j < kept@.len() ==> joins(#[trigger] kept@[j], self.vertices@.len()),
            decreases self.edges@.len() - k,
        {
            assert(self.edges@.take(k + 1).drop_last() == self.edges@.take(k as int));
            let edge = self.edges[k];
            assert(joins(self@.1[k as int], self@.0.len()));
            if !(self.vertices[edge.0] == target) {
                kept.push(edge);
            }
            k = k + 1;
        }
        assert(self.edges@.take(k as int) == self.edges@);
        let mut i: usize = 0;
        while i < self.vertices.len()
            invariant
                i <= self.vertices@.len(),
                self.vertices@.len() == old(self).vertices@.len(),
                forall|j: int| 0 <= j < i ==> #[trigger] self.vertices@[j] == if old(self).vertices@[j] == target {
                    value
                } else {
                    old(self).vertices@[j]
                },
                forall|j: int| i <= j < self.vertices@.len() ==> #[trigger] self.vertices@[j] == old(self).vertices@[j],
            decreases self.vertices@.len() - i,
        {
            if self.vertices[i] == target {
                self.vertices.set(i, value);
            }
            i = i + 1;
        }
        self.edges = kept;
        assert(self.vertices@ == replaced(old(self)@.0, target, value));
    }
}

} // verus!
