use vstd::prelude::*;

use crate::body::BodyTree;
use crate::resolver::{get_body_by_id, lemma_resolved_path_is_id};

verus! {

/// Auxiliary edges between bodies (constellation lines), each end held as
/// the arena index of a body.
pub struct Constellation {
    edges: Vec<(usize, usize)>,
}

/// The serialisable form of a constellation: each end of an edge is held as
/// the id of a body, the child positions that lead to it from the root.
pub struct Weak {
    edges: Vec<(Vec<usize>, Vec<usize>)>,
}

impl View for Constellation {
    type V = Seq<(usize, usize)>;

    closed spec fn view(&self) -> Seq<(usize, usize)> {
        self.edges@
    }
}

/// The ids of a list of edges.
pub open spec fn paths_of(es: Seq<(Vec<usize>, Vec<usize>)>) -> Seq<(Seq<usize>, Seq<usize>)> {
    es.map_values(|e: (Vec<usize>, Vec<usize>)| (e.0@, e.1@))
}

impl View for Weak {
    type V = Seq<(Seq<usize>, Seq<usize>)>;

    closed spec fn view(&self) -> Seq<(Seq<usize>, Seq<usize>)> {
        paths_of(self.edges@)
    }
}

/// The edges of `es` whose two ends both resolve in `tree`, in order, each
/// replaced by the pair of bodies it resolves to.
pub open spec fn upgraded<T>(tree: &BodyTree<T>, es: Seq<(Seq<usize>, Seq<usize>)>) -> Seq<
    (usize, usize),
>
    decreases es.len(),
{
    if es.len() == 0 {
        Seq::empty()
    } else {
        let prev = upgraded(tree, es.drop_last());
        match (tree.walk(0, es.last().0), tree.walk(0, es.last().1)) {
            (Some(a), Some(b)) => prev.push((a, b)),
            _ => prev,
        }
    }
}

/// The edges of `es` whose two ends both resolve in `tree`, in order.
pub open spec fn resolvable<T>(tree: &BodyTree<T>, es: Seq<(Seq<usize>, Seq<usize>)>) -> Seq<
    (Seq<usize>, Seq<usize>),
>
    decreases es.len(),
{
    if es.len() == 0 {
        Seq::empty()
    } else {
        let prev = resolvable(tree, es.drop_last());
        if tree.walk(0, es.last().0) is Some && tree.walk(0, es.last().1) is Some {
            prev.push(es.last())
        } else {
            prev
        }
    }
}

/// The edges of `es`, in order, each replaced by the ids of its two ends;
/// an edge is left out where an end is not a body of `tree`, and every edge
/// is left out where the owner links of `tree` are not filled in.
pub open spec fn downgraded<T>(tree: &BodyTree<T>, es: Seq<(usize, usize)>) -> Seq<
    (Seq<usize>, Seq<usize>),
>
    decreases es.len(),
{
    if es.len() == 0 {
        Seq::empty()
    } else {
        let prev = downgraded(tree, es.drop_last());
        let e = es.last();
        if tree.is_hydrated() && e.0 < tree.size() && e.1 < tree.size() {
            prev.push((tree.path(e.0 as int), tree.path(e.1 as int)))
        } else {
            prev
        }
    }
}

impl Constellation {
    /// A constellation with the given edges.
    pub fn new(edges: Vec<(usize, usize)>) -> (r: Self)
        ensures
            r@ == edges@,
    {
        Constellation { edges }
    }

    /// The edges, in order.
    pub fn edges(&self) -> (r: &Vec<(usize, usize)>)
        ensures
            r@ == self@,
    {
        &self.edges
    }
}

impl Weak {
    /// A weak constellation with the given edges.
    pub fn new(edges: Vec<(Vec<usize>, Vec<usize>)>) -> (r: Self)
        ensures
            r@ == paths_of(edges@),
    {
        Weak { edges }
    }

    /// The edges, in order.
    pub fn edges(&self) -> (r: &Vec<(Vec<usize>, Vec<usize>)>)
        ensures
            paths_of(r@) == self@,
    {
        &self.edges
    }

    /// Resolves both ends of every edge against `root`, dropping each edge
    /// with an end that does not resolve.
    pub fn upgrade<T>(self, root: &BodyTree<T>) -> (r: Constellation)
        requires
            root.wf(),
        ensures
            r@ == upgraded(root, self@),
    {
        let mut new_edges: Vec<(usize, usize)> = Vec::new();
        let n = self.edges.len();
        let mut i: usize = 0;
        while i < n
            invariant
                root.wf(),
                n == self@.len(),
                i <= n,
                new_edges@ == upgraded(root, self@.take(i as int)),
            decreases n - i,
        {
            let ghost e = self@[i as int];
            assert(self@.take(i + 1).drop_last() =~= self@.take(i as int));
            assert(self@.take(i + 1).last() == e);
            let a = get_body_by_id(self.edges[i].0.as_slice(), root);
            let b = get_body_by_id(self.edges[i].1.as_slice(), root);
            if let Some(body_a) = a {
                if let Some(body_b) = b {
                    new_edges.push((body_a, body_b));
                }
            }
            i = i + 1;
        }
        assert(self@.take(n as int) =~= self@);
        Constellation { edges: new_edges }
    }

    /// Replaces both ends of every edge by their ids in `tree`, dropping
    /// each edge with an end whose id cannot be read.
    pub fn from_constellation<T>(value: Constellation, tree: &BodyTree<T>) -> (r: Weak)
        requires
            tree.wf(),
        ensures
            r@ == downgraded(tree, value@),
    {
        let mut edges: Vec<(Vec<usize>, Vec<usize>)> = Vec::new();
        let n = value.edges.len();
        let mut i: usize = 0;
        while i < n
            invariant
                tree.wf(),
                n == value@.len(),
                i <= n,
                paths_of(edges@) == downgraded(tree, value@.take(i as int)),
            decreases n - i,
        {
            assert(value@.take(i + 1).drop_last() =~= value@.take(i as int));
            assert(value@.take(i + 1).last() == value@[i as int]);
            let (a, b) = value.edges[i];
            let id_a = tree.id(a);
            let id_b = tree.id(b);
            if let Some(path_a) = id_a {
                if let Some(path_b) = id_b {
                    let ghost before = edges@;
                    edges.push((path_a, path_b));
                    assert(paths_of(edges@) =~= paths_of(before).push(
                        (tree.path(a as int), tree.path(b as int)),
                    ));
                }
            }
            i = i + 1;
        }
        assert(value@.take(n as int) =~= value@);
        Weak { edges }
    }
}

/// Upgrading a weak constellation and turning the result back into ids
/// gives exactly the edges whose ends resolved: each resolved body carries
/// the id it was found by.
pub proof fn lemma_upgrade_then_downgrade<T>(tree: &BodyTree<T>, es: Seq<(Seq<usize>, Seq<usize>)>)
    requires
        tree.wf(),
        tree.is_hydrated(),
    ensures
        downgraded(tree, upgraded(tree, es)) == resolvable(tree, es),
    decreases es.len(),
{
    if es.len() > 0 {
        lemma_upgrade_then_downgrade(tree, es.drop_last());
        let e = es.last();
        let u = upgraded(tree, es.drop_last());
        if tree.walk(0, e.0) is Some && tree.walk(0, e.1) is Some {
            lemma_resolved_path_is_id(tree, e.0);
            lemma_resolved_path_is_id(tree, e.1);
            let a = tree.walk(0, e.0)->0;
            let b = tree.walk(0, e.1)->0;
            assert(u.push((a, b)).drop_last() =~= u);
            assert(downgraded(tree, u.push((a, b))) == downgraded(tree, u).push(
                (tree.path(a as int), tree.path(b as int)),
            ));
        }
    }
}

} // verus!
