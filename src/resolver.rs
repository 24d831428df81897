use vstd::prelude::*;

use crate::body::BodyTree;

verus! {

/// Finds the body whose id is `id`, walking from the root of `root` one
/// child position per element. `None` where a position is out of range.
pub fn get_body_by_id<T>(id: &[usize], root: &BodyTree<T>) -> (r: Option<usize>)
    requires
        root.wf(),
    ensures
        r == root.walk(0, id@),
        r matches Some(n) ==> n < root.size(),
{
    let mut cur: usize = 0;
    let mut i: usize = 0;
    assert(id@.subrange(0, id@.len() as int) =~= id@);
    while i < id.len()
        invariant
            root.wf(),
            cur < root.size(),
            i <= id@.len(),
            root.walk(0, id@) == root.walk(cur, id@.subrange(i as int, id@.len() as int)),
        decreases id@.len() - i,
    {
        let ghost rest = id@.subrange(i as int, id@.len() as int);
        assert(rest.drop_first() =~= id@.subrange(i + 1, id@.len() as int));
        let kids = root.children(cur);
        if id[i] < kids.len() {
            cur = kids[id[i]];
            i = i + 1;
        } else {
            return None;
        }
    }
    assert(id@.subrange(i as int, id@.len() as int) =~= Seq::<usize>::empty());
    Some(cur)
}

/// Following a path extended by one position takes one more step from the
/// body that the path reaches.
pub proof fn lemma_walk_push<T>(tree: &BodyTree<T>, from: usize, path: Seq<usize>, k: usize)
    ensures
        tree.walk(from, path.push(k)) == match tree.walk(from, path) {
            Some(m) => if (k as int) < tree.kids(m as int).len() {
                Some(tree.kids(m as int)[k as int])
            } else {
                None
            },
            None => None,
        },
    decreases path.len(),
{
    if path.len() == 0 {
        assert(path.push(k).drop_first() =~= Seq::<usize>::empty());
        assert(path.push(k)[0] == k);
        if (k as int) < tree.kids(from as int).len() {
            assert(tree.walk(tree.kids(from as int)[k as int], Seq::<usize>::empty()) == Some(
                tree.kids(from as int)[k as int],
            ));
        }
    } else {
        assert(path.push(k).drop_first() =~= path.drop_first().push(k));
        assert(path.push(k)[0] == path[0]);
        if (path[0] as int) < tree.kids(from as int).len() {
            lemma_walk_push(tree, tree.kids(from as int)[path[0] as int], path.drop_first(), k);
        }
    }
}

/// In a hydrated tree, resolving the id of any body leads back to that
/// body.
pub proof fn lemma_resolve_id<T>(tree: &BodyTree<T>, n: usize)
    requires
        tree.wf(),
        tree.is_hydrated(),
        n < tree.size(),
    ensures
        tree.walk(0, tree.path(n as int)) == Some(n),
    decreases n,
{
    if n > 0 {
        let p = tree.up(n as int)->0;
        assert(tree.owns(p as int, n as int));
        let k = tree.slot(p as int, n as int);
        assert(tree.kids(p as int)[k] == n);
        assert(p < n);
        tree.lemma_kids_len(p as int);
        assert(tree.path(n as int) == tree.path(p as int).push(k as usize));
        lemma_resolve_id(tree, p);
        lemma_walk_push(tree, 0, tree.path(p as int), k as usize);
        assert(0 <= k < tree.kids(p as int).len());
    } else {
        assert(tree.path(0) =~= Seq::<usize>::empty());
    }
}

/// In a hydrated tree, every path that resolves is the id of the body that
/// it reaches.
pub proof fn lemma_resolved_path_is_id<T>(tree: &BodyTree<T>, path: Seq<usize>)
    requires
        tree.wf(),
        tree.is_hydrated(),
        tree.walk(0, path) is Some,
    ensures
        tree.walk(0, path)->0 < tree.size(),
        tree.path(tree.walk(0, path)->0 as int) == path,
    decreases path.len(),
{
    if path.len() == 0 {
        assert(tree.path(0) == path);
    } else {
        let front = path.drop_last();
        let k = path.last();
        assert(front.push(k) =~= path);
        lemma_walk_push(tree, 0, front, k);
        lemma_resolved_path_is_id(tree, front);
        let m = tree.walk(0, front)->0;
        tree.lemma_kids_len(m as int);
        let n = tree.kids(m as int)[k as int];
        assert(m < n < tree.size());
        assert(tree.up(n as int) is Some);
        let p = tree.up(n as int)->0;
        assert(tree.owns(p as int, n as int));
        let j = choose|j: int| 0 <= j < tree.kids(p as int).len() && tree.kids(p as int)[j] == n;
        assert(tree.kids(p as int)[j] == tree.kids(m as int)[k as int]);
        let s = tree.slot(p as int, n as int);
        assert(tree.kids(p as int)[s] == tree.kids(m as int)[k as int]);
    }
}

} // verus!
