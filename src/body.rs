use vstd::prelude::*;

verus! {

/// A hierarchy of celestial bodies stored as an arena.
///
/// Body `0` is the root. Each body owns an ordered list of children, named by
/// their arena index, and holds a non-owning link to its owner once the tree
/// has been hydrated. A child is always stored after its owner, so the owner
/// links can never form a cycle.
pub struct BodyTree<T> {
    data: Vec<T>,
    children: Vec<Vec<usize>>,
    parents: Vec<Option<usize>>,
    hydrated: bool,
}

impl<T> BodyTree<T> {
    /// Number of bodies in the tree.
    pub closed spec fn size(&self) -> nat {
        self.data@.len()
    }

    /// Children of body `i`, in order.
    pub closed spec fn kids(&self, i: int) -> Seq<usize> {
        self.children@[i]@
    }

    /// The owner link of body `i`, as it is currently stored.
    pub closed spec fn up(&self, i: int) -> Option<usize> {
        self.parents@[i]
    }

    /// The payload of body `i`.
    pub closed spec fn datum(&self, i: int) -> T {
        self.data@[i]
    }

    /// Whether the owner links have been filled in since the last change.
    pub closed spec fn is_hydrated(&self) -> bool {
        self.hydrated
    }

    /// Body `i` lists body `j` among its children.
    pub open spec fn owns(&self, i: int, j: int) -> bool {
        &&& 0 <= i < self.size()
        &&& exists|k: int| 0 <= k < self.kids(i).len() && self.kids(i)[k] == j
    }

    /// Some body lists body `j` among its children.
    pub open spec fn has_owner(&self, j: int) -> bool {
        exists|i: int| #[trigger] self.owns(i, j)
    }

    /// Every stored owner link agrees with the child lists.
    pub open spec fn links_agree(&self) -> bool {
        &&& self.up(0) is None
        &&& forall|j: int|
            0 < j < self.size() && (#[trigger] self.up(j)) is Some ==> self.owns(
                self.up(j)->0 as int,
                j,
            )
    }

    /// Every body but the root has its owner link filled in.
    pub open spec fn links_complete(&self) -> bool {
        forall|j: int| 0 < j < self.size() ==> (#[trigger] self.up(j)) is Some
    }

    /// The arena describes one tree rooted at body `0`: children are stored
    /// after their owner, every other body is listed exactly once as a child,
    /// and the owner links agree with the child lists.
    pub open spec fn wf(&self) -> bool {
        &&& self.size() > 0
        &&& self.shape_ok()
        &&& forall|i: int, k: int|
            0 <= i < self.size() && 0 <= k < self.kids(i).len() ==> i < #[trigger] self.kids(
                i,
            )[k] < self.size()
        &&& forall|j: int| 0 < j < self.size() ==> #[trigger] self.has_owner(j)
        &&& forall|i1: int, k1: int, i2: int, k2: int|
            0 <= i1 < self.size() && 0 <= i2 < self.size() && 0 <= k1 < self.kids(i1).len() && 0
                <= k2 < self.kids(i2).len() && #[trigger] self.kids(i1)[k1] == #[trigger] self.kids(
                i2,
            )[k2] ==> i1 == i2 && k1 == k2
        &&& self.links_agree()
        &&& self.is_hydrated() ==> self.links_complete()
    }

    /// The three arena columns have one entry per body.
    pub closed spec fn shape_ok(&self) -> bool {
        &&& self.children@.len() == self.data@.len()
        &&& self.parents@.len() == self.data@.len()
    }

    /// Position of body `j` within the child list of body `p`.
    pub open spec fn slot(&self, p: int, j: int) -> int {
        choose|k: int| 0 <= k < self.kids(p).len() && self.kids(p)[k] == j
    }

    /// The id of body `j`: the child positions that lead from the root to it,
    /// read off the owner links.
    pub open spec fn path(&self, j: int) -> Seq<usize>
        decreases j,
    {
        if 0 < j < self.size() && self.up(j) is Some && (self.up(j)->0 as int) < j {
            self.path(self.up(j)->0 as int).push(self.slot(self.up(j)->0 as int, j) as usize)
        } else {
            Seq::empty()
        }
    }

    /// Body `j` followed by its owners, read off the owner links, up to the
    /// first body without one.
    pub open spec fn chain(&self, j: int) -> Seq<usize>
        decreases j,
    {
        if 0 < j < self.size() && self.up(j) is Some && (self.up(j)->0 as int) < j {
            seq![j as usize] + self.chain(self.up(j)->0 as int)
        } else {
            seq![j as usize]
        }
    }

    /// The body reached from body `from` by following `path`, one child
    /// position per element; `None` where a position is out of range.
    pub open spec fn walk(&self, from: usize, path: Seq<usize>) -> Option<usize>
        decreases path.len(),
    {
        if path.len() == 0 {
            Some(from)
        } else if (path[0] as int) < self.kids(from as int).len() {
            self.walk(self.kids(from as int)[path[0] as int], path.drop_first())
        } else {
            None
        }
    }

    /// A tree that holds only a root body.
    pub fn new(root: T) -> (r: Self)
        ensures
            r.wf(),
            r.size() == 1,
            r.kids(0) == Seq::<usize>::empty(),
            r.datum(0) == root,
            r.is_hydrated(),
    {
        let mut data: Vec<T> = Vec::new();
        data.push(root);
        let mut children: Vec<Vec<usize>> = Vec::new();
        children.push(Vec::new());
        let mut parents: Vec<Option<usize>> = Vec::new();
        parents.push(None);
        let r = BodyTree { data, children, parents, hydrated: true };
        r
    }

    /// Number of bodies in the tree.
    pub fn len(&self) -> (r: usize)
        requires
            self.wf(),
        ensures
            r == self.size(),
    {
        self.data.len()
    }

    /// Whether the owner links are filled in.
    pub fn hydrated(&self) -> (r: bool)
        ensures
            r == self.is_hydrated(),
    {
        self.hydrated
    }

    /// The payload of body `i`.
    pub fn get(&self, i: usize) -> (r: &T)
        requires
            self.wf(),
            i < self.size(),
        ensures
            *r == self.datum(i as int),
    {
        &self.data[i]
    }

    /// The children of body `i`, in order.
    pub fn children(&self, i: usize) -> (r: &Vec<usize>)
        requires
            self.wf(),
            i < self.size(),
        ensures
            r@ == self.kids(i as int),
    {
        &self.children[i]
    }

    /// The owner of body `i`, as stored; `None` for the root and for a body
    /// whose link has not been filled in yet.
    pub fn parent(&self, i: usize) -> (r: Option<usize>)
        requires
            self.wf(),
            i < self.size(),
        ensures
            r == self.up(i as int),
    {
        self.parents[i]
    }

    /// Appends a new body as the last child of `parent` and returns its
    /// index. Only the forward link is recorded: the tree is no longer
    /// hydrated until `hydrate` runs again.
    pub fn add_child(&mut self, parent: usize, data: T) -> (r: usize)
        requires
            old(self).wf(),
            parent < old(self).size(),
            old(self).size() < usize::MAX,
        ensures
            final(self).wf(),
            r == old(self).size(),
            final(self).size() == old(self).size() + 1,
            final(self).datum(r as int) == data,
            final(self).kids(r as int) == Seq::<usize>::empty(),
            final(self).up(r as int) is None,
            final(self).kids(parent as int) == old(self).kids(parent as int).push(r),
            forall|i: int|
                0 <= i < old(self).size() && i != parent ==> final(self).kids(i) == old(
                    self,
                ).kids(i),
            forall|i: int| 0 <= i < old(self).size() ==> final(self).datum(i) == old(self).datum(i),
            forall|i: int| 0 <= i < old(self).size() ==> final(self).up(i) == old(self).up(i),
            !final(self).is_hydrated(),
    {
        let r = self.data.len();
        let ghost pre = *self;
        self.data.push(data);
        self.children.push(Vec::new());
        self.parents.push(None);
        let mut list: Vec<usize> = Vec::new();
        self.children.set_and_swap(parent, &mut list);
        list.push(r);
        self.children.set_and_swap(parent, &mut list);
        self.hydrated = false;
        assert(self.kids(parent as int) == pre.kids(parent as int).push(r));
        assert forall|i: int| 0 <= i < pre.size() implies self.kids(i) == pre.kids(i) || i
            == parent by {}
        assert forall|i: int, k: int|
            0 <= i < self.size() && 0 <= k < self.kids(i).len() implies i < #[trigger] self.kids(
            i,
        )[k] < self.size() by {
            if i != parent && i < pre.size() {
                assert(self.kids(i) == pre.kids(i));
            }
        }
        assert forall|j: int| 0 < j < self.size() implies #[trigger] self.has_owner(j) by {
            if j == r {
                assert(self.kids(parent as int)[pre.kids(parent as int).len() as int] == j);
                assert(self.owns(parent as int, j));
            } else {
                assert(pre.has_owner(j));
                let i = choose|i: int| #[trigger] pre.owns(i, j);
                let k = choose|k: int| 0 <= k < pre.kids(i).len() && pre.kids(i)[k] == j;
                if i == parent {
                    assert(self.kids(i)[k] == j);
                } else {
                    assert(self.kids(i) == pre.kids(i));
                }
                assert(self.owns(i, j));
            }
        }
        assert forall|i1: int, k1: int, i2: int, k2: int|
            0 <= i1 < self.size() && 0 <= i2 < self.size() && 0 <= k1 < self.kids(i1).len() && 0
                <= k2 < self.kids(i2).len() && #[trigger] self.kids(i1)[k1] == #[trigger] self.kids(
                i2,
            )[k2] implies i1 == i2 && k1 == k2 by {
            if i1 != parent && i1 < pre.size() {
                assert(self.kids(i1) == pre.kids(i1));
            }
            if i2 != parent && i2 < pre.size() {
                assert(self.kids(i2) == pre.kids(i2));
            }
            if i1 == parent && k1 == pre.kids(i1).len() {
                if !(i2 == parent && k2 == pre.kids(i2).len()) {
                    assert(pre.kids(i2)[k2] < pre.size());
                }
            } else if i2 == parent && k2 == pre.kids(i2).len() {
                assert(pre.kids(i1)[k1] < pre.size());
            }
        }
        assert forall|j: int|
            0 < j < self.size() && (#[trigger] self.up(j)) is Some implies self.owns(
            self.up(j)->0 as int,
            j,
        ) by {
            let p = self.up(j)->0 as int;
            if j == r {
                assert(self.up(j) is None);
            }
            assert(self.up(j) == pre.up(j));
            assert(pre.owns(p, j));
            let k = choose|k: int| 0 <= k < pre.kids(p).len() && pre.kids(p)[k] == j;
            if p == parent {
                assert(self.kids(p)[k] == j);
            } else {
                assert(self.kids(p) == pre.kids(p));
            }
        }
        r
    }

    /// A child list is held in memory, so its length fits in a `usize`.
    pub proof fn lemma_kids_len(&self, i: int)
        requires
            self.wf(),
            0 <= i < self.size(),
        ensures
            self.kids(i).len() <= usize::MAX,
    {
        assert(self.children@[i].len() == self.children@[i]@.len());
    }

    /// A tree with the same bodies and child lists as a well-formed one is
    /// well-formed as soon as its own owner links agree with those lists.
    proof fn lemma_frame(a: Self, b: Self)
        requires
            a.wf(),
            b.data == a.data,
            b.children == a.children,
            b.parents@.len() == a.parents@.len(),
            b.links_agree(),
            b.is_hydrated() ==> b.links_complete(),
        ensures
            b.wf(),
    {
        assert forall|i: int, k: int|
            0 <= i < b.size() && 0 <= k < b.kids(i).len() implies i < #[trigger] b.kids(i)[k]
            < b.size() by {
            assert(b.kids(i) == a.kids(i));
        }
        assert forall|j: int| 0 < j < b.size() implies #[trigger] b.has_owner(j) by {
            assert(a.has_owner(j));
            let o = choose|o: int| #[trigger] a.owns(o, j);
            assert(b.kids(o) == a.kids(o));
            assert(b.owns(o, j));
        }
        assert forall|i1: int, k1: int, i2: int, k2: int|
            0 <= i1 < b.size() && 0 <= i2 < b.size() && 0 <= k1 < b.kids(i1).len() && 0 <= k2
                < b.kids(i2).len() && #[trigger] b.kids(i1)[k1] == #[trigger] b.kids(i2)[k2] implies i1
            == i2 && k1 == k2 by {
            assert(b.kids(i1) == a.kids(i1));
            assert(b.kids(i2) == a.kids(i2));
            assert(a.kids(i1)[k1] == a.kids(i2)[k2]);
        }
    }

    /// The arena index `k` at which body `j` stands among the children of `p`.
    fn slot_of(&self, p: usize, j: usize) -> (r: usize)
        requires
            self.wf(),
            self.owns(p as int, j as int),
        ensures
            r as int == self.slot(p as int, j as int),
            r < self.kids(p as int).len(),
            self.kids(p as int)[r as int] == j,
    {
        let list = &self.children[p];
        let mut k: usize = 0;
        while k < list.len()
            invariant
                self.wf(),
                self.owns(p as int, j as int),
                list@ == self.kids(p as int),
                k <= list.len(),
                forall|m: int| 0 <= m < k ==> list@[m] != j,
            decreases list.len() - k,
        {
            if list[k] == j {
                proof {
                    let s = self.slot(p as int, j as int);
                    assert(self.kids(p as int)[k as int] == self.kids(p as int)[s]);
                }
                return k;
            }
            k = k + 1;
        }
        proof {
            let m = choose|m: int| 0 <= m < self.kids(p as int).len() && self.kids(p as int)[m] == j;
            assert(list@[m] == j);
        }
        0
    }

    /// Fills in every body's owner link from the child lists, in one pass
    /// from the root down. Running it again gives the same tree.
    pub fn hydrate(&mut self)
        requires
            old(self).wf(),
        ensures
            final(self).wf(),
            final(self).is_hydrated(),
            final(self).size() == old(self).size(),
            forall|i: int|
                0 <= i < final(self).size() ==> final(self).kids(i) == old(self).kids(i)
                    && final(self).datum(i) == old(self).datum(i),
            forall|i: int, k: int|
                0 <= i < final(self).size() && 0 <= k < final(self).kids(i).len() ==> final(self).up(
                    #[trigger] final(self).kids(i)[k] as int,
                ) == Some(i as usize),
    {
        let ghost pre = *self;
        let n = self.data.len();
        let mut i: usize = 0;
        while i < n
            invariant
                n == pre.size(),
                0 <= i <= n,
                self.data == pre.data,
                self.children == pre.children,
                self.hydrated == pre.hydrated,
                self.wf(),
                forall|i1: int, k1: int|
                    0 <= i1 < i && 0 <= k1 < self.kids(i1).len() ==> self.up(
                        #[trigger] self.kids(i1)[k1] as int,
                    ) == Some(i1 as usize),
            decreases n - i,
        {
            let len = self.children[i].len();
            let mut k: usize = 0;
            while k < len
                invariant
                    n == pre.size(),
                    0 <= i < n,
                    0 <= k <= len,
                    len == self.kids(i as int).len(),
                    self.data == pre.data,
                    self.children == pre.children,
                    self.hydrated == pre.hydrated,
                    self.wf(),
                    forall|i1: int, k1: int|
                        (0 <= i1 < i && 0 <= k1 < self.kids(i1).len()) || (i1 == i && 0 <= k1 < k)
                            ==> self.up(#[trigger] self.kids(i1)[k1] as int) == Some(i1 as usize),
                decreases len - k,
            {
                let c = self.children[i][k];
                let ghost before = *self;
                self.parents.set(c, Some(i));
                proof {
                    assert(self.kids(i as int) == before.kids(i as int));
                    assert(before.kids(i as int)[k as int] == c);
                    assert(self.owns(i as int, c as int));
                    assert forall|j: int|
                        0 < j < self.size() && (#[trigger] self.up(j)) is Some implies self.owns(
                        self.up(j)->0 as int,
                        j,
                    ) by {
                        if j != c {
                            assert(self.up(j) == before.up(j));
                            let o = self.up(j)->0 as int;
                            assert(before.owns(o, j));
                            assert(self.kids(o) == before.kids(o));
                        }
                    }
                    assert forall|j: int|
                        before.is_hydrated() && 0 < j < self.size() implies (#[trigger] self.up(
                        j,
                    )) is Some by {
                        if j != c {
                            assert(self.up(j) == before.up(j));
                        }
                    }
                    Self::lemma_frame(before, *self);
                    assert forall|i1: int, k1: int|
                        (0 <= i1 < i && 0 <= k1 < self.kids(i1).len()) || (i1 == i && 0 <= k1
                            <= k) implies self.up(#[trigger] self.kids(i1)[k1] as int) == Some(
                        i1 as usize,
                    ) by {
                        assert(self.kids(i1) == before.kids(i1));
                        if !(i1 == i && k1 == k) {
                            assert(before.kids(i1)[k1] != before.kids(i as int)[k as int]);
                            assert(self.up(self.kids(i1)[k1] as int) == before.up(
                                before.kids(i1)[k1] as int,
                            ));
                        }
                    }
                }
                k = k + 1;
            }
            i = i + 1;
        }
        let ghost done = *self;
        proof {
            assert forall|j: int| 0 < j < self.size() implies (#[trigger] self.up(j)) is Some by {
                assert(self.has_owner(j));
                let o = choose|o: int| #[trigger] self.owns(o, j);
                let m = choose|m: int| 0 <= m < self.kids(o).len() && self.kids(o)[m] == j;
                assert(self.up(self.kids(o)[m] as int) == Some(o as usize));
            }
        }
        self.hydrated = true;
        proof {
            assert forall|j: int| 0 < j < self.size() implies (#[trigger] self.up(j)) is Some by {
                assert(done.up(j) is Some);
            }
            assert forall|j: int|
                0 < j < self.size() && (#[trigger] self.up(j)) is Some implies self.owns(
                self.up(j)->0 as int,
                j,
            ) by {
                assert(done.up(j) == self.up(j));
                let o = self.up(j)->0 as int;
                assert(done.owns(o, j));
                assert(self.kids(o) == done.kids(o));
            }
            Self::lemma_frame(done, *self);
            assert forall|i1: int, k1: int|
                0 <= i1 < self.size() && 0 <= k1 < self.kids(i1).len() implies self.up(
                #[trigger] self.kids(i1)[k1] as int,
            ) == Some(i1 as usize) by {
                assert(self.kids(i1) == done.kids(i1));
                assert(done.up(done.kids(i1)[k1] as int) == Some(i1 as usize));
            }
        }
    }

    /// The id of body `n`: the child positions that lead from the root to
    /// it. `None` where `n` is not a body of the tree, or where the owner
    /// links have not been filled in since the tree last changed.
    pub fn id(&self, n: usize) -> (r: Option<Vec<usize>>)
        requires
            self.wf(),
        ensures
            r is Some <==> (self.is_hydrated() && n < self.size()),
            r matches Some(v) ==> v@ == self.path(n as int),
    {
        if !self.hydrated || n >= self.data.len() {
            return None;
        }
        let mut acc: Vec<usize> = Vec::new();
        let mut cur: usize = n;
        while cur != 0
            invariant
                self.wf(),
                self.is_hydrated(),
                cur < self.size(),
                self.path(n as int) == self.path(cur as int) + acc@,
            decreases cur,
        {
            assert(self.up(cur as int) is Some);
            let p = self.parents[cur].unwrap();
            let k = self.slot_of(p, cur);
            proof {
                assert(self.kids(p as int)[k as int] > p);
                assert(self.path(cur as int) == self.path(p as int).push(k));
                assert(self.path(p as int).push(k) + acc@ =~= self.path(p as int) + acc@.insert(0, k));
            }
            acc.insert(0, k);
            cur = p;
        }
        assert(self.path(n as int) =~= acc@);
        Some(acc)
    }

    /// Body `n` followed by each of its owners in turn, ending at the root.
    /// `None` where `n` is not a body of the tree, or where the owner links
    /// have not been filled in since the tree last changed.
    pub fn ancestors(&self, n: usize) -> (r: Option<Vec<usize>>)
        requires
            self.wf(),
        ensures
            r is Some <==> (self.is_hydrated() && n < self.size()),
            r matches Some(v) ==> v@ == self.chain(n as int),
    {
        if !self.hydrated || n >= self.data.len() {
            return None;
        }
        let mut acc: Vec<usize> = Vec::new();
        acc.push(n);
        let mut cur: usize = n;
        while cur != 0
            invariant
                self.wf(),
                self.is_hydrated(),
                cur < self.size(),
                acc@.len() >= 1,
                acc@.last() == cur,
                self.chain(n as int) == acc@.drop_last() + self.chain(cur as int),
            decreases cur,
        {
            assert(self.up(cur as int) is Some);
            let p = self.parents[cur].unwrap();
            proof {
                let k = choose|k: int| 0 <= k < self.kids(p as int).len() && self.kids(p as int)[k] == cur;
                assert(self.kids(p as int)[k] > p);
                assert(self.chain(cur as int) == seq![cur] + self.chain(p as int));
                assert(acc@.drop_last() + (seq![cur] + self.chain(p as int)) =~= acc@.push(p).drop_last() + self.chain(p as int));
            }
            acc.push(p);
            cur = p;
        }
        assert(self.chain(0) == seq![0usize]);
        assert(acc@ =~= acc@.drop_last() + seq![0usize]);
        Some(acc)
    }

    /// Every body of the tree but `anchor`, in arena order, which lists each
    /// owner before its children: the bodies that an observer standing on
    /// `anchor` looks at, in an order that lets positions be summed from the
    /// root down in one pass.
    pub fn others(&self, anchor: usize) -> (r: Vec<usize>)
        requires
            self.wf(),
        ensures
            r@.len() == if anchor < self.size() {
                self.size() - 1
            } else {
                self.size() as int
            },
            forall|m: int|
                0 <= m < r@.len() ==> #[trigger] r@[m] as int == if m < anchor {
                    m
                } else {
                    m + 1
                },
    {
        let n = self.data.len();
        let mut r: Vec<usize> = Vec::new();
        let mut i: usize = 0;
        while i < n
            invariant
                n == self.size(),
                i <= n,
                r@.len() == if anchor < i {
                    i - 1
                } else {
                    i as int
                },
                forall|m: int|
                    0 <= m < r@.len() ==> #[trigger] r@[m] as int == if m < anchor {
                        m
                    } else {
                        m + 1
                    },
            decreases n - i,
        {
            if i != anchor {
                r.push(i);
            }
            i = i + 1;
        }
        r
    }

    /// Once hydrated, walking the owner links from any body reaches the root,
    /// and every step goes to the body that lists the previous one among its
    /// children: the links are exactly the ownership the tree was built with.
    pub proof fn lemma_chain_follows_owners(&self, n: int)
        requires
            self.wf(),
            self.is_hydrated(),
            0 <= n < self.size(),
        ensures
            self.chain(n).len() == self.path(n).len() + 1,
            self.chain(n)[0] == n,
            self.chain(n).last() == 0,
            forall|m: int|
                0 <= m < self.chain(n).len() - 1 ==> self.owns(
                    #[trigger] self.chain(n)[m + 1] as int,
                    self.chain(n)[m] as int,
                ),
        decreases n,
    {
        if n > 0 {
            let p = self.up(n)->0 as int;
            assert(self.owns(p, n));
            let k = choose|k: int| 0 <= k < self.kids(p).len() && self.kids(p)[k] == n;
            assert(self.kids(p)[k] > p);
            self.lemma_chain_follows_owners(p);
            let c = self.chain(n);
            assert(c == seq![n as usize] + self.chain(p));
            assert forall|m: int| 0 <= m < c.len() - 1 implies self.owns(
                #[trigger] c[m + 1] as int,
                c[m] as int,
            ) by {
                if m > 0 {
                    assert(c[m] == self.chain(p)[m - 1]);
                    assert(c[m + 1] == self.chain(p)[(m - 1) + 1]);
                }
            }
        }
    }

    /// In a hydrated tree the owner links are fixed by the child lists alone:
    /// two hydrated trees with the same child lists have the same links, so
    /// hydrating again changes nothing.
    pub proof fn lemma_links_determined(a: &Self, b: &Self)
        requires
            a.wf(),
            b.wf(),
            a.is_hydrated(),
            b.is_hydrated(),
            a.size() == b.size(),
            forall|i: int| 0 <= i < a.size() ==> #[trigger] a.kids(i) == b.kids(i),
        ensures
            forall|j: int| 0 <= j < a.size() ==> #[trigger] a.up(j) == b.up(j),
    {
        assert forall|j: int| 0 <= j < a.size() implies #[trigger] a.up(j) == b.up(j) by {
            if j > 0 {
                assert(a.up(j) is Some);
                assert(b.up(j) is Some);
                let p = a.up(j)->0 as int;
                let q = b.up(j)->0 as int;
                assert(a.owns(p, j));
                assert(b.owns(q, j));
                let k = choose|k: int| 0 <= k < a.kids(p).len() && a.kids(p)[k] == j;
                let m = choose|m: int| 0 <= m < b.kids(q).len() && b.kids(q)[m] == j;
                assert(a.kids(q) == b.kids(q));
                assert(a.kids(p)[k] == a.kids(q)[m]);
            }
        }
    }
}

} // verus!
