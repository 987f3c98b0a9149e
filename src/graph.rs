//! An append-only tree kept in an arena: nodes refer to each other by index,
//! a child always stands after its parent, and the parent link does not own.
use vstd::prelude::*;
use crate::atomic_vec::AtomicInitVec;

verus! {

/// A handle on a node of a `Tree`.
#[derive(Copy, Clone, Debug, PartialEq, Eq, Structural)]
pub struct NodeRef {
    pub index: usize,
}

/// The link from a node to its parent.
#[derive(Copy, Clone, Debug, PartialEq, Eq, Structural)]
pub struct WeakNodeRef {
    pub index: usize,
}

impl WeakNodeRef {
    /// The parent node the link names.
    pub fn upgrade(&self) -> (r: NodeRef)
        ensures
            r.index == self.index,
    {
        NodeRef { index: self.index }
    }
}

pub struct Node<T> {
    data: T,
    parent: Option<WeakNodeRef>,
    children: AtomicInitVec<NodeRef>,
}

impl<T> Node<T> {
    pub closed spec fn spec_data(&self) -> T {
        self.data
    }

    pub closed spec fn spec_parent(&self) -> Option<WeakNodeRef> {
        self.parent
    }

    /// The children, once published.
    pub closed spec fn spec_children(&self) -> Option<Seq<NodeRef>> {
        self.children@
    }

    /// The children as a sequence, empty before they are published.
    pub open spec fn kids(&self) -> Seq<NodeRef> {
        match self.spec_children() {
            Some(s) => s,
            None => Seq::empty(),
        }
    }

    fn new(data: T) -> (r: Node<T>)
        ensures
            r.spec_data() == data,
            r.spec_parent() is None,
            r.spec_children() is None,
    {
        Node { data, parent: None, children: AtomicInitVec::new() }
    }

    pub fn parent(&self) -> (r: Option<&WeakNodeRef>)
        ensures
            r == match self.spec_parent() {
                Some(p) => Some(&p),
                None => None,
            },
    {
        self.parent.as_ref()
    }

    pub fn children(&self) -> (r: &[NodeRef])
        ensures
            r@ == self.kids(),
    {
        self.children.slice()
    }

    /// Drops the parent link.
    pub fn orphan(&mut self)
        ensures
            final(self).spec_parent() is None,
            final(self).spec_data() == old(self).spec_data(),
            final(self).spec_children() == old(self).spec_children(),
    {
        self.parent = None;
    }

    pub fn data(&self) -> (r: &T)
        ensures
            *r == self.spec_data(),
    {
        &self.data
    }

    pub fn data_mut(&mut self) -> (r: &mut T)
        ensures
            *r == old(self).spec_data(),
            final(self).spec_data() == *final(r),
            final(self).spec_parent() == old(self).spec_parent(),
            final(self).spec_children() == old(self).spec_children(),
    {
        &mut self.data
    }
}

/// The nodes of a search tree and which of them is the root.
pub struct Tree<T> {
    nodes: Vec<Node<T>>,
    root: NodeRef,
}

impl<T> Tree<T> {
    pub closed spec fn view(&self) -> Seq<Node<T>> {
        self.nodes@
    }

    pub closed spec fn spec_root(&self) -> NodeRef {
        self.root
    }

    pub open spec fn has(&self, r: NodeRef) -> bool {
        r.index < self@.len()
    }

    /// Parents stand before their children, children are listed in
    /// increasing order, each child's link names its parent, and the root
    /// has no parent.
    pub open spec fn wf(&self) -> bool {
        &&& self.has(self.spec_root())
        &&& self@[self.spec_root().index as int].spec_parent() is None
        &&& forall|i: int|
            0 <= i < self@.len() ==> match #[trigger] self@[i].spec_parent() {
                Some(p) => p.index < i,
                None => true,
            }
        &&& forall|i: int, j: int|
            0 <= i < self@.len() && 0 <= j < self@[i].kids().len() ==> {
                let k = #[trigger] self@[i].kids()[j].index;
                i < k < self@.len() && self@[k as int].spec_parent() == Some(WeakNodeRef { index: i as usize })
            }
        &&& forall|i: int, j1: int, j2: int|
            0 <= i < self@.len() && 0 <= j1 < j2 < self@[i].kids().len() ==> #[trigger] self@[i].kids()[j1].index
                < #[trigger] self@[i].kids()[j2].index
    }

    /// A tree of one node.
    pub fn new(data: T) -> (r: Tree<T>)
        ensures
            r.wf(),
            r@.len() == 1,
            r.spec_root().index == 0,
            r@[0].spec_data() == data,
            r@[0].spec_children() is None,
            r@[0].spec_parent() is None,
    {
        let mut nodes: Vec<Node<T>> = Vec::new();
        nodes.push(Node::new(data));
        Tree { nodes, root: NodeRef { index: 0 } }
    }

    pub fn root(&self) -> (r: NodeRef)
        ensures
            r == self.spec_root(),
    {
        self.root
    }

    pub fn len(&self) -> (r: usize)
        ensures
            r == self@.len(),
    {
        self.nodes.len()
    }

    pub fn get(&self, r: NodeRef) -> (n: &Node<T>)
        requires
            self.has(r),
        ensures
            *n == self@[r.index as int],
    {
        &self.nodes[r.index]
    }

    /// The node `r`, to change in place: its data, or its parent link,
    /// which it may drop.
    pub fn get_mut(&mut self, r: NodeRef) -> (n: &mut Node<T>)
        requires
            old(self).has(r),
        ensures
            *n == old(self)@[r.index as int],
            final(self)@ == old(self)@.update(r.index as int, *final(n)),
            final(self).spec_root() == old(self).spec_root(),
    {
        &mut self.nodes[r.index]
    }

    /// Replaces the data of a node; the shape of the tree stays.
    pub fn set_data(&mut self, r: NodeRef, data: T)
        requires
            old(self).has(r),
        ensures
            final(self).spec_root() == old(self).spec_root(),
            final(self)@.len() == old(self)@.len(),
            final(self)@[r.index as int].spec_data() == data,
            forall|i: int|
                0 <= i < old(self)@.len() ==> (#[trigger] final(self)@[i]).spec_parent() == old(self)@[i].spec_parent()
                    && final(self)@[i].spec_children() == old(self)@[i].spec_children()
                    && (i != r.index ==> final(self)@[i].spec_data() == old(self)@[i].spec_data()),
            old(self).wf() ==> final(self).wf(),
    {
        let mut node = self.nodes.remove(r.index);
        node.data = data;
        self.nodes.insert(r.index, node);
        assert(self@ =~= old(self)@.update(r.index as int, self@[r.index as int]));
        assert forall|i: int| 0 <= i < self@.len() implies #[trigger] self@[i].kids() == old(self)@[i].kids()
            && self@[i].spec_parent() == old(self)@[i].spec_parent() by {}
    }
}

/// `t1` is a copy of the nodes of `t0` below and at `r`, in the same order:
/// node `j` of `t1` was node `o[j]` of `t0`, with the same data, the copies
/// of the same children in the same order, and the copy of the same parent,
/// and `r` comes first, without parent.
pub open spec fn subtree_copy<T>(t0: Seq<Node<T>>, r: int, t1: Seq<Node<T>>, o: Seq<int>) -> bool {
    &&& o.len() == t1.len()
    &&& o.len() >= 1
    &&& o[0] == r
    &&& t1[0].spec_parent() is None
    &&& forall|j: int| 0 <= j < o.len() ==> 0 <= #[trigger] o[j] < t0.len()
    &&& forall|j1: int, j2: int| 0 <= j1 < j2 < o.len() ==> #[trigger] o[j1] < #[trigger] o[j2]
    &&& forall|j: int| 0 <= j < o.len() ==> (#[trigger] t1[j]).spec_data() == t0[o[j]].spec_data()
    &&& forall|j: int| 0 <= j < o.len() ==> (#[trigger] t1[j]).kids().len() == t0[o[j]].kids().len()
    &&& forall|j: int, q: int|
        0 <= j < o.len() && 0 <= q < t1[j].kids().len() ==> o[(#[trigger] t1[j].kids()[q]).index as int] == t0[o[j]].kids()[q].index
    &&& forall|j: int|
        0 < j < o.len() ==> (#[trigger] t1[j]).spec_parent() is Some && t0[o[j]].spec_parent() is Some && o[
            t1[j].spec_parent().unwrap().index as int] == t0[o[j]].spec_parent().unwrap().index
}

impl<T: Copy> Tree<T> {
    /// Makes `r` the root and keeps only the nodes below it: each node
    /// whose parent is kept is kept, in the same order; `r` loses its
    /// parent link and the rest of the tree is dropped.
    pub fn reroot(&mut self, r: NodeRef)
        requires
            old(self).wf(),
            old(self).has(r),
        ensures
            final(self).wf(),
            final(self).spec_root().index == 0,
            1 <= final(self)@.len() <= old(self)@.len() - r.index,
            final(self)@[0].spec_data() == old(self)@[r.index as int].spec_data(),
            final(self)@[0].spec_parent() is None,
            forall|i: int|
                0 <= i < final(self)@.len() ==> exists|j: int|
                    0 <= j < old(self)@.len() && (#[trigger] final(self)@[i]).spec_data() == old(self)@[j].spec_data(),
            exists|o: Seq<int>| subtree_copy(old(self)@, r.index as int, final(self)@, o),
    {
        let ghost before = self@;
        let base = r.index;
        let len = self.nodes.len();
        let mut map: Vec<Option<usize>> = Vec::new();
        let mut origin: Vec<usize> = Vec::new();
        let mut nodes: Vec<Node<T>> = Vec::new();
        let mut i: usize = base;
        while i < len
            invariant
                self.wf(),
                self.has(r),
                base == r.index,
                len == self@.len(),
                base <= i <= len,
                map@.len() == i - base,
                nodes@.len() == origin@.len(),
                nodes@.len() <= i - base,
                i > base ==> nodes@.len() >= 1 && origin@[0] == base,
                forall|j: int| 0 <= j < origin@.len() ==> base <= #[trigger] origin@[j] < i && map@[origin@[j] - base] == Some(j as usize),
                forall|a: int| base <= a < i ==> match #[trigger] map@[a - base] {
                    Some(j) => j < nodes@.len() && origin@[j as int] == a,
                    None => true,
                },
                forall|j1: int, j2: int| 0 <= j1 < j2 < origin@.len() ==> #[trigger] origin@[j1] < #[trigger] origin@[j2],
                forall|a: int|
                    base < a < i ==> ((#[trigger] map@[a - base]) is Some <==> (self@[a].spec_parent() is Some
                        && base <= self@[a].spec_parent().unwrap().index && map@[self@[a].spec_parent().unwrap().index - base] is Some)),
                forall|j: int|
                    0 <= j < nodes@.len() ==> {
                        let n = #[trigger] nodes@[j];
                        &&& n.spec_data() == self@[origin@[j] as int].spec_data()
                        &&& n.spec_children() is None
                        &&& j == 0 ==> n.spec_parent() is None
                        &&& j > 0 ==> match self@[origin@[j] as int].spec_parent() {
                            Some(p) => base <= p.index && map@[p.index - base] == Some(n.spec_parent().unwrap().index)
                                && n.spec_parent().is_some() && n.spec_parent().unwrap().index < j,
                            None => false,
                        }
                    },
            decreases len - i,
        {
            let keep: Option<Option<usize>> = if i == base {
                Some(None)
            } else {
                let par = self.nodes[i].parent;
                assert(par == self@[i as int].spec_parent());
                assert(par matches Some(p) ==> p.index < i);
                match par {
                    Some(p) => {
                        if p.index >= base {
                            match map[p.index - base] {
                                Some(np) => Some(Some(np)),
                                None => None,
                            }
                        } else {
                            None
                        }
                    },
                    None => None,
                }
            };
            match keep {
                Some(np) => {
                    let parent = match np {
                        Some(x) => Some(WeakNodeRef { index: x }),
                        None => None,
                    };
                    map.push(Some(nodes.len()));
                    origin.push(i);
                    nodes.push(Node { data: self.nodes[i].data, parent, children: AtomicInitVec::new() });
                },
                None => {
                    map.push(None);
                },
            }
            i = i + 1;
        }
        assert(nodes@.len() >= 1) by {
            assert(self@.len() > base);
        }
        let ghost plain = nodes@;
        let count = nodes.len();
        let mut j: usize = 0;
        while j < count
            invariant
                self.wf(),
                base == r.index,
                len == self@.len(),
                map@.len() == len - base,
                count == nodes@.len(),
                count == origin@.len(),
                count == plain.len(),
                count >= 1,
                origin@[0] == base,
                j <= count,
                forall|q: int| 0 <= q < origin@.len() ==> base <= #[trigger] origin@[q] < len && map@[origin@[q] - base] == Some(q as usize),
                forall|a: int| base <= a < len ==> match #[trigger] map@[a - base] {
                    Some(q) => q < count && origin@[q as int] == a,
                    None => true,
                },
                forall|j1: int, j2: int| 0 <= j1 < j2 < origin@.len() ==> #[trigger] origin@[j1] < #[trigger] origin@[j2],
                forall|q: int|
                    0 <= q < count ==> {
                        let n = #[trigger] nodes@[q];
                        &&& n.spec_data() == plain[q].spec_data()
                        &&& n.spec_parent() == plain[q].spec_parent()
                        &&& q >= j ==> n.spec_children() is None
                        &&& q < j ==> n.spec_children() is Some
                        &&& forall|t: int| 0 <= t < n.kids().len() ==> {
                            let k = #[trigger] n.kids()[t].index;
                            q < k < count && plain[k as int].spec_parent() == Some(WeakNodeRef { index: q as usize })
                        }
                        &&& forall|t1: int, t2: int| 0 <= t1 < t2 < n.kids().len() ==> #[trigger] n.kids()[t1].index < #[trigger] n.kids()[t2].index
                        &&& q < j ==> n.kids().len() == self@[origin@[q] as int].kids().len()
                        &&& forall|u: int|
                            0 <= u < n.kids().len() ==> map@[self@[origin@[q] as int].kids()[u].index - base] == Some(
                                (#[trigger] n.kids()[u]).index,
                            )
                    },
                forall|a: int|
                    base < a < len ==> ((#[trigger] map@[a - base]) is Some <==> (self@[a].spec_parent() is Some
                        && base <= self@[a].spec_parent().unwrap().index && map@[self@[a].spec_parent().unwrap().index - base] is Some)),
                forall|q: int|
                    0 <= q < count ==> {
                        let n = #[trigger] plain[q];
                        &&& n.spec_data() == self@[origin@[q] as int].spec_data()
                        &&& q == 0 ==> n.spec_parent() is None
                        &&& q > 0 ==> match self@[origin@[q] as int].spec_parent() {
                            Some(p) => base <= p.index && map@[p.index - base] == Some(n.spec_parent().unwrap().index)
                                && n.spec_parent().is_some() && n.spec_parent().unwrap().index < q,
                            None => false,
                        }
                    },
            decreases count - j,
        {
            let o = origin[j];
            let old_kids = self.nodes[o].children.slice();
            let mut kids: Vec<NodeRef> = Vec::new();
            let mut t: usize = 0;
            while t < old_kids.len()
                invariant
                    self.wf(),
                    base == r.index,
                    len == self@.len(),
                    map@.len() == len - base,
                    count == origin@.len(),
                    j < count,
                    o == origin@[j as int],
                    base <= o < len,
                    map@[o - base] == Some(j),
                    old_kids@ == self@[o as int].kids(),
                    t <= old_kids@.len(),
                    forall|a: int| base <= a < len ==> match #[trigger] map@[a - base] {
                        Some(q) => q < count && origin@[q as int] == a,
                        None => true,
                    },
                    forall|j1: int, j2: int| 0 <= j1 < j2 < origin@.len() ==> #[trigger] origin@[j1] < #[trigger] origin@[j2],
                    forall|q: int|
                        0 <= q < count ==> {
                            let n = #[trigger] plain[q];
                            q > 0 ==> match self@[origin@[q] as int].spec_parent() {
                                Some(p) => base <= p.index && map@[p.index - base] == Some(n.spec_parent().unwrap().index)
                                    && n.spec_parent().is_some(),
                                None => false,
                            }
                        },
                    forall|u: int| 0 <= u < kids@.len() ==> {
                        let k = #[trigger] kids@[u].index;
                        j < k < count && plain[k as int].spec_parent() == Some(WeakNodeRef { index: j })
                    },
                    forall|u1: int, u2: int| 0 <= u1 < u2 < kids@.len() ==> #[trigger] kids@[u1].index < #[trigger] kids@[u2].index,
                    kids@.len() == t,
                    forall|u: int| 0 <= u < t ==> map@[old_kids@[u].index - base] == Some((#[trigger] kids@[u]).index),
                    forall|a: int|
                        base < a < len ==> ((#[trigger] map@[a - base]) is Some <==> (self@[a].spec_parent() is Some
                            && base <= self@[a].spec_parent().unwrap().index && map@[self@[a].spec_parent().unwrap().index - base] is Some)),
                    forall|u: int| 0 <= u < t ==> #[trigger] old_kids@[u].index < len,
                decreases old_kids@.len() - t,
            {
                let k = old_kids[t].index;
                assert(o < k < len);
                match map[k - base] {
                    Some(nk) => {
                        proof {
                            assert(origin@[nk as int] == k);
                            assert(nk > j) by {
                                if nk <= j {
                                    if nk < j {
                                        assert(origin@[nk as int] < origin@[j as int]);
                                    }
                                }
                            }
                            if kids@.len() > 0 {
                                let u = t - 1;
                                let prev = old_kids@[u].index;
                                assert(self@[o as int].kids()[u].index < self@[o as int].kids()[t as int].index);
                                let pq = kids@.last().index;
                                assert(map@[old_kids@[u].index - base] == Some(kids@[u].index));
                                assert(origin@[pq as int] == prev);
                                if pq >= nk {
                                    if pq > nk {
                                        assert(origin@[nk as int] < origin@[pq as int]);
                                    }
                                }
                            }
                            assert(plain[nk as int].spec_parent() == Some(WeakNodeRef { index: j })) by {
                                assert(self@[k as int].spec_parent() == Some(WeakNodeRef { index: o }));
                            }
                        }
                        kids.push(NodeRef { index: nk });
                    },
                    None => {
                        proof {
                            assert(self@[k as int].spec_parent() == Some(WeakNodeRef { index: o }));
                            assert(false);
                        }
                    },
                }
                t = t + 1;
            }
            let mut cell = AtomicInitVec::new();
            cell.init(kids);
            let node = Node { data: nodes[j].data, parent: nodes[j].parent, children: cell };
            nodes.set(j, node);
            j = j + 1;
        }
        assert forall|q: int| 0 <= q < nodes@.len() implies exists|j: int|
            0 <= j < before.len() && (#[trigger] nodes@[q]).spec_data() == before[j].spec_data() by {
            assert(nodes@[q].spec_data() == before[origin@[q] as int].spec_data());
        }
        let ghost o = origin@.map_values(|x: usize| x as int);
        proof {
            assert forall|q: int, u: int| 0 <= q < nodes@.len() && 0 <= u < nodes@[q].kids().len() implies o[
                (#[trigger] nodes@[q].kids()[u]).index as int] == before[o[q]].kids()[u].index by {
                let a = before[o[q]].kids()[u].index as int;
                assert(map@[a - base] == Some(nodes@[q].kids()[u].index));
            }
            assert forall|q: int| 0 < q < nodes@.len() implies (#[trigger] nodes@[q]).spec_parent() is Some && before[o[q]].spec_parent() is Some
                && o[nodes@[q].spec_parent().unwrap().index as int] == before[o[q]].spec_parent().unwrap().index by {
                assert(nodes@[q].spec_parent() == plain[q].spec_parent());
            }
            assert(subtree_copy(before, r.index as int, nodes@, o));
        }
        self.nodes = nodes;
        self.root = NodeRef { index: 0 };
        assert forall|i: int| 0 <= i < self@.len() implies match #[trigger] self@[i].spec_parent() {
            Some(p) => p.index < i,
            None => true,
        } by {}
    }
}

impl NodeRef {
    /// Adds a node without parent or children to the arena.
    pub fn new<T>(tree: &mut Tree<T>, data: T) -> (r: NodeRef)
        requires
            old(tree).wf(),
            old(tree)@.len() < usize::MAX,
        ensures
            final(tree).wf(),
            r.index == old(tree)@.len(),
            final(tree)@.len() == old(tree)@.len() + 1,
            final(tree).spec_root() == old(tree).spec_root(),
            final(tree)@.subrange(0, r.index as int) == old(tree)@,
            final(tree)@[r.index as int].spec_data() == data,
            final(tree)@[r.index as int].spec_parent() is None,
            final(tree)@[r.index as int].spec_children() is None,
    {
        let index = tree.nodes.len();
        tree.nodes.push(Node::new(data));
        assert(tree@.subrange(0, index as int) =~= old(tree)@);
        assert forall|i: int, j: int|
            0 <= i < tree@.len() && 0 <= j < tree@[i].kids().len() implies {
                let k = #[trigger] tree@[i].kids()[j].index;
                i < k < tree@.len() && tree@[k as int].spec_parent() == Some(WeakNodeRef { index: i as usize })
            } by {
            if i < index {
                assert(tree@[i] == old(tree)@[i]);
            }
        }
        NodeRef { index }
    }

    /// Publishes one new child per item of `children`, in order, unless the
    /// node's children were published before; returns whether these were.
    pub fn add_children<T>(&self, tree: &mut Tree<T>, children: Vec<T>) -> (added: bool)
        requires
            old(tree).wf(),
            old(tree).has(*self),
            old(tree)@.len() + children@.len() < usize::MAX,
        ensures
            final(tree).wf(),
            final(tree).spec_root() == old(tree).spec_root(),
            added == (old(tree)@[self.index as int].spec_children() is None),
            !added ==> final(tree)@ == old(tree)@,
            added ==> final(tree)@.len() == old(tree)@.len() + children@.len(),
            added ==> final(tree)@[self.index as int].kids() == Seq::new(
                children@.len(),
                |j: int| NodeRef { index: (old(tree)@.len() + j) as usize },
            ),
            added ==> final(tree)@[self.index as int].spec_data() == old(tree)@[self.index as int].spec_data(),
            added ==> final(tree)@[self.index as int].spec_parent() == old(tree)@[self.index as int].spec_parent(),
            added ==> forall|i: int|
                0 <= i < old(tree)@.len() && i != self.index ==> #[trigger] final(tree)@[i] == old(tree)@[i],
            added ==> forall|j: int|
                0 <= j < children@.len() ==> {
                    let n = #[trigger] final(tree)@[old(tree)@.len() + j];
                    &&& n.spec_data() == children@[j]
                    &&& n.spec_parent() == Some(WeakNodeRef { index: self.index })
                    &&& n.spec_children() is None
                },
    {
        if tree.get(*self).children.is_initialized() {
            return false;
        }
        let ghost old_nodes = tree@;
        let ghost items = children@;
        let base = tree.nodes.len();
        let total = children.len();
        let mut children = children;
        let mut refs: Vec<NodeRef> = Vec::new();
        let mut j: usize = 0;
        while j < total
            invariant
                tree.wf(),
                tree.spec_root() == old(tree).spec_root(),
                base == old_nodes.len(),
                total == items.len(),
                base + total < usize::MAX,
                self.index < base,
                j <= total,
                tree@.len() == base + j,
                children@ == items.subrange(j as int, total as int),
                refs@ == Seq::new(j as nat, |t: int| NodeRef { index: (base + t) as usize }),
                forall|i: int| 0 <= i < base ==> #[trigger] tree@[i] == old_nodes[i],
                old_nodes[self.index as int].spec_children() is None,
                forall|t: int|
                    0 <= t < j ==> {
                        let n = #[trigger] tree@[base + t];
                        &&& n.spec_data() == items[t]
                        &&& n.spec_parent() == Some(WeakNodeRef { index: self.index })
                        &&& n.spec_children() is None
                    },
            decreases total - j,
        {
            let d = children.remove(0);
            let mut node = Node::new(d);
            node.parent = Some(WeakNodeRef { index: self.index });
            let ghost before = tree@;
            tree.nodes.push(node);
            refs.push(NodeRef { index: base + j });
            assert(children@ =~= items.subrange(j + 1, total as int));
            assert forall|i: int, q: int|
                0 <= i < tree@.len() && 0 <= q < tree@[i].kids().len() implies {
                    let k = #[trigger] tree@[i].kids()[q].index;
                    i < k < tree@.len() && tree@[k as int].spec_parent() == Some(WeakNodeRef { index: i as usize })
                } by {
                if i < before.len() {
                    assert(tree@[i] == before[i]);
                    let k = tree@[i].kids()[q].index;
                    assert(tree@[k as int] == before[k as int]);
                }
            }
            assert forall|i: int| 0 <= i < tree@.len() implies match #[trigger] tree@[i].spec_parent() {
                Some(p) => p.index < i,
                None => true,
            } by {
                if i < before.len() {
                    assert(tree@[i] == before[i]);
                }
            }
            j = j + 1;
            assert(refs@ =~= Seq::new(j as nat, |t: int| NodeRef { index: (base + t) as usize }));
        }
        let ghost before = tree@;
        let mut node = tree.nodes.remove(self.index);
        node.children.init(refs);
        tree.nodes.insert(self.index, node);
        assert(tree@ =~= before.update(self.index as int, tree@[self.index as int]));
        assert forall|i: int, q: int|
            0 <= i < tree@.len() && 0 <= q < tree@[i].kids().len() implies {
                let k = #[trigger] tree@[i].kids()[q].index;
                i < k < tree@.len() && tree@[k as int].spec_parent() == Some(WeakNodeRef { index: i as usize })
            } by {
            if i != self.index {
                assert(tree@[i] == before[i]);
                let k = tree@[i].kids()[q].index;
                assert(tree@[k as int].spec_parent() == before[k as int].spec_parent());
            } else {
                assert(tree@[i].kids()[q].index == base + q);
                assert(tree@[base + q] == before[base + q]);
            }
        }
        assert forall|i: int| 0 <= i < tree@.len() implies match #[trigger] tree@[i].spec_parent() {
            Some(p) => p.index < i,
            None => true,
        } by {
            if i != self.index {
                assert(tree@[i] == before[i]);
            }
        }
        true
    }
}

/// The number of expanded nodes below node `i` reached through its
/// children from number `j` on: each expanded child counts once, with the
/// expanded nodes below it.
pub open spec fn expanded_below<T>(t: Seq<Node<T>>, i: int, j: int) -> int
    decreases t.len() - i, t[i].kids().len() - j,
    when 0 <= i < t.len() && 0 <= j
{
    if j >= t[i].kids().len() {
        0
    } else {
        let k = t[i].kids()[j].index as int;
        let here = if i < k < t.len() && t[k].kids().len() > 0 {
            1 + expanded_below(t, k, 0)
        } else {
            0
        };
        here + expanded_below(t, i, j + 1)
    }
}

proof fn lemma_expanded_nonneg<T>(t: Seq<Node<T>>, i: int, j: int)
    requires
        0 <= i < t.len(),
        0 <= j,
    ensures
        expanded_below(t, i, j) >= 0,
    decreases t.len() - i, t[i].kids().len() - j,
{
    if j < t[i].kids().len() {
        let k = t[i].kids()[j].index as int;
        if i < k < t.len() && t[k].kids().len() > 0 {
            lemma_expanded_nonneg(t, k, 0);
        }
        lemma_expanded_nonneg(t, i, j + 1);
    }
}

/// `n`, held at `usize::MAX`.
pub open spec fn capped(n: int) -> int {
    if n > usize::MAX {
        usize::MAX as int
    } else {
        n
    }
}

impl<T> Tree<T> {
    /// The number of expanded nodes below `node`, held at `usize::MAX`.
    pub fn tree_size(&self, node: NodeRef) -> (r: usize)
        requires
            self.wf(),
            self.has(node),
        ensures
            r == capped(expanded_below(self@, node.index as int, 0)),
    {
        self.size_from(node, 0)
    }

    fn size_from(&self, node: NodeRef, j: usize) -> (r: usize)
        requires
            self.wf(),
            self.has(node),
            j <= self@[node.index as int].kids().len(),
        ensures
            r == capped(expanded_below(self@, node.index as int, j as int)),
        decreases self@.len() - node.index, self@[node.index as int].kids().len() - j,
    {
        let kids = self.get(node).children();
        if j >= kids.len() {
            return 0;
        }
        let child = kids[j];
        proof {
            lemma_expanded_nonneg(self@, node.index as int, j as int + 1);
            lemma_expanded_nonneg(self@, child.index as int, 0);
        }
        let here: usize = if self.get(child).children().len() > 0 {
            let below = self.size_from(child, 0);
            if below == usize::MAX {
                usize::MAX
            } else {
                below + 1
            }
        } else {
            0
        };
        let rest = self.size_from(node, j + 1);
        if here > usize::MAX - rest {
            usize::MAX
        } else {
            here + rest
        }
    }
}

/// The links from node `i`, through its children from number `j` on, to
/// expanded children, each followed by the links below that child.
pub open spec fn expanded_links<T>(t: Seq<Node<T>>, i: int, j: int) -> Seq<(usize, usize)>
    decreases t.len() - i, t[i].kids().len() - j,
    when 0 <= i < t.len() && 0 <= j
{
    if j >= t[i].kids().len() {
        Seq::empty()
    } else {
        let k = t[i].kids()[j].index as int;
        let here = if i < k < t.len() && t[k].kids().len() > 0 {
            seq![(i as usize, k as usize)] + expanded_links(t, k, 0)
        } else {
            Seq::empty()
        };
        here + expanded_links(t, i, j + 1)
    }
}

impl<T> Tree<T> {
    /// The parent-child links between expanded nodes below `node`, as
    /// pairs of node indices: the shape of the searched tree.
    pub fn expanded_edges(&self, node: NodeRef) -> (r: Vec<(usize, usize)>)
        requires
            self.wf(),
            self.has(node),
        ensures
            r@ == expanded_links(self@, node.index as int, 0),
    {
        let mut out: Vec<(usize, usize)> = Vec::new();
        self.links_from(node, 0, &mut out);
        assert(out@ =~= expanded_links(self@, node.index as int, 0));
        out
    }

    fn links_from(&self, node: NodeRef, j: usize, out: &mut Vec<(usize, usize)>)
        requires
            self.wf(),
            self.has(node),
            j <= self@[node.index as int].kids().len(),
        ensures
            final(out)@ == old(out)@ + expanded_links(self@, node.index as int, j as int),
        decreases self@.len() - node.index, self@[node.index as int].kids().len() - j,
    {
        let kids = self.get(node).children();
        if j >= kids.len() {
            assert(old(out)@ + expanded_links(self@, node.index as int, j as int) =~= old(out)@);
            return;
        }
        let child = kids[j];
        let ghost start = out@;
        if self.get(child).children().len() > 0 {
            out.push((node.index, child.index));
            self.links_from(child, 0, out);
        }
        self.links_from(node, j + 1, out);
        assert(out@ =~= start + expanded_links(self@, node.index as int, j as int));
    }
}

} // verus!
