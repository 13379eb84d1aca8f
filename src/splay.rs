use vstd::prelude::*;

verus! {

/// The content of a node of the tree: it has a length.
pub trait Value: Sized {
    spec fn length(&self) -> nat;

    fn len(&self) -> (r: usize)
        ensures
            r == self.length(),
    ;

    fn clone_value(&self) -> (r: Self)
        ensures
            r == *self,
    ;
}

impl Value for String {
    open spec fn length(&self) -> nat {
        self@.len()
    }

    fn len(&self) -> (r: usize) {
        self.as_str().unicode_len()
    }

    fn clone_value(&self) -> (r: Self) {
        self.clone()
    }
}

/// A node of the tree: its value, the weight of its subtree, and its links, which are
/// indices into the tree's nodes.
pub struct Node<V> {
    value: V,
    weight: u64,
    parent: Option<usize>,
    left: Option<usize>,
    right: Option<usize>,
}

impl<V: Value> Node<V> {
    /// A node with no links whose weight is its own length.
    pub closed spec fn fresh(&self) -> bool {
        &&& self.parent is None
        &&& self.left is None
        &&& self.right is None
        &&& self.weight == self.value.length()
    }

    pub closed spec fn value_view(&self) -> V {
        self.value
    }

    pub fn new(value: V) -> (r: Node<V>)
        ensures
            r.fresh(),
            r.value_view() == value,
    {
        let w = value.len() as u64;
        Node { value, weight: w, parent: None, left: None, right: None }
    }

    pub fn value(&self) -> (r: V)
        ensures
            r == self.value_view(),
    {
        self.value.clone_value()
    }
}

/// The weight of a link: that of the node it leads to, or zero.
spec fn link_weight<V>(nodes: Seq<Node<V>>, c: Option<usize>) -> int {
    match c {
        Some(i) => nodes[i as int].weight as int,
        None => 0,
    }
}

spec fn link_size(sizes: Seq<nat>, c: Option<usize>) -> int {
    match c {
        Some(i) => sizes[i as int] as int,
        None => 0,
    }
}

/// A splay tree whose nodes carry the total length of their subtrees.
pub struct Tree<V> {
    nodes: Vec<Node<V>>,
    root: Option<usize>,
    /// The number of nodes in each subtree.
    sizes: Ghost<Seq<nat>>,
}

impl<V: Value> Tree<V> {
    /// The weight of a node is its length plus the weights of its children.
    pub closed spec fn weight_ok(&self, i: int) -> bool {
        let n = self.nodes@[i];
        n.weight == n.value.length() + link_weight(self.nodes@, n.left) + link_weight(self.nodes@, n.right)
    }

    closed spec fn links_ok(&self, i: int) -> bool {
        let nodes = self.nodes@;
        let n = nodes[i];
        &&& (n.left is Some ==> n.left->Some_0 < nodes.len() && nodes[n.left->Some_0 as int].parent == Some(i as usize))
        &&& (n.right is Some ==> n.right->Some_0 < nodes.len() && nodes[n.right->Some_0 as int].parent == Some(i as usize))
        &&& (n.left is Some && n.right is Some ==> n.left != n.right)
        &&& (n.parent is Some ==> n.parent->Some_0 < nodes.len() && (nodes[n.parent->Some_0 as int].left == Some(i as usize)
            || nodes[n.parent->Some_0 as int].right == Some(i as usize)))
        &&& self.sizes@[i] == 1 + link_size(self.sizes@, n.left) + link_size(self.sizes@, n.right)
        &&& self.sizes@[i] <= nodes.len()
    }

    /// Links are consistent in both directions, the root is the one node without a parent,
    /// and every weight is right.
    pub closed spec fn wf(&self) -> bool {
        &&& self.sizes@.len() == self.nodes@.len()
        &&& self.nodes@.len() <= usize::MAX
        &&& forall|i: int| 0 <= i < self.nodes@.len() ==> #[trigger] self.links_ok(i) && self.weight_ok(i)
        &&& (self.nodes@.len() == 0 <==> self.root is None)
        &&& (self.root is Some ==> self.root->Some_0 < self.nodes@.len() && self.nodes@[self.root->Some_0 as int].parent is None)
        &&& forall|i: int| 0 <= i < self.nodes@.len() && (#[trigger] self.nodes@[i]).parent is None ==> self.root == Some(i as usize)
    }

    pub closed spec fn len_spec(&self) -> nat {
        self.nodes@.len()
    }

    /// The weight of the root: the total length of the values.
    pub closed spec fn total_weight(&self) -> int {
        match self.root {
            Some(r) => self.nodes@[r as int].weight as int,
            None => 0,
        }
    }

    pub closed spec fn root_spec(&self) -> Option<usize> {
        self.root
    }

    /// The indices of the nodes of the subtree rooted at node `i`, in order: those of its left
    /// subtree, `i` itself, then those of its right subtree.
    spec fn order_at(&self, i: int) -> Seq<usize>
        decreases self.sizes@[i],
        when self.wf() && 0 <= i < self.nodes@.len()
    {
        proof {
            assert(self.links_ok(i));
        }
        let n = self.nodes@[i];
        let l = match n.left {
            Some(c) => self.order_at(c as int),
            None => Seq::empty(),
        };
        let r = match n.right {
            Some(c) => self.order_at(c as int),
            None => Seq::empty(),
        };
        l + seq![i as usize] + r
    }

    /// The in-order indices of a link's subtree, empty for no link.
    spec fn link_order(&self, c: Option<usize>) -> Seq<usize> {
        match c {
            Some(i) => self.order_at(i as int),
            None => Seq::empty(),
        }
    }

    /// The indices of all nodes in order, from the root.
    pub closed spec fn order(&self) -> Seq<usize> {
        self.link_order(self.root)
    }

    /// The values of the tree in order: the sequence that the tree represents.
    pub closed spec fn in_order(&self) -> Seq<V> {
        self.order().map_values(|i: usize| self.nodes@[i as int].value)
    }

    /// The value of each node, by index.
    pub closed spec fn values(&self) -> Seq<V> {
        self.nodes@.map_values(|n: Node<V>| n.value)
    }

    pub closed spec fn weight_spec(&self, i: int) -> int {
        self.nodes@[i].weight as int
    }

    pub closed spec fn left_spec(&self, i: int) -> Option<usize> {
        self.nodes@[i].left
    }

    pub closed spec fn right_spec(&self, i: int) -> Option<usize> {
        self.nodes@[i].right
    }

    /// A tree of one node.
    pub fn new(root: Node<V>) -> (r: Tree<V>)
        requires
            root.fresh(),
        ensures
            r.wf(),
            r.values() == seq![root.value_view()],
            r.root_spec() == Some(0usize),
    {
        let mut nodes: Vec<Node<V>> = Vec::new();
        nodes.push(root);
        let ghost sizes = seq![1nat];
        let r = Tree { nodes, root: Some(0), sizes: Ghost(sizes) };
        assert(r.links_ok(0));
        assert(r.weight_ok(0));
        assert(r.values() =~= seq![root.value]);
        r
    }

    /// Appends the values of node `i`'s subtree in order.
    fn collect(&self, i: usize, out: &mut Vec<V>)
        requires
            self.wf(),
            i < self.nodes@.len(),
        ensures
            final(out)@ == old(out)@ + self.order_at(i as int).map_values(|j: usize| self.nodes@[j as int].value),
        decreases self.sizes@[i as int],
    {
        proof {
            self.lemma_wf_facts(i as int);
            lemma_order_unfold(*self, i as int);
        }
        let ghost o0 = out@;
        let ghost f = |j: usize| self.nodes@[j as int].value;
        match self.nodes[i].left {
            Some(l) => {
                proof {
                    self.lemma_wf_facts(l as int);
                }
                self.collect(l, out);
            },
            None => {},
        }
        let ghost o1 = out@;
        out.push(self.nodes[i].value.clone_value());
        let ghost o2 = out@;
        match self.nodes[i].right {
            Some(r) => {
                proof {
                    self.lemma_wf_facts(r as int);
                }
                self.collect(r, out);
            },
            None => {},
        }
        proof {
            let n = self.nodes@[i as int];
            let lo = self.link_order(n.left);
            let ro = self.link_order(n.right);
            assert(o1 == o0 + lo.map_values(f));
            assert(out@ == o2 + ro.map_values(f));
            assert((lo + seq![i] + ro).map_values(f) =~= lo.map_values(f) + seq![n.value] + ro.map_values(f));
            assert(out@ =~= o0 + (lo + seq![i] + ro).map_values(f));
        }
    }

    /// The values of the tree in order.
    pub fn values_in_order(&self) -> (r: Vec<V>)
        requires
            self.wf(),
        ensures
            r@ == self.in_order(),
    {
        let mut out: Vec<V> = Vec::new();
        match self.root {
            Some(r) => {
                self.collect(r, &mut out);
                assert(out@ =~= self.in_order());
            },
            None => {
                assert(out@ =~= self.in_order());
            },
        }
        out
    }

    /// The weight of node `i`: the total length of its subtree.
    pub fn weight(&self, i: usize) -> (r: u64)
        requires
            i < self.len_spec(),
        ensures
            r == self.weight_spec(i as int),
    {
        self.nodes[i].weight
    }

    pub fn root(&self) -> (r: Option<usize>)
        ensures
            r == self.root_spec(),
    {
        self.root
    }

    fn link_weight_of(&self, c: Option<usize>) -> (r: u64)
        requires
            c is Some ==> c->Some_0 < self.nodes@.len(),
        ensures
            r == link_weight(self.nodes@, c),
    {
        match c {
            Some(i) => self.nodes[i].weight,
            None => 0,
        }
    }

    /// Recomputes the weight of node `i` from its length and its children's weights.
    pub fn update_subtree(&mut self, i: usize)
        requires
            i < old(self).len_spec(),
            old(self).links_in_range(),
            old(self).weight_sum(i as int) <= u64::MAX,
        ensures
            final(self).weight_ok(i as int),
            final(self).weight_spec(i as int) == old(self).weight_sum(i as int),
            final(self).same_but_weight(*old(self), i as int),
    {
        proof {
            assert(old(self).in_range(i as int));
        }
        let lw = self.link_weight_of(self.nodes[i].left);
        let rw = self.link_weight_of(self.nodes[i].right);
        let own = self.nodes[i].value.len() as u64;
        self.nodes[i].weight = own + lw + rw;
        proof {
            let n = self.nodes@[i as int];
            if n.left is Some {
                assert(n.left->Some_0 != i);
            }
            if n.right is Some {
                assert(n.right->Some_0 != i);
            }
        }
    }

    /// Every link leads to a node of the tree other than the one it leaves.
    pub closed spec fn links_in_range(&self) -> bool {
        forall|j: int| 0 <= j < self.nodes@.len() ==> #[trigger] self.in_range(j)
    }

    /// This tree is `other` with at most the weight of node `i` changed.
    pub closed spec fn same_but_weight(&self, other: Self, i: int) -> bool {
        &&& self.nodes@.len() == other.nodes@.len()
        &&& self.root == other.root
        &&& self.sizes == other.sizes
        &&& self.nodes@[i] == (Node { weight: self.nodes@[i].weight, ..other.nodes@[i] })
        &&& forall|j: int| 0 <= j < other.nodes@.len() && j != i ==> #[trigger] self.nodes@[j] == other.nodes@[j]
    }

    /// The links of node `j` lead to nodes of the tree, not to itself.
    closed spec fn in_range(&self, j: int) -> bool {
        let n = self.nodes@[j];
        &&& (n.left is Some ==> n.left->Some_0 < self.nodes@.len() && n.left->Some_0 != j)
        &&& (n.right is Some ==> n.right->Some_0 < self.nodes@.len() && n.right->Some_0 != j)
    }

    /// The length of node `i` plus the weights of its children.
    pub closed spec fn weight_sum(&self, i: int) -> int {
        let n = self.nodes@[i];
        n.value.length() + link_weight(self.nodes@, n.left) + link_weight(self.nodes@, n.right)
    }

    /// Whether node `i` is the left child of its parent.
    fn is_left_child(&self, i: usize) -> (r: bool)
        requires
            self.wf(),
            i < self.nodes@.len(),
        ensures
            r == (self.nodes@[i as int].parent is Some && self.nodes@[self.nodes@[i as int].parent->Some_0 as int].left == Some(i)),
    {
        assert(self.links_ok(i as int));
        match self.nodes[i].parent {
            Some(p) => self.nodes[p].left == Some(i),
            None => false,
        }
    }
}

impl<V: Value> Tree<V> {
    proof fn lemma_wf_facts(&self, i: int)
        requires
            self.wf(),
            0 <= i < self.nodes@.len(),
        ensures
            self.links_ok(i),
            self.weight_ok(i),
            self.in_range(i),
            self.nodes@[i].left is Some ==> self.sizes@[self.nodes@[i].left->Some_0 as int] < self.sizes@[i],
            self.nodes@[i].right is Some ==> self.sizes@[self.nodes@[i].right->Some_0 as int] < self.sizes@[i],
            self.nodes@[i].parent is Some ==> self.sizes@[i] < self.sizes@[self.nodes@[i].parent->Some_0 as int],
            self.nodes@[i].left is Some ==> link_weight(self.nodes@, self.nodes@[i].left) <= self.nodes@[i].weight,
            self.nodes@[i].right is Some ==> link_weight(self.nodes@, self.nodes@[i].right) <= self.nodes@[i].weight,
            self.nodes@[i].value.length() <= self.nodes@[i].weight,
    {
        assert(self.links_ok(i));
        if self.nodes@[i].parent is Some {
            let p = self.nodes@[i].parent->Some_0 as int;
            assert(self.links_ok(p));
            let pl = self.nodes@[p].left;
            let pr = self.nodes@[p].right;
            if pl == Some(i as usize) {
                assert(link_size(self.sizes@, pl) == self.sizes@[i]);
            } else {
                assert(link_size(self.sizes@, pr) == self.sizes@[i]);
            }
            assert(link_size(self.sizes@, pl) >= 0 && link_size(self.sizes@, pr) >= 0);
        }
    }

    /// Rotates `pivot` over its parent, of which it is the right child: the parent becomes the
    /// left child of `pivot`, the left subtree of `pivot` moves under the parent, and the
    /// weights of both are recomputed.
    fn rotate_left(&mut self, pivot: usize)
        requires
            old(self).wf(),
            pivot < old(self).nodes@.len(),
            old(self).nodes@[pivot as int].parent is Some,
            old(self).nodes@[old(self).nodes@[pivot as int].parent->Some_0 as int].right == Some(pivot),
        ensures
            final(self).wf(),
            final(self).rotated(*old(self), pivot as int),
            final(self).order() == old(self).order(),
            final(self).nodes@[pivot as int].right == old(self).nodes@[pivot as int].right,
            final(self).nodes@[pivot as int].left == old(self).nodes@[pivot as int].parent,
            final(self).nodes@[old(self).nodes@[pivot as int].parent->Some_0 as int].right == old(self).nodes@[pivot as int].left,
            final(self).nodes@[old(self).nodes@[pivot as int].parent->Some_0 as int].left == old(self).nodes@[old(self).nodes@[pivot as int].parent->Some_0 as int].left,
    {
        let ghost t0 = *self;
        let g = self.nodes[pivot].parent.unwrap();
        proof {
            t0.lemma_wf_facts(pivot as int);
            t0.lemma_wf_facts(g as int);
        }
        let gg = self.nodes[g].parent;
        let b = self.nodes[pivot].left;
        let a = self.nodes[g].left;
        let c = self.nodes[pivot].right;
        proof {
            if gg is Some {
                t0.lemma_wf_facts(gg->Some_0 as int);
            }
            if b is Some {
                t0.lemma_wf_facts(b->Some_0 as int);
            }
        }
        let mut gg_left = false;
        match gg {
            Some(q) => {
                gg_left = match self.nodes[q].left {
                    Some(x) => x == g,
                    None => false,
                };
                if gg_left {
                    self.nodes[q].left = Some(pivot);
                } else {
                    self.nodes[q].right = Some(pivot);
                }
            },
            None => {
                self.root = Some(pivot);
            },
        }
        self.nodes[pivot].parent = gg;
        self.nodes[g].right = b;
        match b {
            Some(bi) => {
                self.nodes[bi].parent = Some(g);
            },
            None => {},
        }
        self.nodes[pivot].left = Some(g);
        self.nodes[g].parent = Some(pivot);
        let ghost sa = link_size(t0.sizes@, a);
        let ghost sb = link_size(t0.sizes@, b);
        proof {
            self.sizes@ = t0.sizes@.update(g as int, (1 + sa + sb) as nat).update(pivot as int, t0.sizes@[g as int]);
        }
        let wa = self.link_weight_of(a);
        let wb = self.link_weight_of(b);
        let wc = self.link_weight_of(c);
        let lg = self.nodes[g].value.len() as u64;
        let lp = self.nodes[pivot].value.len() as u64;
        let wg = lg + wa + wb;
        self.nodes[g].weight = wg;
        let wp = lp + wg + wc;
        self.nodes[pivot].weight = wp;
        proof {
            lemma_rotate_wf(t0, *self, pivot as int, g as int, gg, a, b, c, gg_left, true);
            lemma_rotate_order_root(t0, *self, pivot as int, g as int, gg, a, b, c, gg_left, true);
        }
    }

    /// Rotates `pivot` over its parent, of which it is the left child: the parent becomes the
    /// right child of `pivot`, the right subtree of `pivot` moves under the parent, and the
    /// weights of both are recomputed.
    fn rotate_right(&mut self, pivot: usize)
        requires
            old(self).wf(),
            pivot < old(self).nodes@.len(),
            old(self).nodes@[pivot as int].parent is Some,
            old(self).nodes@[old(self).nodes@[pivot as int].parent->Some_0 as int].left == Some(pivot),
        ensures
            final(self).wf(),
            final(self).rotated(*old(self), pivot as int),
            final(self).order() == old(self).order(),
            final(self).nodes@[pivot as int].left == old(self).nodes@[pivot as int].left,
            final(self).nodes@[pivot as int].right == old(self).nodes@[pivot as int].parent,
            final(self).nodes@[old(self).nodes@[pivot as int].parent->Some_0 as int].left == old(self).nodes@[pivot as int].right,
            final(self).nodes@[old(self).nodes@[pivot as int].parent->Some_0 as int].right == old(self).nodes@[old(self).nodes@[pivot as int].parent->Some_0 as int].right,
    {
        let ghost t0 = *self;
        let g = self.nodes[pivot].parent.unwrap();
        proof {
            t0.lemma_wf_facts(pivot as int);
            t0.lemma_wf_facts(g as int);
        }
        let gg = self.nodes[g].parent;
        let b = self.nodes[pivot].right;
        let a = self.nodes[g].right;
        let c = self.nodes[pivot].left;
        proof {
            if gg is Some {
                t0.lemma_wf_facts(gg->Some_0 as int);
            }
            if b is Some {
                t0.lemma_wf_facts(b->Some_0 as int);
            }
        }
        let mut gg_left = false;
        match gg {
            Some(q) => {
                gg_left = match self.nodes[q].left {
                    Some(x) => x == g,
                    None => false,
                };
                if gg_left {
                    self.nodes[q].left = Some(pivot);
                } else {
                    self.nodes[q].right = Some(pivot);
                }
            },
            None => {
                self.root = Some(pivot);
            },
        }
        self.nodes[pivot].parent = gg;
        self.nodes[g].left = b;
        match b {
            Some(bi) => {
                self.nodes[bi].parent = Some(g);
            },
            None => {},
        }
        self.nodes[pivot].right = Some(g);
        self.nodes[g].parent = Some(pivot);
        let ghost sa = link_size(t0.sizes@, a);
        let ghost sb = link_size(t0.sizes@, b);
        proof {
            self.sizes@ = t0.sizes@.update(g as int, (1 + sa + sb) as nat).update(pivot as int, t0.sizes@[g as int]);
        }
        let wa = self.link_weight_of(a);
        let wb = self.link_weight_of(b);
        let wc = self.link_weight_of(c);
        let lg = self.nodes[g].value.len() as u64;
        let lp = self.nodes[pivot].value.len() as u64;
        let wg = lg + wa + wb;
        self.nodes[g].weight = wg;
        let wp = lp + wg + wc;
        self.nodes[pivot].weight = wp;
        proof {
            lemma_rotate_wf(t0, *self, pivot as int, g as int, gg, a, b, c, gg_left, false);
            lemma_rotate_order_root(t0, *self, pivot as int, g as int, gg, a, b, c, gg_left, false);
        }
    }

    /// Inserts `node` right after `prev` in order: `prev` is splayed to the root, and `node`
    /// becomes the new root with `prev` as its left child and the old right subtree of `prev`
    /// as its right subtree. Returns the index of the new node.
    pub fn insert_after(&mut self, prev: usize, node: Node<V>) -> (r: usize)
        requires
            old(self).wf(),
            prev < old(self).len_spec(),
            old(self).len_spec() < usize::MAX,
            node.fresh(),
            old(self).total_weight() + node.value_view().length() <= u64::MAX,
        ensures
            final(self).wf(),
            r == old(self).len_spec(),
            final(self).values() == old(self).values().push(node.value_view()),
            final(self).root_spec() == Some(r),
            final(self).left_spec(r as int) == Some(prev),
            final(self).right_spec(prev as int) is None,
            final(self).total_weight() == old(self).total_weight() + node.value_view().length(),
            exists|k: int|
                0 <= k < old(self).order().len() && old(self).order()[k] == prev && final(self).order() == old(
                    self,
                ).order().insert(k + 1, r) && final(self).in_order() == old(self).in_order().insert(
                    k + 1,
                    node.value_view(),
                ),
    {
        self.splay(prev);
        let ghost t1 = *self;
        proof {
            t1.lemma_wf_facts(prev as int);
        }
        let idx = self.nodes.len();
        let right = self.nodes[prev].right;
        let left = self.nodes[prev].left;
        proof {
            if right is Some {
                t1.lemma_wf_facts(right->Some_0 as int);
            }
            if left is Some {
                t1.lemma_wf_facts(left->Some_0 as int);
            }
        }
        let wl = self.link_weight_of(left);
        let wr = self.link_weight_of(right);
        let mut n = node;
        n.left = Some(prev);
        n.right = right;
        n.parent = None;
        let own = n.value.len() as u64;
        let lp = self.nodes[prev].value.len() as u64;
        let wp = lp + wl;
        n.weight = own + wp + wr;
        self.nodes.push(n);
        self.nodes[prev].right = None;
        self.nodes[prev].parent = Some(idx);
        self.nodes[prev].weight = wp;
        match right {
            Some(ri) => {
                self.nodes[ri].parent = Some(idx);
            },
            None => {},
        }
        self.root = Some(idx);
        let ghost sp = (1 + link_size(t1.sizes@, left)) as nat;
        proof {
            self.sizes@ = t1.sizes@.update(prev as int, sp).push((1 + sp + link_size(t1.sizes@, right)) as nat);
            lemma_insert_after_wf(t1, *self, prev as int, idx as int, left, right);
            lemma_insert_order(t1, *self, prev as int, idx as int, left, right, idx as int);
            lemma_order_unfold(t1, prev as int);
            lemma_order_root_in_range(t1);
            let k = t1.link_order(left).len() as int;
            let o0 = t1.order();
            assert(o0 == t1.link_order(left) + seq![prev] + t1.link_order(right));
            assert(o0[k] == prev);
            assert(self.order() =~= o0.insert(k + 1, idx));
            let v = node.value_view();
            assert(self.values() == t1.values().push(v));
            assert forall|j: int| 0 <= j < o0.len() + 1 implies #[trigger] self.in_order()[j] == t1.in_order().insert(k + 1, v)[j] by {
                if j < k + 1 {
                    assert(self.order()[j] == o0[j]);
                    let i = o0[j] as int;
                    assert(self.values()[i] == t1.values()[i]);
                    assert(t1.values()[i] == t1.nodes@[i].value);
                } else if j > k + 1 {
                    assert(self.order()[j] == o0[j - 1]);
                    let i = o0[j - 1] as int;
                    assert(self.values()[i] == t1.values()[i]);
                    assert(t1.values()[i] == t1.nodes@[i].value);
                } else {
                    assert(self.values()[idx as int] == v);
                }
            }
            assert(self.in_order() =~= t1.in_order().insert(k + 1, v));
        }
        idx
    }

    /// Adds `node` to the tree right after its root, or as the root of an empty tree.
    pub fn insert(&mut self, node: Node<V>) -> (r: usize)
        requires
            old(self).wf(),
            old(self).len_spec() < usize::MAX,
            node.fresh(),
            old(self).total_weight() + node.value_view().length() <= u64::MAX,
        ensures
            final(self).wf(),
            r == old(self).len_spec(),
            final(self).values() == old(self).values().push(node.value_view()),
            final(self).root_spec() == Some(r),
            final(self).total_weight() == old(self).total_weight() + node.value_view().length(),
            old(self).root_spec() is None ==> final(self).in_order() == seq![node.value_view()],
            old(self).root_spec() is Some ==> exists|k: int|
                0 <= k < old(self).order().len() && old(self).order()[k] == old(self).root_spec()->Some_0
                    && final(self).in_order() == old(self).in_order().insert(k + 1, node.value_view()),
    {
        match self.root {
            Some(root) => self.insert_after(root, node),
            None => {
                let ghost t0 = *self;
                self.nodes.push(node);
                self.root = Some(0);
                proof {
                    self.sizes@ = seq![1nat];
                    assert(self.links_ok(0));
                    assert(self.weight_ok(0));
                    assert(self.values() =~= t0.values().push(node.value));
                    lemma_order_unfold(*self, 0);
                    assert(self.order() =~= seq![0usize]);
                    assert(self.in_order() =~= seq![node.value]);
                }
                0
            },
        }
    }

    /// Rotates node `x` over its parent, to the right where it is a left child, else to the left.
    fn rotate_up(&mut self, x: usize)
        requires
            old(self).wf(),
            x < old(self).nodes@.len(),
            old(self).nodes@[x as int].parent is Some,
        ensures
            final(self).wf(),
            final(self).rotated(*old(self), x as int),
            final(self).order() == old(self).order(),
            old(self).nodes@[old(self).nodes@[x as int].parent->Some_0 as int].left == Some(x) ==> final(self).nodes@[x as int].left
                == old(self).nodes@[x as int].left,
            old(self).nodes@[old(self).nodes@[x as int].parent->Some_0 as int].left != Some(x) ==> final(self).nodes@[x as int].right
                == old(self).nodes@[x as int].right,
    {
        proof {
            self.lemma_wf_facts(x as int);
        }
        if self.is_left_child(x) {
            self.rotate_right(x);
        } else {
            self.rotate_left(x);
        }
    }

    /// Brings `node` to the root by rotations: zig-zag where it and its parent are children on
    /// opposite sides, zig-zig where on the same side (the parent first), and zig where its
    /// parent is the root.
    pub fn splay(&mut self, node: usize)
        requires
            old(self).wf(),
            node < old(self).len_spec(),
        ensures
            final(self).wf(),
            final(self).values() == old(self).values(),
            final(self).root_spec() == Some(node),
            final(self).total_weight() == old(self).total_weight(),
            final(self).len_spec() == old(self).len_spec(),
            final(self).in_order() == old(self).in_order(),
            final(self).order() == old(self).order(),
            old(self).root_spec() == Some(node) ==> *final(self) == *old(self),
    {
        proof {
            if old(self).root_spec() == Some(node) {
                self.lemma_wf_facts(node as int);
            }
        }
        while self.nodes[node].parent.is_some()
            invariant
                self.wf(),
                node < self.nodes@.len(),
                self.nodes@.len() == old(self).nodes@.len(),
                self.order() == old(self).order(),
                old(self).root_spec() == Some(node) ==> *self == *old(self),
                old(self).root_spec() == Some(node) ==> self.nodes@[node as int].parent is None,
                self.values() == old(self).values(),
                self.total_weight() == old(self).total_weight(),
            decreases self.nodes@.len() - self.sizes@[node as int],
        {
            let p = self.nodes[node].parent.unwrap();
            proof {
                self.lemma_wf_facts(node as int);
                self.lemma_wf_facts(p as int);
            }
            let ghost t0 = *self;
            if self.nodes[p].parent.is_none() {
                self.rotate_up(node);
                proof {
                    lemma_rotated_total(t0, *self, node as int);
                }
            } else {
                let node_left = self.is_left_child(node);
                let parent_left = self.is_left_child(p);
                if node_left == parent_left {
                    self.rotate_up(p);
                    let ghost t1 = *self;
                    proof {
                        lemma_rotated_total(t0, t1, p as int);
                        let g = t0.nodes@[p as int].parent->Some_0 as int;
                        t0.lemma_wf_facts(g);
                        assert(self.sizes@[node as int] == t0.sizes@[node as int]);
                        self.lemma_wf_facts(p as int);
                    }
                    self.rotate_up(node);
                    proof {
                        lemma_rotated_total(t1, *self, node as int);
                    }
                } else {
                    self.rotate_up(node);
                    let ghost t1 = *self;
                    proof {
                        lemma_rotated_total(t0, t1, node as int);
                    }
                    self.rotate_up(node);
                    proof {
                        lemma_rotated_total(t1, *self, node as int);
                    }
                }
            }
            proof {
                self.lemma_wf_facts(node as int);
            }
        }
        proof {
            self.lemma_wf_facts(node as int);
            lemma_in_order_same(*old(self), *self);
        }
    }

    /// This tree is `t0` after `pivot` was rotated over its parent: `pivot` took the parent's
    /// place, size and weight; no other node changed size; and only `pivot`, its old parent and
    /// the subtree that moved between them changed parent.
    pub closed spec fn rotated(&self, t0: Self, pivot: int) -> bool {
        let g = t0.nodes@[pivot].parent->Some_0 as int;
        &&& self.nodes@.len() == t0.nodes@.len()
        &&& self.values() == t0.values()
        &&& self.nodes@[pivot].parent == t0.nodes@[g].parent
        &&& self.sizes@[pivot] == t0.sizes@[g]
        &&& self.nodes@[pivot].weight == t0.nodes@[g].weight
        &&& forall|x: int| 0 <= x < t0.nodes@.len() && x != pivot && x != g ==> #[trigger] self.sizes@[x] == t0.sizes@[x]
        &&& forall|x: int|
            0 <= x < t0.nodes@.len() && x != pivot && x != g ==> (#[trigger] self.nodes@[x]).weight == t0.nodes@[x].weight
        &&& forall|x: int|
            0 <= x < t0.nodes@.len() && x != pivot && x != g && t0.nodes@[x].parent != Some(pivot as usize)
                ==> (#[trigger] self.nodes@[x]).parent == t0.nodes@[x].parent
    }
}

/// In a well-formed tree, which every public operation and every rotation leaves behind, the
/// weight of each node is its own length plus the weights of its children.
pub proof fn lemma_weight_law<V: Value>(t: &Tree<V>, i: int)
    requires
        t.wf(),
        0 <= i < t.len_spec(),
    ensures
        t.weight_ok(i),
{
    t.lemma_wf_facts(i);
}

proof fn lemma_order_unfold<V: Value>(t: Tree<V>, i: int)
    requires
        t.wf(),
        0 <= i < t.nodes@.len(),
    ensures
        t.order_at(i) == t.link_order(t.nodes@[i].left) + seq![i as usize] + t.link_order(t.nodes@[i].right),
{
    t.lemma_wf_facts(i);
}

/// Every index in the in-order sequence of a subtree is a node of the tree.
proof fn lemma_order_in_range<V: Value>(t: Tree<V>, i: int)
    requires
        t.wf(),
        0 <= i < t.nodes@.len(),
    ensures
        forall|k: int| 0 <= k < t.order_at(i).len() ==> (#[trigger] t.order_at(i)[k]) < t.nodes@.len(),
    decreases t.sizes@[i],
{
    t.lemma_wf_facts(i);
    lemma_order_unfold(t, i);
    let n = t.nodes@[i];
    if n.left is Some {
        t.lemma_wf_facts(n.left->Some_0 as int);
        lemma_order_in_range(t, n.left->Some_0 as int);
    }
    if n.right is Some {
        t.lemma_wf_facts(n.right->Some_0 as int);
        lemma_order_in_range(t, n.right->Some_0 as int);
    }
    let l = t.link_order(n.left);
    let r = t.link_order(n.right);
    assert forall|k: int| 0 <= k < t.order_at(i).len() implies (#[trigger] t.order_at(i)[k]) < t.nodes@.len() by {
        if k < l.len() {
            assert(t.order_at(i)[k] == l[k]);
        } else if k > l.len() {
            assert(t.order_at(i)[k] == r[k - l.len() - 1]);
        }
    }
}

/// Every index in the in-order sequence of the tree is a node of the tree.
proof fn lemma_order_root_in_range<V: Value>(t: Tree<V>)
    requires
        t.wf(),
    ensures
        forall|k: int| 0 <= k < t.order().len() ==> (#[trigger] t.order()[k]) < t.nodes@.len(),
{
    if t.root is Some {
        lemma_order_in_range(t, t.root->Some_0 as int);
    }
}

/// Trees with the same in-order indices and the same value at each index represent the same
/// sequence.
proof fn lemma_in_order_same<V: Value>(t0: Tree<V>, t1: Tree<V>)
    requires
        t0.wf(),
        t0.order() == t1.order(),
        t0.nodes@.len() == t1.nodes@.len(),
        t0.values() == t1.values(),
    ensures
        t0.in_order() == t1.in_order(),
{
    lemma_order_root_in_range(t0);
    assert forall|k: int| 0 <= k < t0.order().len() implies #[trigger] t0.in_order()[k] == t1.in_order()[k] by {
        let i = t0.order()[k] as int;
        assert(0 <= i < t0.nodes@.len());
        assert(t0.values()[i] == t0.nodes@[i].value);
        assert(t1.values()[i] == t1.nodes@[i].value);
        assert(t0.in_order()[k] == t0.nodes@[i].value);
        assert(t1.in_order()[k] == t1.nodes@[i].value);
    }
    assert(t0.in_order() =~= t1.in_order());
}

/// A rotation keeps the in-order sequence: below `pivot` sits what sat below the old parent,
/// the old parent holds its other subtree and the one that moved, and elsewhere nothing
/// changes.
#[verifier::rlimit(100)]
proof fn lemma_rotate_order<V: Value>(
    t0: Tree<V>,
    t1: Tree<V>,
    pivot: int,
    g: int,
    gg: Option<usize>,
    a: Option<usize>,
    b: Option<usize>,
    c: Option<usize>,
    gg_left: bool,
    left: bool,
    x: int,
)
    requires
        rotation_step(t0, t1, pivot, g, gg, a, b, c, gg_left, left),
        t1.wf(),
        0 <= x < t1.nodes@.len(),
    ensures
        t1.order_at(x) == if x == pivot {
            t0.order_at(g)
        } else if x == g {
            if left {
                t0.link_order(a) + seq![g as usize] + t0.link_order(b)
            } else {
                t0.link_order(b) + seq![g as usize] + t0.link_order(a)
            }
        } else {
            t0.order_at(x)
        },
    decreases t1.sizes@[x],
{
    lemma_rotate_distinct(t0, t1, pivot, g, gg, a, b, c, gg_left, left);
    t1.lemma_wf_facts(x);
    lemma_order_unfold(t1, x);
    let n1 = t1.nodes@[x];
    if x == pivot {
        t0.lemma_wf_facts(pivot);
        t0.lemma_wf_facts(g);
        lemma_order_unfold(t0, g);
        lemma_order_unfold(t0, pivot);
        t1.lemma_wf_facts(g);
        lemma_rotate_order(t0, t1, pivot, g, gg, a, b, c, gg_left, left, g);
        if c is Some {
            t1.lemma_wf_facts(c->Some_0 as int);
            lemma_rotate_order(t0, t1, pivot, g, gg, a, b, c, gg_left, left, c->Some_0 as int);
        }
        assert(t1.link_order(c) == t0.link_order(c));
        if left {
            assert(t1.link_order(n1.left) == t0.link_order(a) + seq![g as usize] + t0.link_order(b));
        } else {
            assert(t1.link_order(n1.right) == t0.link_order(b) + seq![g as usize] + t0.link_order(a));
        }
        assert(t1.order_at(x) =~= t0.order_at(g));
    } else if x == g {
        if a is Some {
            t1.lemma_wf_facts(a->Some_0 as int);
            lemma_rotate_order(t0, t1, pivot, g, gg, a, b, c, gg_left, left, a->Some_0 as int);
        }
        if b is Some {
            t1.lemma_wf_facts(b->Some_0 as int);
            lemma_rotate_order(t0, t1, pivot, g, gg, a, b, c, gg_left, left, b->Some_0 as int);
        }
        assert(t1.link_order(a) == t0.link_order(a));
        assert(t1.link_order(b) == t0.link_order(b));
    } else {
        t0.lemma_wf_facts(x);
        lemma_order_unfold(t0, x);
        if gg == Some(x as usize) {
            t0.lemma_wf_facts(g);
        } else if b == Some(x as usize) {
            assert(n1.left == t0.nodes@[x].left && n1.right == t0.nodes@[x].right);
        } else {
            assert(n1 == t0.nodes@[x]);
        }
        if n1.left is Some {
            t1.lemma_wf_facts(n1.left->Some_0 as int);
            lemma_rotate_order(t0, t1, pivot, g, gg, a, b, c, gg_left, left, n1.left->Some_0 as int);
        }
        if n1.right is Some {
            t1.lemma_wf_facts(n1.right->Some_0 as int);
            lemma_rotate_order(t0, t1, pivot, g, gg, a, b, c, gg_left, left, n1.right->Some_0 as int);
        }
        assert(t1.link_order(n1.left) == t0.link_order(t0.nodes@[x].left));
        assert(t1.link_order(n1.right) == t0.link_order(t0.nodes@[x].right));
    }
}

/// A rotation keeps the in-order sequence of the whole tree.
proof fn lemma_rotate_order_root<V: Value>(
    t0: Tree<V>,
    t1: Tree<V>,
    pivot: int,
    g: int,
    gg: Option<usize>,
    a: Option<usize>,
    b: Option<usize>,
    c: Option<usize>,
    gg_left: bool,
    left: bool,
)
    requires
        rotation_step(t0, t1, pivot, g, gg, a, b, c, gg_left, left),
        t1.wf(),
    ensures
        t1.order() == t0.order(),
{
    lemma_rotate_distinct(t0, t1, pivot, g, gg, a, b, c, gg_left, left);
    if gg is None {
        t0.lemma_wf_facts(g);
        lemma_rotate_order(t0, t1, pivot, g, gg, a, b, c, gg_left, left, pivot);
    } else {
        let r = t0.root->Some_0 as int;
        t0.lemma_wf_facts(r);
        t0.lemma_wf_facts(pivot);
        t0.lemma_wf_facts(g);
        lemma_rotate_order(t0, t1, pivot, g, gg, a, b, c, gg_left, left, r);
    }
}

/// A rotation keeps the weight of the root.
proof fn lemma_rotated_total<V: Value>(t0: Tree<V>, t1: Tree<V>, pivot: int)
    requires
        t0.wf(),
        t1.wf(),
        0 <= pivot < t0.nodes@.len(),
        t0.nodes@[pivot].parent is Some,
        t1.rotated(t0, pivot),
    ensures
        t1.total_weight() == t0.total_weight(),
{
    let g = t0.nodes@[pivot].parent->Some_0 as int;
    t0.lemma_wf_facts(pivot);
    let r = t0.root->Some_0 as int;
    t0.lemma_wf_facts(r);
    if r == g {
        assert(t1.nodes@[pivot].parent is None);
    } else {
        assert(r != pivot);
        assert(t1.nodes@[r].parent == t0.nodes@[r].parent);
        assert(t1.nodes@[r].weight == t0.nodes@[r].weight);
    }
}

/// `t1` is `t0` with node `idx` added as the root above `prev`, the old root: `left` and
/// `right` are the children of `prev` in `t0`.
spec fn insert_step<V: Value>(
    t0: Tree<V>,
    t1: Tree<V>,
    prev: int,
    idx: int,
    left: Option<usize>,
    right: Option<usize>,
) -> bool {
    &&& t0.wf()
    &&& t0.root == Some(prev as usize)
    &&& 0 <= prev < t0.nodes@.len()
    &&& idx == t0.nodes@.len()
    &&& idx < usize::MAX
    &&& t0.nodes@[prev].left == left
    &&& t0.nodes@[prev].right == right
    &&& t1.nodes@.len() == idx + 1
    &&& t1.root == Some(idx as usize)
    &&& t1.sizes@ == t0.sizes@.update(prev, (1 + link_size(t0.sizes@, left)) as nat).push(
        (2 + link_size(t0.sizes@, left) + link_size(t0.sizes@, right)) as nat,
    )
    &&& t1.nodes@[prev] == (Node {
        right: None,
        parent: Some(idx as usize),
        weight: (t0.nodes@[prev].value.length() + link_weight(t0.nodes@, left)) as u64,
        ..t0.nodes@[prev]
    })
    &&& t1.nodes@[idx].parent is None
    &&& t1.nodes@[idx].left == Some(prev as usize)
    &&& t1.nodes@[idx].right == right
    &&& t1.nodes@[idx].weight == t1.nodes@[idx].value.length() + t0.nodes@[prev].value.length() + link_weight(
        t0.nodes@,
        left,
    ) + link_weight(t0.nodes@, right)
    &&& (right is Some ==> t1.nodes@[right->Some_0 as int] == (Node {
        parent: Some(idx as usize),
        ..t0.nodes@[right->Some_0 as int]
    }))
    &&& forall|x: int| 0 <= x < idx && x != prev && Some(x as usize) != right ==> #[trigger] t1.nodes@[x] == t0.nodes@[x]
}

/// Adding node `idx` as the new root above `prev` places it right after `prev` in order: the
/// new root holds `prev` with its left subtree, then itself, then the old right subtree of
/// `prev`; elsewhere nothing changes.
#[verifier::rlimit(100)]
proof fn lemma_insert_order<V: Value>(
    t0: Tree<V>,
    t1: Tree<V>,
    prev: int,
    idx: int,
    left: Option<usize>,
    right: Option<usize>,
    x: int,
)
    requires
        insert_step(t0, t1, prev, idx, left, right),
        t1.wf(),
        0 <= x < t1.nodes@.len(),
    ensures
        t1.order_at(x) == if x == idx {
            t0.link_order(left) + seq![prev as usize] + seq![idx as usize] + t0.link_order(right)
        } else if x == prev {
            t0.link_order(left) + seq![prev as usize]
        } else {
            t0.order_at(x)
        },
    decreases t1.sizes@[x],
{
    t1.lemma_wf_facts(x);
    lemma_order_unfold(t1, x);
    t0.lemma_wf_facts(prev);
    let n1 = t1.nodes@[x];
    if x == idx {
        t1.lemma_wf_facts(prev);
        lemma_insert_order(t0, t1, prev, idx, left, right, prev);
        if right is Some {
            let r = right->Some_0 as int;
            t1.lemma_wf_facts(r);
            lemma_insert_order(t0, t1, prev, idx, left, right, r);
        }
        assert(t1.link_order(n1.left) == t0.link_order(left) + seq![prev as usize]);
        assert(t1.link_order(n1.right) == t0.link_order(right));
    } else if x == prev {
        if left is Some {
            let l = left->Some_0 as int;
            t1.lemma_wf_facts(l);
            lemma_insert_order(t0, t1, prev, idx, left, right, l);
        }
        assert(t1.link_order(n1.left) == t0.link_order(left));
    } else {
        t0.lemma_wf_facts(x);
        lemma_order_unfold(t0, x);
        assert(n1.left == t0.nodes@[x].left && n1.right == t0.nodes@[x].right);
        if n1.left is Some {
            t1.lemma_wf_facts(n1.left->Some_0 as int);
            lemma_insert_order(t0, t1, prev, idx, left, right, n1.left->Some_0 as int);
        }
        if n1.right is Some {
            t1.lemma_wf_facts(n1.right->Some_0 as int);
            lemma_insert_order(t0, t1, prev, idx, left, right, n1.right->Some_0 as int);
        }
        assert(t1.link_order(n1.left) == t0.link_order(t0.nodes@[x].left));
        assert(t1.link_order(n1.right) == t0.link_order(t0.nodes@[x].right));
    }
}

/// Adding node `idx` as the new root above `prev` keeps the tree well formed.
proof fn lemma_insert_after_wf<V: Value>(
    t0: Tree<V>,
    t1: Tree<V>,
    prev: int,
    idx: int,
    left: Option<usize>,
    right: Option<usize>,
)
    requires
        insert_step(t0, t1, prev, idx, left, right),
    ensures
        t1.wf(),
{
    let n0 = t0.nodes@;
    let n1 = t1.nodes@;
    t0.lemma_wf_facts(prev);
    if left is Some {
        t0.lemma_wf_facts(left->Some_0 as int);
    }
    if right is Some {
        t0.lemma_wf_facts(right->Some_0 as int);
    }
    assert(left is Some ==> left != right);
    assert forall|i: int| 0 <= i < n1.len() implies #[trigger] t1.links_ok(i) && t1.weight_ok(i) by {
        if i == idx {
        } else if i == prev {
        } else {
            t0.lemma_wf_facts(i);
            let o = n0[i];
            if o.left is Some {
                t0.lemma_wf_facts(o.left->Some_0 as int);
            }
            if o.right is Some {
                t0.lemma_wf_facts(o.right->Some_0 as int);
            }
            if o.parent is Some {
                t0.lemma_wf_facts(o.parent->Some_0 as int);
            }
            if Some(i as usize) != right {
                assert(n1[i] == o);
            }
        }
    }
    assert forall|i: int| 0 <= i < n1.len() && (#[trigger] n1[i]).parent is None implies t1.root == Some(i as usize) by {
        if i < idx {
            t0.lemma_wf_facts(i);
        }
    }
}

/// `t1` is `t0` after a rotation of `pivot` over its parent `g` (`left` for a rotation to the
/// left): `a` is the other child of `g`, `b` the inner child of `pivot` that moves to `g`, `c`
/// the outer child of `pivot`, `gg` the parent of `g`, `gg_left` whether `g` was its left child.
spec fn rotation_step<V: Value>(
    t0: Tree<V>,
    t1: Tree<V>,
    pivot: int,
    g: int,
    gg: Option<usize>,
    a: Option<usize>,
    b: Option<usize>,
    c: Option<usize>,
    gg_left: bool,
    left: bool,
) -> bool {
    &&& t0.wf()
    &&& 0 <= pivot < t0.nodes@.len()
    &&& 0 <= g < t0.nodes@.len()
    &&& t0.nodes@[pivot].parent == Some(g as usize)
    &&& t0.nodes@[g].parent == gg
    &&& (left ==> t0.nodes@[g].right == Some(pivot as usize) && t0.nodes@[g].left == a && t0.nodes@[pivot].left == b
        && t0.nodes@[pivot].right == c)
    &&& (!left ==> t0.nodes@[g].left == Some(pivot as usize) && t0.nodes@[g].right == a && t0.nodes@[pivot].right == b
        && t0.nodes@[pivot].left == c)
    &&& (gg is Some ==> gg_left == (t0.nodes@[gg->Some_0 as int].left == Some(g as usize)))
    &&& t1.nodes@.len() == t0.nodes@.len()
    &&& t1.sizes@ == t0.sizes@.update(g, (1 + link_size(t0.sizes@, a) + link_size(t0.sizes@, b)) as nat).update(
        pivot,
        t0.sizes@[g],
    )
    &&& t1.nodes@[g] == (Node {
        parent: Some(pivot as usize),
        left: if left { a } else { b },
        right: if left { b } else { a },
        weight: (t0.nodes@[g].value.length() + link_weight(t0.nodes@, a) + link_weight(t0.nodes@, b)) as u64,
        ..t0.nodes@[g]
    })
    &&& t1.nodes@[pivot] == (Node {
        parent: gg,
        left: if left { Some(g as usize) } else { c },
        right: if left { c } else { Some(g as usize) },
        weight: (t0.nodes@[pivot].value.length() + t0.nodes@[g].value.length() + link_weight(t0.nodes@, a)
            + link_weight(t0.nodes@, b) + link_weight(t0.nodes@, c)) as u64,
        ..t0.nodes@[pivot]
    })
    &&& (gg is Some ==> t1.nodes@[gg->Some_0 as int] == (Node {
        left: if gg_left { Some(pivot as usize) } else { t0.nodes@[gg->Some_0 as int].left },
        right: if gg_left { t0.nodes@[gg->Some_0 as int].right } else { Some(pivot as usize) },
        ..t0.nodes@[gg->Some_0 as int]
    }))
    &&& (b is Some ==> t1.nodes@[b->Some_0 as int] == (Node { parent: Some(g as usize), ..t0.nodes@[b->Some_0 as int] }))
    &&& (forall|x: int|
        0 <= x < t0.nodes@.len() && x != pivot && x != g && Some(x as usize) != gg && Some(x as usize) != b
            ==> #[trigger] t1.nodes@[x] == t0.nodes@[x])
    &&& (gg is None ==> t1.root == Some(pivot as usize))
    &&& (gg is Some ==> t1.root == t0.root)
}

proof fn lemma_rotate_distinct<V: Value>(
    t0: Tree<V>,
    t1: Tree<V>,
    pivot: int,
    g: int,
    gg: Option<usize>,
    a: Option<usize>,
    b: Option<usize>,
    c: Option<usize>,
    gg_left: bool,
    left: bool,
)
    requires
        rotation_step(t0, t1, pivot, g, gg, a, b, c, gg_left, left),
    ensures
        pivot != g,
        gg != Some(pivot as usize) && gg != Some(g as usize),
        b != Some(g as usize) && b != Some(pivot as usize) && (b is Some ==> b != gg),
        a != Some(g as usize) && a != Some(pivot as usize) && (a is Some ==> a != b),
        c != Some(g as usize) && c != Some(pivot as usize) && (c is Some ==> c != b && c != gg),
        gg is Some ==> a != gg,
{
    t0.lemma_wf_facts(pivot);
    t0.lemma_wf_facts(g);
    if gg is Some {
        t0.lemma_wf_facts(gg->Some_0 as int);
    }
    if a is Some {
        t0.lemma_wf_facts(a->Some_0 as int);
    }
    if b is Some {
        t0.lemma_wf_facts(b->Some_0 as int);
    }
    if c is Some {
        t0.lemma_wf_facts(c->Some_0 as int);
    }
}

proof fn lemma_rotate_pivot<V: Value>(
    t0: Tree<V>,
    t1: Tree<V>,
    pivot: int,
    g: int,
    gg: Option<usize>,
    a: Option<usize>,
    b: Option<usize>,
    c: Option<usize>,
    gg_left: bool,
    left: bool,
    i: int,
)
    requires
        rotation_step(t0, t1, pivot, g, gg, a, b, c, gg_left, left),
        0 <= i < t0.nodes@.len(),
        i == pivot,
    ensures
        t1.links_ok(i),
        t1.weight_ok(i),
{
    lemma_rotate_distinct(t0, t1, pivot, g, gg, a, b, c, gg_left, left);
    t0.lemma_wf_facts(pivot);
    t0.lemma_wf_facts(g);
    if a is Some {
        t0.lemma_wf_facts(a->Some_0 as int);
    }
    if b is Some {
        t0.lemma_wf_facts(b->Some_0 as int);
    }
    if c is Some {
        t0.lemma_wf_facts(c->Some_0 as int);
    }
    if gg is Some {
        t0.lemma_wf_facts(gg->Some_0 as int);
    }
}

proof fn lemma_rotate_parent<V: Value>(
    t0: Tree<V>,
    t1: Tree<V>,
    pivot: int,
    g: int,
    gg: Option<usize>,
    a: Option<usize>,
    b: Option<usize>,
    c: Option<usize>,
    gg_left: bool,
    left: bool,
    i: int,
)
    requires
        rotation_step(t0, t1, pivot, g, gg, a, b, c, gg_left, left),
        0 <= i < t0.nodes@.len(),
        i == g,
    ensures
        t1.links_ok(i),
        t1.weight_ok(i),
{
    lemma_rotate_distinct(t0, t1, pivot, g, gg, a, b, c, gg_left, left);
    t0.lemma_wf_facts(pivot);
    t0.lemma_wf_facts(g);
    if a is Some {
        t0.lemma_wf_facts(a->Some_0 as int);
    }
    if b is Some {
        t0.lemma_wf_facts(b->Some_0 as int);
    }
    if c is Some {
        t0.lemma_wf_facts(c->Some_0 as int);
    }
}

proof fn lemma_rotate_grandparent<V: Value>(
    t0: Tree<V>,
    t1: Tree<V>,
    pivot: int,
    g: int,
    gg: Option<usize>,
    a: Option<usize>,
    b: Option<usize>,
    c: Option<usize>,
    gg_left: bool,
    left: bool,
    i: int,
)
    requires
        rotation_step(t0, t1, pivot, g, gg, a, b, c, gg_left, left),
        0 <= i < t0.nodes@.len(),
        gg == Some(i as usize),
    ensures
        t1.links_ok(i),
        t1.weight_ok(i),
{
    lemma_rotate_distinct(t0, t1, pivot, g, gg, a, b, c, gg_left, left);
    t0.lemma_wf_facts(pivot);
    t0.lemma_wf_facts(g);
    t0.lemma_wf_facts(i);
    let o = t0.nodes@[i];
    if o.left is Some {
        t0.lemma_wf_facts(o.left->Some_0 as int);
    }
    if o.right is Some {
        t0.lemma_wf_facts(o.right->Some_0 as int);
    }
    if o.parent is Some {
        t0.lemma_wf_facts(o.parent->Some_0 as int);
    }
}

proof fn lemma_rotate_moved<V: Value>(
    t0: Tree<V>,
    t1: Tree<V>,
    pivot: int,
    g: int,
    gg: Option<usize>,
    a: Option<usize>,
    b: Option<usize>,
    c: Option<usize>,
    gg_left: bool,
    left: bool,
    i: int,
)
    requires
        rotation_step(t0, t1, pivot, g, gg, a, b, c, gg_left, left),
        0 <= i < t0.nodes@.len(),
        b == Some(i as usize),
    ensures
        t1.links_ok(i),
        t1.weight_ok(i),
{
    lemma_rotate_distinct(t0, t1, pivot, g, gg, a, b, c, gg_left, left);
    t0.lemma_wf_facts(pivot);
    t0.lemma_wf_facts(g);
    t0.lemma_wf_facts(i);
    let o = t0.nodes@[i];
    if o.left is Some {
        t0.lemma_wf_facts(o.left->Some_0 as int);
    }
    if o.right is Some {
        t0.lemma_wf_facts(o.right->Some_0 as int);
    }
}

proof fn lemma_rotate_other<V: Value>(
    t0: Tree<V>,
    t1: Tree<V>,
    pivot: int,
    g: int,
    gg: Option<usize>,
    a: Option<usize>,
    b: Option<usize>,
    c: Option<usize>,
    gg_left: bool,
    left: bool,
    i: int,
)
    requires
        rotation_step(t0, t1, pivot, g, gg, a, b, c, gg_left, left),
        0 <= i < t0.nodes@.len(),
        i != pivot && i != g && gg != Some(i as usize) && b != Some(i as usize),
    ensures
        t1.links_ok(i),
        t1.weight_ok(i),
{
    lemma_rotate_distinct(t0, t1, pivot, g, gg, a, b, c, gg_left, left);
    t0.lemma_wf_facts(pivot);
    t0.lemma_wf_facts(g);
    t0.lemma_wf_facts(i);
    if gg is Some {
        t0.lemma_wf_facts(gg->Some_0 as int);
    }
    let o = t0.nodes@[i];
    assert(t1.nodes@[i] == o);
    assert(t1.sizes@[i] == t0.sizes@[i]);
    if o.left is Some {
        t0.lemma_wf_facts(o.left->Some_0 as int);
    }
    if o.right is Some {
        t0.lemma_wf_facts(o.right->Some_0 as int);
    }
    if o.parent is Some {
        t0.lemma_wf_facts(o.parent->Some_0 as int);
    }
}

proof fn lemma_rotate_wf<V: Value>(
    t0: Tree<V>,
    t1: Tree<V>,
    pivot: int,
    g: int,
    gg: Option<usize>,
    a: Option<usize>,
    b: Option<usize>,
    c: Option<usize>,
    gg_left: bool,
    left: bool,
)
    requires
        rotation_step(t0, t1, pivot, g, gg, a, b, c, gg_left, left),
    ensures
        t1.wf(),
        t1.rotated(t0, pivot),
{
    let n0 = t0.nodes@;
    let n1 = t1.nodes@;
    lemma_rotate_distinct(t0, t1, pivot, g, gg, a, b, c, gg_left, left);
    assert(t1.values() =~= t0.values()) by {
        assert forall|x: int| 0 <= x < n1.len() implies #[trigger] n1[x].value == n0[x].value by {}
    }
    assert forall|i: int| 0 <= i < n1.len() implies #[trigger] t1.links_ok(i) && t1.weight_ok(i) by {
        if i == pivot {
            lemma_rotate_pivot(t0, t1, pivot, g, gg, a, b, c, gg_left, left, i);
        } else if i == g {
            lemma_rotate_parent(t0, t1, pivot, g, gg, a, b, c, gg_left, left, i);
        } else if gg == Some(i as usize) {
            lemma_rotate_grandparent(t0, t1, pivot, g, gg, a, b, c, gg_left, left, i);
        } else if b == Some(i as usize) {
            lemma_rotate_moved(t0, t1, pivot, g, gg, a, b, c, gg_left, left, i);
        } else {
            lemma_rotate_other(t0, t1, pivot, g, gg, a, b, c, gg_left, left, i);
        }
    }
    t0.lemma_wf_facts(pivot);
    t0.lemma_wf_facts(g);
    assert forall|i: int| 0 <= i < n1.len() && (#[trigger] n1[i]).parent is None implies t1.root == Some(i as usize) by {
        t0.lemma_wf_facts(i);
    }
    assert forall|x: int| 0 <= x < t0.nodes@.len() && x != pivot && x != g implies (#[trigger] t1.nodes@[x]).weight
        == t0.nodes@[x].weight by {}
    assert forall|x: int|
        0 <= x < t0.nodes@.len() && x != pivot && x != g && t0.nodes@[x].parent != Some(pivot as usize)
            implies (#[trigger] t1.nodes@[x]).parent == t0.nodes@[x].parent by {
        t0.lemma_wf_facts(pivot);
        if b == Some(x as usize) {
            t0.lemma_wf_facts(x);
        }
    }
}

} // verus!
