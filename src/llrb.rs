use vstd::prelude::*;
use std::cmp::Ordering;
use crate::text::{comma_joined, decimal, join_commas, u64_to_decimal};

verus! {

/// A key of the tree: a strict total order and its comparison.
pub trait Key: Sized {
    spec fn less(self, other: Self) -> bool;

    /// `less` is irreflexive, transitive and total.
    proof fn lemma_order(a: Self, b: Self, c: Self)
        ensures
            !a.less(a),
            a.less(b) && b.less(c) ==> a.less(c),
            a.less(b) || a == b || b.less(a),
    ;

    fn cmp(&self, other: &Self) -> (r: Ordering)
        ensures
            r is Less <==> self.less(*other),
            r is Equal <==> *self == *other,
            r is Greater <==> other.less(*self),
    ;

    fn clone_key(&self) -> (r: Self)
        ensures
            r == *self,
    ;
}

/// A value of the tree: its text and a copy.
pub trait Value: Sized {
    spec fn text(&self) -> Seq<char>;

    fn to_string(&self) -> (r: String)
        ensures
            r@ == self.text(),
    ;

    fn clone_value(&self) -> (r: Self)
        ensures
            r == *self,
    ;
}

impl Key for u64 {
    open spec fn less(self, other: Self) -> bool {
        self < other
    }

    proof fn lemma_order(a: Self, b: Self, c: Self) {
    }

    fn cmp(&self, other: &Self) -> (r: Ordering) {
        if *self < *other {
            Ordering::Less
        } else if *self > *other {
            Ordering::Greater
        } else {
            Ordering::Equal
        }
    }

    fn clone_key(&self) -> (r: Self) {
        *self
    }
}

impl Value for u64 {
    open spec fn text(&self) -> Seq<char> {
        decimal(*self as nat)
    }

    fn to_string(&self) -> (r: String) {
        u64_to_decimal(*self)
    }

    fn clone_value(&self) -> (r: Self) {
        *self
    }
}

/// Whether the keys of the pairs rise strictly.
pub open spec fn sorted<K: Key, V>(s: Seq<(K, V)>) -> bool {
    forall|i: int, j: int| 0 <= i < j < s.len() ==> (#[trigger] s[i]).0.less((#[trigger] s[j]).0)
}

/// The pairs after setting `k` to `v`: the pair of key `k` replaced, or a new one placed in order.
pub open spec fn sorted_insert<K: Key, V>(s: Seq<(K, V)>, k: K, v: V) -> Seq<(K, V)>
    decreases s.len(),
{
    if s.len() == 0 {
        seq![(k, v)]
    } else if k.less(s[0].0) {
        seq![(k, v)] + s
    } else if k == s[0].0 {
        seq![(k, v)] + s.drop_first()
    } else {
        seq![s[0]] + sorted_insert(s.drop_first(), k, v)
    }
}

/// The pairs without the first pair of key `k`.
pub open spec fn sorted_remove<K: Key, V>(s: Seq<(K, V)>, k: K) -> Seq<(K, V)>
    decreases s.len(),
{
    if s.len() == 0 {
        s
    } else if s[0].0 == k {
        s.drop_first()
    } else {
        seq![s[0]] + sorted_remove(s.drop_first(), k)
    }
}

/// The last pair whose key is not above `k`: in sorted pairs, the greatest key at most `k`.
pub open spec fn seq_floor<K: Key, V>(s: Seq<(K, V)>, k: K) -> Option<(K, V)>
    decreases s.len(),
{
    if s.len() == 0 {
        None
    } else if !k.less(s.last().0) {
        Some(s.last())
    } else {
        seq_floor(s.drop_last(), k)
    }
}

/// The parts around a node of sorted pairs are sorted, below and above its key.
proof fn lemma_sorted_parts<K: Key, V>(a: Seq<(K, V)>, n: (K, V), b: Seq<(K, V)>)
    requires
        sorted(a + seq![n] + b),
    ensures
        sorted(a),
        sorted(b),
        forall|i: int| 0 <= i < a.len() ==> (#[trigger] a[i]).0.less(n.0),
        forall|i: int| 0 <= i < b.len() ==> n.0.less((#[trigger] b[i]).0),
{
    let s = a + seq![n] + b;
    assert forall|i: int, j: int| 0 <= i < j < a.len() implies (#[trigger] a[i]).0.less((#[trigger] a[j]).0) by {
        assert(s[i] == a[i] && s[j] == a[j]);
    }
    assert forall|i: int, j: int| 0 <= i < j < b.len() implies (#[trigger] b[i]).0.less((#[trigger] b[j]).0) by {
        assert(s[a.len() + 1 + i] == b[i] && s[a.len() + 1 + j] == b[j]);
    }
    assert forall|i: int| 0 <= i < a.len() implies (#[trigger] a[i]).0.less(n.0) by {
        assert(s[i] == a[i] && s[a.len() as int] == n);
    }
    assert forall|i: int| 0 <= i < b.len() implies n.0.less((#[trigger] b[i]).0) by {
        assert(s[a.len() + 1 + i] == b[i] && s[a.len() as int] == n);
    }
}

/// Setting a key keeps pairs sorted; the first pair is the new one or the old first.
proof fn lemma_insert_sorted<K: Key, V>(s: Seq<(K, V)>, k: K, v: V)
    requires
        sorted(s),
    ensures
        sorted(sorted_insert(s, k, v)),
        sorted_insert(s, k, v).len() > 0,
        sorted_insert(s, k, v)[0] == (k, v) || (s.len() > 0 && sorted_insert(s, k, v)[0] == s[0]),
    decreases s.len(),
{
    let r = sorted_insert(s, k, v);
    if s.len() == 0 {
    } else if k.less(s[0].0) {
        assert forall|i: int, j: int| 0 <= i < j < r.len() implies (#[trigger] r[i]).0.less((#[trigger] r[j]).0) by {
            if i == 0 {
                assert(r[j] == s[j - 1]);
                if j > 1 {
                    K::lemma_order(k, s[0].0, s[j - 1].0);
                }
            } else {
                assert(r[i] == s[i - 1] && r[j] == s[j - 1]);
            }
        }
    } else if k == s[0].0 {
        assert forall|i: int, j: int| 0 <= i < j < r.len() implies (#[trigger] r[i]).0.less((#[trigger] r[j]).0) by {
            assert(r[j] == s[j]);
            if i > 0 {
                assert(r[i] == s[i]);
            }
        }
    } else {
        let t = s.drop_first();
        assert forall|i: int, j: int| 0 <= i < j < t.len() implies (#[trigger] t[i]).0.less((#[trigger] t[j]).0) by {
            assert(t[i] == s[i + 1] && t[j] == s[j + 1]);
        }
        lemma_insert_sorted(t, k, v);
        let u = sorted_insert(t, k, v);
        K::lemma_order(k, s[0].0, k);
        assert forall|i: int, j: int| 0 <= i < j < r.len() implies (#[trigger] r[i]).0.less((#[trigger] r[j]).0) by {
            assert(r[j] == u[j - 1]);
            if i == 0 {
                assert(r[0] == s[0]);
                if t.len() > 0 {
                    assert(t[0] == s[1]);
                }
                assert(s[0].0.less(u[0].0));
                if j > 1 {
                    K::lemma_order(s[0].0, u[0].0, u[j - 1].0);
                }
            } else {
                assert(r[i] == u[i - 1]);
            }
        }
    }
}

/// Where setting a key acts, seen from a node of sorted pairs.
proof fn lemma_insert_split<K: Key, V>(l: Seq<(K, V)>, n: (K, V), r: Seq<(K, V)>, k: K, v: V)
    requires
        sorted(l + seq![n] + r),
    ensures
        k.less(n.0) ==> sorted_insert(l + seq![n] + r, k, v) == sorted_insert(l, k, v) + seq![n] + r,
        k == n.0 ==> sorted_insert(l + seq![n] + r, k, v) == l + seq![(k, v)] + r,
        n.0.less(k) ==> sorted_insert(l + seq![n] + r, k, v) == l + seq![n] + sorted_insert(r, k, v),
    decreases l.len(),
{
    let s = l + seq![n] + r;
    K::lemma_order(k, n.0, k);
    K::lemma_order(n.0, k, n.0);
    if l.len() == 0 {
        assert(s =~= seq![n] + r);
        assert(s[0] == n);
        assert(s.drop_first() =~= r);
        assert(seq![(k, v)] + s =~= sorted_insert(l, k, v) + seq![n] + r);
        assert(seq![(k, v)] + s.drop_first() =~= l + seq![(k, v)] + r);
        assert(seq![s[0]] + sorted_insert(s.drop_first(), k, v) =~= l + seq![n] + sorted_insert(r, k, v));
    } else {
        let s0 = l[0];
        let t = l.drop_first();
        assert(s[0] == s0);
        assert(s.drop_first() =~= t + seq![n] + r);
        assert(s[l.len() as int] == n);
        assert(s0.0.less(n.0));
        lemma_sorted_parts(l, n, r);
        assert forall|i: int, j: int| 0 <= i < j < s.len() - 1 implies (#[trigger] s.drop_first()[i]).0.less(
            (#[trigger] s.drop_first()[j]).0,
        ) by {
            assert(s.drop_first()[i] == s[i + 1] && s.drop_first()[j] == s[j + 1]);
        }
        lemma_insert_split(t, n, r, k, v);
        K::lemma_order(s0.0, n.0, k);
        K::lemma_order(k, s0.0, n.0);
        K::lemma_order(s0.0, k, s0.0);
        if k.less(s0.0) {
            assert(seq![(k, v)] + s =~= sorted_insert(l, k, v) + seq![n] + r);
        } else if k == s0.0 {
            assert(seq![(k, v)] + s.drop_first() =~= sorted_insert(l, k, v) + seq![n] + r);
        } else {
            if k.less(n.0) {
                assert(seq![s0] + (sorted_insert(t, k, v) + seq![n] + r) =~= sorted_insert(l, k, v) + seq![n] + r);
            } else if k == n.0 {
                assert(seq![s0] + (t + seq![(k, v)] + r) =~= l + seq![(k, v)] + r);
            } else {
                assert(seq![s0] + (t + seq![n] + sorted_insert(r, k, v)) =~= l + seq![n] + sorted_insert(r, k, v));
            }
        }
    }
}

/// Removing a key that no pair has changes nothing.
proof fn lemma_remove_absent<K: Key, V>(s: Seq<(K, V)>, k: K)
    requires
        forall|i: int| 0 <= i < s.len() ==> (#[trigger] s[i]).0 != k,
    ensures
        sorted_remove(s, k) == s,
    decreases s.len(),
{
    if s.len() > 0 {
        let t = s.drop_first();
        assert forall|i: int| 0 <= i < t.len() implies (#[trigger] t[i]).0 != k by {
            assert(t[i] == s[i + 1]);
        }
        lemma_remove_absent(t, k);
        assert(seq![s[0]] + t =~= s);
    }
}

/// Removing a key takes out at most one pair.
proof fn lemma_remove_shape<K: Key, V>(s: Seq<(K, V)>, k: K)
    ensures
        sorted_remove(s, k) == s || exists|p: int| 0 <= p < s.len() && sorted_remove(s, k) == s.remove(p),
    decreases s.len(),
{
    if s.len() > 0 {
        if s[0].0 == k {
            assert(s.drop_first() =~= s.remove(0));
        } else {
            let t = s.drop_first();
            lemma_remove_shape(t, k);
            if sorted_remove(t, k) == t {
                assert(seq![s[0]] + t =~= s);
            } else {
                let p = choose|p: int| 0 <= p < t.len() && sorted_remove(t, k) == t.remove(p);
                assert(seq![s[0]] + t.remove(p) =~= s.remove(p + 1));
            }
        }
    }
}

/// Removing a key keeps pairs sorted.
proof fn lemma_remove_sorted<K: Key, V>(s: Seq<(K, V)>, k: K)
    requires
        sorted(s),
    ensures
        sorted(sorted_remove(s, k)),
{
    lemma_remove_shape(s, k);
    if sorted_remove(s, k) != s {
        let p = choose|p: int| 0 <= p < s.len() && sorted_remove(s, k) == s.remove(p);
        let u = s.remove(p);
        assert forall|i: int, j: int| 0 <= i < j < u.len() implies (#[trigger] u[i]).0.less((#[trigger] u[j]).0) by {
            let ii = if i < p { i } else { i + 1 };
            let jj = if j < p { j } else { j + 1 };
            assert(u[i] == s[ii] && u[j] == s[jj]);
        }
    }
}

/// Where removing a key acts, seen from a node of sorted pairs.
proof fn lemma_remove_split<K: Key, V>(l: Seq<(K, V)>, n: (K, V), r: Seq<(K, V)>, k: K)
    requires
        sorted(l + seq![n] + r),
    ensures
        k.less(n.0) ==> sorted_remove(l + seq![n] + r, k) == sorted_remove(l, k) + seq![n] + r,
        k == n.0 ==> sorted_remove(l + seq![n] + r, k) == l + r,
        n.0.less(k) ==> sorted_remove(l + seq![n] + r, k) == l + seq![n] + sorted_remove(r, k),
    decreases l.len(),
{
    let s = l + seq![n] + r;
    K::lemma_order(k, n.0, k);
    K::lemma_order(n.0, k, n.0);
    lemma_sorted_parts(l, n, r);
    if l.len() == 0 {
        assert(s =~= seq![n] + r);
        assert(s[0] == n);
        assert(s.drop_first() =~= r);
        if k.less(n.0) {
            assert forall|i: int| 0 <= i < r.len() implies (#[trigger] r[i]).0 != k by {
                K::lemma_order(k, n.0, r[i].0);
                K::lemma_order(k, k, k);
            }
            lemma_remove_absent(r, k);
            assert(seq![n] + r =~= sorted_remove(l, k) + seq![n] + r);
        } else if k == n.0 {
            assert(r =~= l + r);
        } else {
            assert(seq![s[0]] + sorted_remove(r, k) =~= l + seq![n] + sorted_remove(r, k));
        }
    } else {
        let s0 = l[0];
        let t = l.drop_first();
        assert(s[0] == s0);
        assert(s.drop_first() =~= t + seq![n] + r);
        assert forall|i: int, j: int| 0 <= i < j < s.len() - 1 implies (#[trigger] s.drop_first()[i]).0.less(
            (#[trigger] s.drop_first()[j]).0,
        ) by {
            assert(s.drop_first()[i] == s[i + 1] && s.drop_first()[j] == s[j + 1]);
        }
        lemma_remove_split(t, n, r, k);
        K::lemma_order(s0.0, n.0, k);
        K::lemma_order(s0.0, k, s0.0);
        if s0.0 == k {
            assert(s.drop_first() =~= sorted_remove(l, k) + seq![n] + r);
        } else {
            if k.less(n.0) {
                assert(seq![s0] + (sorted_remove(t, k) + seq![n] + r) =~= sorted_remove(l, k) + seq![n] + r);
            } else if k == n.0 {
                assert(seq![s0] + (t + r) =~= l + r);
            } else {
                assert(seq![s0] + (t + seq![n] + sorted_remove(r, k)) =~= l + seq![n] + sorted_remove(r, k));
            }
        }
    }
}

/// The floor in a concatenation comes from the second part where it has one.
proof fn lemma_floor_concat<K: Key, V>(a: Seq<(K, V)>, b: Seq<(K, V)>, k: K)
    ensures
        seq_floor(a + b, k) == match seq_floor(b, k) {
            Some(x) => Some(x),
            None => seq_floor(a, k),
        },
    decreases b.len(),
{
    if b.len() == 0 {
        assert(a + b =~= a);
    } else {
        assert((a + b).last() == b.last());
        assert((a + b).drop_last() =~= a + b.drop_last());
        lemma_floor_concat(a, b.drop_last(), k);
    }
}

/// Pairs whose keys are all above `k` have no floor of `k`.
proof fn lemma_floor_above<K: Key, V>(b: Seq<(K, V)>, k: K)
    requires
        forall|i: int| 0 <= i < b.len() ==> k.less((#[trigger] b[i]).0),
    ensures
        seq_floor(b, k) is None,
    decreases b.len(),
{
    if b.len() > 0 {
        assert(b.last() == b[b.len() - 1]);
        let t = b.drop_last();
        assert forall|i: int| 0 <= i < t.len() implies k.less((#[trigger] t[i]).0) by {
            assert(t[i] == b[i]);
        }
        lemma_floor_above(t, k);
    }
}

/// Where the greatest key at most `k` lies, seen from a node of sorted pairs.
proof fn lemma_floor_split<K: Key, V>(l: Seq<(K, V)>, n: (K, V), r: Seq<(K, V)>, k: K)
    requires
        sorted(l + seq![n] + r),
    ensures
        k.less(n.0) ==> seq_floor(l + seq![n] + r, k) == seq_floor(l, k),
        k == n.0 ==> seq_floor(l + seq![n] + r, k) == Some(n),
        n.0.less(k) ==> seq_floor(l + seq![n] + r, k) == match seq_floor(r, k) {
            Some(x) => Some(x),
            None => Some(n),
        },
{
    lemma_sorted_parts(l, n, r);
    K::lemma_order(k, n.0, k);
    K::lemma_order(n.0, k, n.0);
    lemma_floor_concat(l + seq![n], r, k);
    lemma_floor_concat(l, seq![n], k);
    assert(seq![n].drop_last() =~= Seq::<(K, V)>::empty());
    assert(seq![n].last() == n);
    assert(seq_floor(Seq::<(K, V)>::empty(), k) is None);
    if k.less(n.0) {
        assert(seq_floor(seq![n], k) == seq_floor(Seq::<(K, V)>::empty(), k));
    }
    if !n.0.less(k) {
        assert forall|i: int| 0 <= i < r.len() implies k.less((#[trigger] r[i]).0) by {
            K::lemma_order(k, n.0, r[i].0);
        }
        lemma_floor_above(r, k);
    }
}

/// A node of the tree.
pub struct Node<K, V> {
    key: K,
    value: V,
    left: Option<Box<Node<K, V>>>,
    right: Option<Box<Node<K, V>>>,
    is_red: bool,
}

/// The pairs of a subtree, in order.
pub closed spec fn in_order<K, V>(t: Option<Box<Node<K, V>>>) -> Seq<(K, V)>
    decreases t,
{
    match t {
        None => Seq::empty(),
        Some(n) => in_order(n.left) + seq![(n.key, n.value)] + in_order(n.right),
    }
}

/// The pairs of the subtree rooted at `n`, in order.
spec fn node_order<K, V>(n: Box<Node<K, V>>) -> Seq<(K, V)> {
    in_order(Some(n))
}

/// The pairs of a node: those of its left subtree, its own, those of its right subtree.
proof fn lemma_in_order_node<K, V>(n: Box<Node<K, V>>)
    ensures
        in_order(Some(n)) == in_order(n.left) + seq![(n.key, n.value)] + in_order(n.right),
{
}

impl<K: Key, V> Node<K, V> {
    /// The pairs of the subtree rooted here, in order.
    pub closed spec fn pairs(self) -> Seq<(K, V)> {
        in_order(Some(Box::new(self)))
    }

    pub closed spec fn red(self) -> bool {
        self.is_red
    }

    pub fn new(key: K, value: V, is_red: bool) -> (r: Node<K, V>)
        ensures
            r.pairs() == seq![(key, value)],
            r.red() == is_red,
    {
        proof {
            let n = Box::new(Node { key, value, left: None, right: None, is_red });
            lemma_in_order_node(n);
            assert(in_order(Some(n)) =~= seq![(key, value)]);
        }
        Node { key, value, left: None, right: None, is_red }
    }
}

fn is_red<K, V>(t: &Option<Box<Node<K, V>>>) -> (r: bool)
    ensures
        r == (t is Some && t->Some_0.is_red),
{
    match t {
        Some(n) => n.is_red,
        None => false,
    }
}

fn need_rotate_left<K, V>(n: &Box<Node<K, V>>) -> (r: bool)
    ensures
        r == (is_red_spec(n.right) && !is_red_spec(n.left)),
{
    is_red(&n.right) && !is_red(&n.left)
}

fn need_rotate_right<K, V>(n: &Box<Node<K, V>>) -> (r: bool)
    ensures
        r == (is_red_spec(n.left) && is_red_spec(n.left->Some_0.left)),
{
    match &n.left {
        Some(l) => l.is_red && is_red(&l.left),
        None => false,
    }
}

fn need_flip_colors<K, V>(n: &Box<Node<K, V>>) -> (r: bool)
    ensures
        r == (is_red_spec(n.left) && is_red_spec(n.right)),
{
    is_red(&n.left) && is_red(&n.right)
}

/// Whether a link leads to a red node.
spec fn is_red_spec<K, V>(t: Option<Box<Node<K, V>>>) -> bool {
    t is Some && t->Some_0.is_red
}

/// The node after a rotation to the left.
spec fn rot_left_spec<K, V>(h: Box<Node<K, V>>) -> Box<Node<K, V>> {
    let x = h.right->Some_0;
    Box::new(
        Node {
            key: x.key,
            value: x.value,
            is_red: h.is_red,
            right: x.right,
            left: Some(Box::new(Node { key: h.key, value: h.value, is_red: true, left: h.left, right: x.left })),
        },
    )
}

/// The node after a rotation to the right.
spec fn rot_right_spec<K, V>(h: Box<Node<K, V>>) -> Box<Node<K, V>> {
    let x = h.left->Some_0;
    Box::new(
        Node {
            key: x.key,
            value: x.value,
            is_red: h.is_red,
            left: x.left,
            right: Some(Box::new(Node { key: h.key, value: h.value, is_red: true, left: x.right, right: h.right })),
        },
    )
}

/// The subtree with the colour of its root inverted.
spec fn flip_link<K, V>(t: Option<Box<Node<K, V>>>) -> Option<Box<Node<K, V>>> {
    match t {
        Some(n) => Some(Box::new(Node { is_red: !n.is_red, ..*n })),
        None => None,
    }
}

/// The node with its colour and its children's inverted.
spec fn flip_spec<K, V>(h: Box<Node<K, V>>) -> Box<Node<K, V>> {
    Box::new(Node { is_red: !h.is_red, left: flip_link(h.left), right: flip_link(h.right), ..*h })
}

/// The number of black nodes on the leftmost path of a subtree.
spec fn black_height<K, V>(t: Option<Box<Node<K, V>>>) -> nat
    decreases t,
{
    match t {
        None => 0,
        Some(n) => black_height(n.left) + if n.is_red { 0nat } else { 1nat },
    }
}

/// The left-leaning red-black shape: no red right child, no red node with a red left child,
/// and the same black height on both sides of every node.
spec fn llrb_shape<K, V>(t: Option<Box<Node<K, V>>>) -> bool
    decreases t,
{
    match t {
        None => true,
        Some(n) => {
            &&& llrb_shape(n.left)
            &&& llrb_shape(n.right)
            &&& black_height(n.left) == black_height(n.right)
            &&& !is_red_spec(n.right)
            &&& (n.is_red ==> !is_red_spec(n.left))
        },
    }
}

/// The shape of a node that insertion may hand up: as `llrb_shape`, except that a red node
/// may have a red left child.
spec fn almost_shape<K, V>(n: Box<Node<K, V>>) -> bool {
    &&& llrb_shape(n.left)
    &&& llrb_shape(n.right)
    &&& black_height(n.left) == black_height(n.right)
    &&& !is_red_spec(n.right)
}

/// Turns a right-leaning link to the left; the order of the pairs is kept.
fn rotate_left<K, V>(mut h: Box<Node<K, V>>) -> (r: Box<Node<K, V>>)
    requires
        h.right is Some,
    ensures
        node_order(r) == node_order(h),
        r.is_red == h.is_red,
        r.left is Some,
        r.left->Some_0.is_red,
        in_order(r.left).len() > in_order(h.left).len(),
        r == rot_left_spec(h),
{
    let ghost h0 = h;
    let mut x = h.right.take().unwrap();
    let ghost x0 = x;
    h.right = x.left.take();
    x.is_red = h.is_red;
    h.is_red = true;
    x.left = Some(h);
    proof {
        lemma_in_order_node(h0);
        lemma_in_order_node(x0);
        lemma_in_order_node(x);
        lemma_in_order_node(h);
        assert(node_order(x) =~= node_order(h0));
    }
    x
}

/// Turns a left-leaning link to the right; the order of the pairs is kept.
fn rotate_right<K, V>(mut h: Box<Node<K, V>>) -> (r: Box<Node<K, V>>)
    requires
        h.left is Some,
    ensures
        node_order(r) == node_order(h),
        r.is_red == h.is_red,
        r.right is Some,
        r.right->Some_0.is_red,
        in_order(r.right).len() > in_order(h.right).len(),
        r == rot_right_spec(h),
{
    let ghost h0 = h;
    let mut x = h.left.take().unwrap();
    let ghost x0 = x;
    h.left = x.right.take();
    x.is_red = h.is_red;
    h.is_red = true;
    x.right = Some(h);
    proof {
        lemma_in_order_node(h0);
        lemma_in_order_node(x0);
        lemma_in_order_node(x);
        lemma_in_order_node(h);
        assert(node_order(x) =~= node_order(h0));
    }
    x
}

/// Inverts the colours of a node and its children; the order of the pairs is kept.
fn flip_colors<K, V>(h: &mut Box<Node<K, V>>)
    ensures
        node_order(*final(h)) == node_order(*old(h)),
        final(h).is_red == !old(h).is_red,
        final(h).left is Some == old(h).left is Some,
        final(h).right is Some == old(h).right is Some,
        old(h).left is Some ==> final(h).left->Some_0.is_red == !old(h).left->Some_0.is_red,
        old(h).right is Some ==> final(h).right->Some_0.is_red == !old(h).right->Some_0.is_red,
        in_order(final(h).left) == in_order(old(h).left),
        in_order(final(h).right) == in_order(old(h).right),
        final(h).key == old(h).key,
        old(h).left is Some ==> final(h).left->Some_0.left == old(h).left->Some_0.left,
        old(h).right is Some ==> final(h).right->Some_0.left == old(h).right->Some_0.left,
        *final(h) == flip_spec(*old(h)),
{
    let ghost h0 = *h;
    h.is_red = !h.is_red;
    match h.left.take() {
        Some(mut l) => {
            let ghost l0 = l;
            l.is_red = !l.is_red;
            proof {
                lemma_in_order_node(l0);
                lemma_in_order_node(l);
            }
            h.left = Some(l);
        },
        None => {},
    }
    match h.right.take() {
        Some(mut r) => {
            let ghost r0 = r;
            r.is_red = !r.is_red;
            proof {
                lemma_in_order_node(r0);
                lemma_in_order_node(r);
            }
            h.right = Some(r);
        },
        None => {},
    }
    proof {
        lemma_in_order_node(h0);
        lemma_in_order_node(*h);
    }
}

/// The node after `move_red_left`.
spec fn move_red_left_spec<K, V>(h: Box<Node<K, V>>) -> Box<Node<K, V>> {
    let h1 = flip_spec(h);
    if h1.right is Some && is_red_spec(h1.right->Some_0.left) {
        flip_spec(rot_left_spec(Box::new(Node { right: Some(rot_right_spec(h1.right->Some_0)), ..*h1 })))
    } else {
        h1
    }
}

/// The node after `move_red_right`.
spec fn move_red_right_spec<K, V>(h: Box<Node<K, V>>) -> Box<Node<K, V>> {
    let h1 = flip_spec(h);
    if h1.left is Some && is_red_spec(h1.left->Some_0.left) {
        flip_spec(rot_right_spec(h1))
    } else {
        h1
    }
}

/// The node after `fix_up`.
spec fn fix_up_spec<K, V>(h: Box<Node<K, V>>) -> Box<Node<K, V>> {
    let h1 = if is_red_spec(h.right) { rot_left_spec(h) } else { h };
    let h2 = if is_red_spec(h1.left) && is_red_spec(h1.left->Some_0.left) { rot_right_spec(h1) } else { h1 };
    if is_red_spec(h2.left) && is_red_spec(h2.right) { flip_spec(h2) } else { h2 }
}

/// The node after the move of a red link to the left, where one is needed.
spec fn left_ready_spec<K, V>(h0: Box<Node<K, V>>) -> Box<Node<K, V>> {
    if !(is_red_spec(h0.left) || (h0.left is Some && is_red_spec(h0.left->Some_0.left))) {
        move_red_left_spec(h0)
    } else {
        h0
    }
}

/// The node after the rotation that starts a removal to the right or at the node.
spec fn lean_right_spec<K, V>(h0: Box<Node<K, V>>) -> Box<Node<K, V>> {
    if is_red_spec(h0.left) { rot_right_spec(h0) } else { h0 }
}

/// The node after the move of a red link to the right, where one is needed.
spec fn right_ready_spec<K, V>(h1: Box<Node<K, V>>) -> Box<Node<K, V>> {
    if !(is_red_spec(h1.right) || (h1.right is Some && is_red_spec(h1.right->Some_0.left))) {
        move_red_right_spec(h1)
    } else {
        h1
    }
}

/// Whether the least pair may be taken from `h`: it has the shape, and it or its left child
/// is red.
spec fn removable_shape<K, V>(h: Box<Node<K, V>>) -> bool {
    llrb_shape(Some(h)) && (h.is_red || is_red_spec(h.left))
}

/// Whether `key` may be removed from `h`: its children have the shape and the same black
/// height, a red `h` has black children, `h` or exactly one of its children is red, and a red
/// right child comes only where `key` is not below `h`.
spec fn delete_shape<K: Key, V>(h: Box<Node<K, V>>, key: K) -> bool {
    &&& llrb_shape(h.left)
    &&& llrb_shape(h.right)
    &&& black_height(h.left) == black_height(h.right)
    &&& (h.is_red ==> !is_red_spec(h.left) && !is_red_spec(h.right))
    &&& (h.is_red || is_red_spec(h.left) || is_red_spec(h.right))
    &&& !(is_red_spec(h.left) && is_red_spec(h.right))
    &&& (is_red_spec(h.right) ==> !key.less(h.key))
}

/// What a removal from `h` hands back: the same black height, the shape, and a black root
/// where `h` was black.
spec fn removed_shape<K, V>(r: Option<Box<Node<K, V>>>, h: Box<Node<K, V>>) -> bool {
    &&& black_height(r) == black_height(Some(h))
    &&& llrb_shape(r)
    &&& (!h.is_red ==> !is_red_spec(r))
}

/// After the move of a red link to the left, the left child may give up its least pair.
proof fn lemma_min_pre<K, V>(h0: Box<Node<K, V>>)
    requires
        removable_shape(h0),
        h0.left is Some,
    ensures
        left_ready_spec(h0).left is Some,
        removable_shape(left_ready_spec(h0).left->Some_0),
{
    reveal_with_fuel(llrb_shape, 4);
    reveal_with_fuel(black_height, 4);
}

/// A removal on the left without a move keeps the shape.
#[verifier::rlimit(100)]
proof fn lemma_left_step_ready<K, V>(h0: Box<Node<K, V>>, l2: Option<Box<Node<K, V>>>)
    requires
        removable_shape(h0),
        h0.left is Some,
        is_red_spec(h0.left) || is_red_spec(h0.left->Some_0.left),
        removed_shape(l2, left_ready_spec(h0).left->Some_0),
    ensures
        removed_shape(Some(fix_up_spec(Box::new(Node { left: l2, ..*left_ready_spec(h0) }))), h0),
{
    reveal_with_fuel(llrb_shape, 4);
    reveal_with_fuel(black_height, 4);
}

/// A removal on the left after a colour flip keeps the shape.
#[verifier::rlimit(100)]
proof fn lemma_left_step_moved<K, V>(h0: Box<Node<K, V>>, l2: Option<Box<Node<K, V>>>)
    requires
        removable_shape(h0),
        h0.left is Some,
        !(is_red_spec(h0.left) || is_red_spec(h0.left->Some_0.left)) && !(flip_spec(h0).right is Some && is_red_spec(flip_spec(h0).right->Some_0.left)),
        removed_shape(l2, left_ready_spec(h0).left->Some_0),
    ensures
        removed_shape(Some(fix_up_spec(Box::new(Node { left: l2, ..*left_ready_spec(h0) }))), h0),
{
    reveal_with_fuel(llrb_shape, 4);
    reveal_with_fuel(black_height, 4);
}

/// A removal on the left after a flip and two rotations keeps the shape.
#[verifier::rlimit(100)]
proof fn lemma_left_step_rotated<K, V>(h0: Box<Node<K, V>>, l2: Option<Box<Node<K, V>>>)
    requires
        removable_shape(h0),
        h0.left is Some,
        !(is_red_spec(h0.left) || is_red_spec(h0.left->Some_0.left)) && flip_spec(h0).right is Some && is_red_spec(flip_spec(h0).right->Some_0.left),
        removed_shape(l2, left_ready_spec(h0).left->Some_0),
    ensures
        removed_shape(Some(fix_up_spec(Box::new(Node { left: l2, ..*left_ready_spec(h0) }))), h0),
{
    reveal_with_fuel(llrb_shape, 4);
    reveal_with_fuel(black_height, 4);
}

/// One step of a removal on the left keeps the shape.
proof fn lemma_left_step<K, V>(h0: Box<Node<K, V>>, l2: Option<Box<Node<K, V>>>)
    requires
        removable_shape(h0),
        h0.left is Some,
        removed_shape(l2, left_ready_spec(h0).left->Some_0),
    ensures
        removed_shape(Some(fix_up_spec(Box::new(Node { left: l2, ..*left_ready_spec(h0) }))), h0),
{
    if is_red_spec(h0.left) || is_red_spec(h0.left->Some_0.left) {
        lemma_left_step_ready(h0, l2);
    } else if flip_spec(h0).right is Some && is_red_spec(flip_spec(h0).right->Some_0.left) {
        lemma_left_step_rotated(h0, l2);
    } else {
        lemma_left_step_moved(h0, l2);
    }
}

/// A node with no left child that may start a removal is a red leaf.
proof fn lemma_min_leaf_shape<K, V>(h0: Box<Node<K, V>>)
    requires
        removable_shape(h0),
        h0.left is None,
    ensures
        removed_shape(Some(fix_up_spec(h0)), h0),
{
    reveal_with_fuel(llrb_shape, 3);
    reveal_with_fuel(black_height, 3);
}

/// A node that may give up its least pair may give up any key.
proof fn lemma_removable_delete<K: Key, V>(h: Box<Node<K, V>>, key: K)
    requires
        removable_shape(h),
    ensures
        delete_shape(h, key),
{
}

/// A removal that finds no right subtree to descend into keeps the shape.
proof fn lemma_right_absent<K: Key, V>(h0: Box<Node<K, V>>, key: K)
    requires
        delete_shape(h0, key),
        lean_right_spec(h0).right is None,
    ensures
        removed_shape(Some(fix_up_spec(lean_right_spec(h0))), h0),
{
    reveal_with_fuel(llrb_shape, 3);
    reveal_with_fuel(black_height, 3);
}

/// Without a red right child, a node that may start a removal may give up its least pair.
proof fn lemma_delete_shape_left<K: Key, V>(h: Box<Node<K, V>>, key: K)
    requires
        delete_shape(h, key),
        !is_red_spec(h.right),
    ensures
        removable_shape(h),
{
}

/// A removal at a node without a right child hands back its left child, with the shape.
proof fn lemma_right_leaf<K: Key, V>(h0: Box<Node<K, V>>, key: K)
    requires
        delete_shape(h0, key),
        lean_right_spec(h0).right is None,
    ensures
        removed_shape(lean_right_spec(h0).left, h0),
{
    reveal_with_fuel(llrb_shape, 3);
    reveal_with_fuel(black_height, 3);
}

/// After the moves toward the right, the right child may start the removal, and may give up
/// its least pair where the key is that of the node.
#[verifier::rlimit(100)]
proof fn lemma_right_pre<K: Key, V>(h0: Box<Node<K, V>>, key: K)
    requires
        delete_shape(h0, key),
        !key.less(h0.key),
        h0.left is Some ==> h0.left->Some_0.key.less(h0.key),
        lean_right_spec(h0).right is Some,
    ensures
        right_ready_spec(lean_right_spec(h0)).right is Some,
        delete_shape(right_ready_spec(lean_right_spec(h0)).right->Some_0, key),
        key == right_ready_spec(lean_right_spec(h0)).key ==> removable_shape(
            right_ready_spec(lean_right_spec(h0)).right->Some_0,
        ),
{
    reveal_with_fuel(llrb_shape, 4);
    reveal_with_fuel(black_height, 4);
}

/// A removal on the right after a rotation to the right keeps the shape.
#[verifier::rlimit(100)]
proof fn lemma_right_step_lean<K: Key, V>(h0: Box<Node<K, V>>, r2: Option<Box<Node<K, V>>>, k: K, v: V, key: K)
    requires
        delete_shape(h0, key),
        !key.less(h0.key),
        lean_right_spec(h0).right is Some,
        removed_shape(r2, right_ready_spec(lean_right_spec(h0)).right->Some_0),
        is_red_spec(h0.left),
    ensures
        removed_shape(
            Some(fix_up_spec(Box::new(Node { key: k, value: v, right: r2, ..*right_ready_spec(lean_right_spec(h0)) }))),
            h0,
        ),
{
    reveal_with_fuel(llrb_shape, 4);
    reveal_with_fuel(black_height, 4);
}

/// A removal into a red right child keeps the shape.
#[verifier::rlimit(100)]
proof fn lemma_right_step_red_right<K: Key, V>(h0: Box<Node<K, V>>, r2: Option<Box<Node<K, V>>>, k: K, v: V, key: K)
    requires
        delete_shape(h0, key),
        !key.less(h0.key),
        lean_right_spec(h0).right is Some,
        removed_shape(r2, right_ready_spec(lean_right_spec(h0)).right->Some_0),
        !is_red_spec(h0.left) && is_red_spec(h0.right),
    ensures
        removed_shape(
            Some(fix_up_spec(Box::new(Node { key: k, value: v, right: r2, ..*right_ready_spec(lean_right_spec(h0)) }))),
            h0,
        ),
{
    reveal_with_fuel(llrb_shape, 4);
    reveal_with_fuel(black_height, 4);
}

/// A removal on the right without a move keeps the shape.
#[verifier::rlimit(100)]
proof fn lemma_right_step_ready<K: Key, V>(h0: Box<Node<K, V>>, r2: Option<Box<Node<K, V>>>, k: K, v: V, key: K)
    requires
        delete_shape(h0, key),
        !key.less(h0.key),
        lean_right_spec(h0).right is Some,
        removed_shape(r2, right_ready_spec(lean_right_spec(h0)).right->Some_0),
        h0.is_red && is_red_spec(h0.right->Some_0.left),
    ensures
        removed_shape(
            Some(fix_up_spec(Box::new(Node { key: k, value: v, right: r2, ..*right_ready_spec(lean_right_spec(h0)) }))),
            h0,
        ),
{
    reveal_with_fuel(llrb_shape, 4);
    reveal_with_fuel(black_height, 4);
}

/// A removal on the right after a colour flip keeps the shape.
#[verifier::rlimit(100)]
proof fn lemma_right_step_flip<K: Key, V>(h0: Box<Node<K, V>>, r2: Option<Box<Node<K, V>>>, k: K, v: V, key: K)
    requires
        delete_shape(h0, key),
        !key.less(h0.key),
        lean_right_spec(h0).right is Some,
        removed_shape(r2, right_ready_spec(lean_right_spec(h0)).right->Some_0),
        h0.is_red && !is_red_spec(h0.right->Some_0.left) && !(h0.left is Some && is_red_spec(h0.left->Some_0.left)),
    ensures
        removed_shape(
            Some(fix_up_spec(Box::new(Node { key: k, value: v, right: r2, ..*right_ready_spec(lean_right_spec(h0)) }))),
            h0,
        ),
{
    reveal_with_fuel(llrb_shape, 4);
    reveal_with_fuel(black_height, 4);
}

/// A removal on the right after a flip and a rotation keeps the shape.
#[verifier::rlimit(100)]
proof fn lemma_right_step_rotated<K: Key, V>(h0: Box<Node<K, V>>, r2: Option<Box<Node<K, V>>>, k: K, v: V, key: K)
    requires
        delete_shape(h0, key),
        !key.less(h0.key),
        lean_right_spec(h0).right is Some,
        removed_shape(r2, right_ready_spec(lean_right_spec(h0)).right->Some_0),
        h0.is_red && !is_red_spec(h0.right->Some_0.left) && h0.left is Some && is_red_spec(h0.left->Some_0.left),
    ensures
        removed_shape(
            Some(fix_up_spec(Box::new(Node { key: k, value: v, right: r2, ..*right_ready_spec(lean_right_spec(h0)) }))),
            h0,
        ),
{
    reveal_with_fuel(llrb_shape, 4);
    reveal_with_fuel(black_height, 4);
}

/// One step of a removal on the right, or at the node with its successor moved up, keeps
/// the shape.
proof fn lemma_right_step<K: Key, V>(h0: Box<Node<K, V>>, r2: Option<Box<Node<K, V>>>, k: K, v: V, key: K)
    requires
        delete_shape(h0, key),
        !key.less(h0.key),
        lean_right_spec(h0).right is Some,
        removed_shape(r2, right_ready_spec(lean_right_spec(h0)).right->Some_0),
    ensures
        removed_shape(
            Some(fix_up_spec(Box::new(Node { key: k, value: v, right: r2, ..*right_ready_spec(lean_right_spec(h0)) }))),
            h0,
        ),
{
    if is_red_spec(h0.left) {
        lemma_right_step_lean(h0, r2, k, v, key);
    } else if is_red_spec(h0.right) {
        lemma_right_step_red_right(h0, r2, k, v, key);
    } else if is_red_spec(h0.right->Some_0.left) {
        lemma_right_step_ready(h0, r2, k, v, key);
    } else if !(h0.left is Some && is_red_spec(h0.left->Some_0.left)) {
        lemma_right_step_flip(h0, r2, k, v, key);
    } else {
        lemma_right_step_rotated(h0, r2, k, v, key);
    }
}

/// Makes the left child or one of its children red before a descent to the left.
fn move_red_left<K, V>(mut h: Box<Node<K, V>>) -> (r: Box<Node<K, V>>)
    ensures
        node_order(r) == node_order(h),
        r == move_red_left_spec(h),
        in_order(r.left).len() >= in_order(h.left).len(),
        h.left is Some ==> r.left is Some,
{
    let ghost h0 = h;
    proof {
        lemma_in_order_node(h0);
    }
    flip_colors(&mut h);
    let red_grandchild = match &h.right {
        Some(r) => is_red(&r.left),
        None => false,
    };
    if red_grandchild {
        let r = h.right.take().unwrap();
        h.right = Some(rotate_right(r));
        proof {
            lemma_in_order_node(h);
        }
        h = rotate_left(h);
        flip_colors(&mut h);
        proof {
            lemma_in_order_node(h);
            lemma_in_order_node(h.left->Some_0);
        }
    }
    proof {
        lemma_in_order_node(h);
    }
    h
}

/// Makes the right child or one of its children red before a descent to the right.
fn move_red_right<K, V>(mut h: Box<Node<K, V>>) -> (r: Box<Node<K, V>>)
    ensures
        node_order(r) == node_order(h),
        r == move_red_right_spec(h),
        in_order(r.right).len() >= in_order(h.right).len(),
{
    let ghost h0 = h;
    proof {
        lemma_in_order_node(h0);
    }
    flip_colors(&mut h);
    let red_grandchild = match &h.left {
        Some(l) => is_red(&l.left),
        None => false,
    };
    if red_grandchild {
        h = rotate_right(h);
        flip_colors(&mut h);
        proof {
            lemma_in_order_node(h);
            lemma_in_order_node(h.right->Some_0);
        }
    }
    proof {
        lemma_in_order_node(h);
    }
    h
}

/// Restores the left-leaning shape of a node on the way up.
fn fix_up<K, V>(mut h: Box<Node<K, V>>) -> (r: Box<Node<K, V>>)
    ensures
        node_order(r) == node_order(h),
        r == fix_up_spec(h),
{
    if is_red(&h.right) {
        h = rotate_left(h);
    }
    if need_rotate_right(&h) {
        h = rotate_right(h);
    }
    if need_flip_colors(&h) {
        flip_colors(&mut h);
    }
    h
}

/// Takes the least pair out of a subtree.
fn remove_min<K, V>(mut h: Box<Node<K, V>>) -> (r: (Option<Box<Node<K, V>>>, K, V))
    ensures
        node_order(h).len() > 0,
        (r.1, r.2) == node_order(h)[0],
        in_order(r.0) == node_order(h).drop_first(),
        removable_shape(h) ==> removed_shape(r.0, h),
    decreases node_order(h).len(),
{
    let ghost h0 = h;
    proof {
        lemma_in_order_node(h0);
    }
    if h.left.is_none() {
        let Node { key, value, left: _, right, is_red: _ } = *h;
        assert(node_order(h0).drop_first() =~= in_order(right));
        proof {
            reveal_with_fuel(llrb_shape, 2);
            reveal_with_fuel(black_height, 2);
        }
        return (right, key, value);
    }
    proof {
        if removable_shape(h0) {
            lemma_min_pre(h0);
        }
    }
    let descend_red = match &h.left {
        Some(l) => l.is_red || is_red(&l.left),
        None => false,
    };
    if !descend_red {
        h = move_red_left(h);
    }
    let ghost h1 = h;
    proof {
        lemma_in_order_node(h1);
    }
    let l = h.left.take().unwrap();
    proof {
        lemma_in_order_node(l);
    }
    let (nl, k, v) = remove_min(l);
    h.left = nl;
    proof {
        lemma_in_order_node(h);
        assert(node_order(h) =~= node_order(h1).drop_first());
        if removable_shape(h0) {
            assert(h1 == left_ready_spec(h0));
            assert(*h == Node { left: nl, ..*h1 });
            lemma_left_step(h0, nl);
        }
    }
    (Some(fix_up(h)), k, v)
}

/// Removes `key` from a subtree, pushing a red link down along the search path and
/// restoring the shape on the way up.
fn remove_fix_up<K: Key, V>(mut h: Box<Node<K, V>>, key: K) -> (r: Option<Box<Node<K, V>>>)
    requires
        sorted(node_order(h)),
    ensures
        in_order(r) == sorted_remove(node_order(h), key),
        sorted(in_order(r)),
        delete_shape(h, key) ==> removed_shape(r, h),
    decreases node_order(h).len(),
{
    let ghost s = node_order(h);
    let ghost h0 = h;
    let ghost shaped = delete_shape(h0, key);
    proof {
        lemma_in_order_node(h0);
        lemma_remove_sorted(s, key);
    }
    if matches!(key.cmp(&h.key), Ordering::Less) {
        proof {
            if shaped {
                lemma_delete_shape_left(h0, key);
            }
        }
        if h.left.is_none() {
            proof {
                assert forall|i: int| 0 <= i < s.len() implies (#[trigger] s[i]).0 != key by {
                    assert(s[0] == (h0.key, h0.value));
                    if i > 0 {
                        K::lemma_order(key, h0.key, s[i].0);
                    }
                    K::lemma_order(key, key, key);
                }
                lemma_remove_absent(s, key);
                if shaped {
                    lemma_min_leaf_shape(h0);
                }
            }
            return Some(fix_up(h));
        }
        let descend_red = match &h.left {
            Some(l) => l.is_red || is_red(&l.left),
            None => false,
        };
        if !descend_red {
            h = move_red_left(h);
        }
        let ghost h1 = h;
        proof {
            lemma_in_order_node(h1);
            let m = in_order(h0.left).len();
            let m1 = in_order(h1.left).len();
            assert(s[m as int] == (h0.key, h0.value));
            assert(s[m1 as int] == (h1.key, h1.value));
            if m1 > m {
                K::lemma_order(key, h0.key, h1.key);
            }
            lemma_sorted_parts(in_order(h1.left), (h1.key, h1.value), in_order(h1.right));
            lemma_remove_split(in_order(h1.left), (h1.key, h1.value), in_order(h1.right), key);
            assert(h1 == left_ready_spec(h0));
            if shaped {
                lemma_min_pre(h0);
                lemma_removable_delete(h1.left->Some_0, key);
            }
        }
        let l = h.left.take().unwrap();
        let nl = remove_fix_up(l, key);
        h.left = nl;
        proof {
            lemma_in_order_node(h);
            if shaped {
                assert(*h == Node { left: nl, ..*h1 });
                lemma_left_step(h0, nl);
            }
        }
    } else {
        if is_red(&h.left) {
            h = rotate_right(h);
        }
        let ghost h1 = h;
        proof {
            lemma_in_order_node(h1);
            K::lemma_order(key, h0.key, key);
            if h1.key != h0.key {
                let m = in_order(h0.left).len();
                let m1 = in_order(h1.left).len();
                assert(s[m as int] == (h0.key, h0.value));
                assert(s[m1 as int] == (h1.key, h1.value));
                K::lemma_order(h1.key, h0.key, key);
            }
            assert(h1 == lean_right_spec(h0));
        }
        if h.right.is_none() {
            proof {
                lemma_remove_split(in_order(h1.left), (h1.key, h1.value), in_order(h1.right), key);
                assert(in_order(h1.left) + in_order(h1.right) =~= in_order(h1.left));
            }
            if matches!(key.cmp(&h.key), Ordering::Equal) {
                proof {
                    if shaped {
                        lemma_right_leaf(h0, key);
                    }
                }
                return h.left;
            }
            proof {
                lemma_sorted_parts(in_order(h1.left), (h1.key, h1.value), in_order(h1.right));
                K::lemma_order(h1.key, key, h1.key);
                assert(in_order(h1.right) =~= Seq::<(K, V)>::empty());
                lemma_remove_absent(in_order(h1.right), key);
                assert(sorted_remove(s, key) == s);
                if shaped {
                    lemma_right_absent(h0, key);
                }
            }
            return Some(fix_up(h));
        }
        let descend_red = match &h.right {
            Some(r) => r.is_red || is_red(&r.left),
            None => false,
        };
        if !descend_red {
            h = move_red_right(h);
        }
        let ghost h2 = h;
        proof {
            lemma_in_order_node(h2);
            if h2.key != h1.key {
                let m1 = in_order(h1.left).len();
                let m2 = in_order(h2.left).len();
                assert(s[m1 as int] == (h1.key, h1.value));
                assert(s[m2 as int] == (h2.key, h2.value));
                K::lemma_order(h2.key, h1.key, key);
            }
            lemma_sorted_parts(in_order(h2.left), (h2.key, h2.value), in_order(h2.right));
            lemma_remove_split(in_order(h2.left), (h2.key, h2.value), in_order(h2.right), key);
            assert(h2 == right_ready_spec(h1));
            if shaped {
                lemma_sorted_parts(in_order(h0.left), (h0.key, h0.value), in_order(h0.right));
                if h0.left is Some {
                    let lnode = h0.left->Some_0;
                    lemma_in_order_node(lnode);
                    assert(in_order(h0.left)[in_order(lnode.left).len() as int] == (lnode.key, lnode.value));
                }
                lemma_right_pre(h0, key);
            }
        }
        if matches!(key.cmp(&h.key), Ordering::Equal) {
            match h.right.take() {
                Some(r) => {
                    proof {
                        lemma_in_order_node(r);
                    }
                    let (nr, k, v) = remove_min(r);
                    h.key = k;
                    h.value = v;
                    h.right = nr;
                    proof {
                        lemma_in_order_node(h);
                        assert(node_order(h) =~= in_order(h2.left) + in_order(h2.right));
                        if shaped {
                            assert(*h == Node { key: k, value: v, right: nr, ..*h2 });
                            lemma_right_step(h0, nr, k, v, key);
                        }
                    }
                },
                None => {
                    proof {
                        assert(in_order(h2.left) + in_order(h2.right) =~= in_order(h2.left));
                        if shaped {
                            assert(false);
                        }
                    }
                    return h.left;
                },
            }
        } else {
            match h.right.take() {
                Some(r) => {
                    let nr = remove_fix_up(r, key);
                    h.right = nr;
                    proof {
                        lemma_in_order_node(h);
                        if shaped {
                            assert(*h == Node { key: h2.key, value: h2.value, right: nr, ..*h2 });
                            lemma_right_step(h0, nr, h2.key, h2.value, key);
                        }
                    }
                },
                None => {
                    proof {
                        lemma_remove_absent(in_order(h2.right), key);
                        lemma_in_order_node(h);
                        if shaped {
                            assert(false);
                        }
                    }
                },
            }
        }
    }
    Some(fix_up(h))
}

/// The pair of the greatest key at most `key` in a subtree.
fn floor_rec<K: Key, V: Value>(t: &Option<Box<Node<K, V>>>, key: &K) -> (r: Option<(K, V)>)
    requires
        sorted(in_order(*t)),
    ensures
        r == seq_floor(in_order(*t), *key),
    decreases *t,
{
    match t {
        None => None,
        Some(n) => {
            proof {
                lemma_in_order_node(*n);
                lemma_sorted_parts(in_order(n.left), (n.key, n.value), in_order(n.right));
                lemma_floor_split(in_order(n.left), (n.key, n.value), in_order(n.right), *key);
            }
            match key.cmp(&n.key) {
                Ordering::Less => floor_rec(&n.left, key),
                Ordering::Equal => Some((n.key.clone_key(), n.value.clone_value())),
                Ordering::Greater => match floor_rec(&n.right, key) {
                    Some(x) => Some(x),
                    None => Some((n.key.clone_key(), n.value.clone_value())),
                },
            }
        },
    }
}

/// Appends the texts of the values of a subtree, in order.
fn traverse_in_order<K, V: Value>(t: &Option<Box<Node<K, V>>>, out: &mut Vec<String>)
    ensures
        final(out)@.map_values(|s: String| s@) == old(out)@.map_values(|s: String| s@) + in_order(*t).map_values(
            |p: (K, V)| p.1.text(),
        ),
    decreases *t,
{
    match t {
        None => {
            assert(old(out)@.map_values(|s: String| s@) + in_order(*t).map_values(|p: (K, V)| p.1.text()) =~= old(
                out,
            )@.map_values(|s: String| s@));
        },
        Some(n) => {
            proof {
                lemma_in_order_node(*n);
            }
            traverse_in_order(&n.left, out);
            let ghost mid = out@;
            out.push(n.value.to_string());
            assert(out@.map_values(|s: String| s@) =~= mid.map_values(|s: String| s@).push(n.value.text()));
            traverse_in_order(&n.right, out);
            assert(in_order(*t).map_values(|p: (K, V)| p.1.text()) =~= in_order(n.left).map_values(|p: (K, V)| p.1.text())
                + seq![n.value.text()] + in_order(n.right).map_values(|p: (K, V)| p.1.text()));
            assert(out@.map_values(|s: String| s@) =~= old(out)@.map_values(|s: String| s@) + in_order(*t).map_values(
                |p: (K, V)| p.1.text(),
            ));
        },
    }
}

/// The black height of a subtree that has the left-leaning red-black shape, or nothing
/// where it does not (or where the count does not fit).
fn shape_check<K, V>(t: &Option<Box<Node<K, V>>>) -> (r: Option<u64>)
    ensures
        r is Some ==> llrb_shape(*t) && r->Some_0 == black_height(*t),
        llrb_shape(*t) && black_height(*t) <= u64::MAX ==> r is Some,
    decreases *t,
{
    match t {
        None => Some(0),
        Some(n) => {
            let l = shape_check(&n.left);
            let r = shape_check(&n.right);
            match (l, r) {
                (Some(bl), Some(br)) => {
                    if bl != br || is_red(&n.right) || (n.is_red && is_red(&n.left)) {
                        None
                    } else if n.is_red {
                        Some(bl)
                    } else if bl < u64::MAX {
                        Some(bl + 1)
                    } else {
                        None
                    }
                },
                _ => None,
            }
        },
    }
}

/// Inserts `key` into the subtree and restores the left-leaning shape on the way up.
fn insert_fix_up<K: Key, V>(t: Option<Box<Node<K, V>>>, key: K, value: V) -> (r: Box<Node<K, V>>)
    requires
        sorted(in_order(t)),
    ensures
        node_order(r) == sorted_insert(in_order(t), key, value),
        sorted(node_order(r)),
        llrb_shape(t) ==> black_height(Some(r)) == black_height(t) && almost_shape(r) && (!is_red_spec(t)
            ==> llrb_shape(Some(r))),
    decreases t,
{
    match t {
        None => {
            let n = Box::new(Node::new(key, value, true));
            proof {
                lemma_in_order_node(n);
                assert(node_order(n) =~= seq![(key, value)]);
            }
            n
        },
        Some(mut n) => {
            let ghost n0 = n;
            proof {
                lemma_in_order_node(n0);
                lemma_sorted_parts(in_order(n0.left), (n0.key, n0.value), in_order(n0.right));
                lemma_insert_split(in_order(n0.left), (n0.key, n0.value), in_order(n0.right), key, value);
                lemma_insert_sorted(in_order(t), key, value);
            }
            match key.cmp(&n.key) {
                Ordering::Less => {
                    let l = n.left.take();
                    assert(l == n0.left);
                    n.left = Some(insert_fix_up(l, key, value));
                },
                Ordering::Greater => {
                    let r = n.right.take();
                    assert(r == n0.right);
                    n.right = Some(insert_fix_up(r, key, value));
                },
                Ordering::Equal => {
                    n.value = value;
                },
            }
            proof {
                lemma_in_order_node(n);
            }
            let ghost na = n;
            if need_rotate_left(&n) {
                n = rotate_left(n);
            }
            let ghost nb = n;
            if need_rotate_right(&n) {
                n = rotate_right(n);
            }
            let ghost nc = n;
            if need_flip_colors(&n) {
                flip_colors(&mut n);
            }
            proof {
                if llrb_shape(t) {
                    lemma_insert_shape(n0, na, nb, nc, n);
                }
            }
            n
        },
    }
}

/// The fix-ups after an insertion below `n0` restore the shape: `na` is `n0` with one child
/// replaced by the result of the insertion, `nb`, `nc` and `n` the node after each step.
proof fn lemma_insert_shape<K, V>(
    n0: Box<Node<K, V>>,
    na: Box<Node<K, V>>,
    nb: Box<Node<K, V>>,
    nc: Box<Node<K, V>>,
    n: Box<Node<K, V>>,
)
    requires
        llrb_shape(Some(n0)),
        na.is_red == n0.is_red,
        (na.left == n0.left && na.right == n0.right) || (na.right == n0.right && na.left is Some && black_height(na.left)
            == black_height(n0.left) && almost_shape(na.left->Some_0) && (!is_red_spec(n0.left) ==> llrb_shape(na.left)))
            || (na.left == n0.left && na.right is Some && black_height(na.right) == black_height(n0.right)
            && almost_shape(na.right->Some_0) && (!is_red_spec(n0.right) ==> llrb_shape(na.right))),
        nb == if is_red_spec(na.right) && !is_red_spec(na.left) { rot_left_spec(na) } else { na },
        nc == if is_red_spec(nb.left) && is_red_spec(nb.left->Some_0.left) { rot_right_spec(nb) } else { nb },
        n == if is_red_spec(nc.left) && is_red_spec(nc.right) { flip_spec(nc) } else { nc },
    ensures
        black_height(Some(n)) == black_height(Some(n0)),
        almost_shape(n),
        !n0.is_red ==> llrb_shape(Some(n)),
{
    reveal_with_fuel(llrb_shape, 3);
    reveal_with_fuel(black_height, 3);
}

/// A left-leaning red-black tree: a balanced binary search tree keyed by `K`.
pub struct Tree<K, V> {
    root: Option<Box<Node<K, V>>>,
}

impl<K: Key, V> View for Tree<K, V> {
    type V = Seq<(K, V)>;

    /// The pairs of the tree in ascending order of key.
    closed spec fn view(&self) -> Seq<(K, V)> {
        in_order(self.root)
    }
}

impl<K: Key, V> Tree<K, V> {
    /// The keys rise strictly in order, and the tree is balanced.
    pub open spec fn wf(&self) -> bool {
        sorted(self@) && self.balanced()
    }

    /// The number of black nodes on the leftmost path from the root.
    pub closed spec fn black_height(&self) -> nat {
        black_height(self.root)
    }

    /// The root is black, no node has a red right child, no red node has a red left child,
    /// and every path from the root down to a missing child meets the same number of black
    /// nodes.
    pub closed spec fn balanced(&self) -> bool {
        llrb_shape(self.root) && !is_red_spec(self.root)
    }

    pub fn new() -> (r: Tree<K, V>)
        ensures
            r.wf(),
            r@ == Seq::<(K, V)>::empty(),
    {
        Tree { root: None }
    }

    /// Sets the value of `k` to `v`, adding the key where it is absent.
    pub fn insert(&mut self, k: K, v: V)
        requires
            old(self).wf(),
        ensures
            final(self).wf(),
            final(self)@ == sorted_insert(old(self)@, k, v),
    {
        let root = self.root.take();
        let ghost t0 = root;
        let mut n = insert_fix_up(root, k, v);
        let ghost n0 = n;
        n.is_red = false;
        proof {
            lemma_in_order_node(n0);
            lemma_in_order_node(n);
            if llrb_shape(t0) && !is_red_spec(t0) {
                assert(llrb_shape(Some(n0)));
                reveal_with_fuel(llrb_shape, 2);
                reveal_with_fuel(black_height, 2);
                assert(llrb_shape(Some(n)));
            }
        }
        self.root = Some(n);
    }

    /// Removes the pair of `key`, where there is one.
    pub fn remove(&mut self, key: K)
        requires
            old(self).wf(),
        ensures
            final(self).wf(),
            final(self)@ == sorted_remove(old(self)@, key),
    {
        match self.root.take() {
            None => {},
            Some(mut root) => {
                let ghost r0 = root;
                if !is_red(&root.left) && !is_red(&root.right) {
                    root.is_red = true;
                }
                proof {
                    lemma_in_order_node(r0);
                    lemma_in_order_node(root);
                    if llrb_shape(Some(r0)) && !r0.is_red {
                        assert(delete_shape(root, key));
                    }
                }
                match remove_fix_up(root, key) {
                    Some(mut n) => {
                        let ghost n0 = n;
                        n.is_red = false;
                        proof {
                            lemma_in_order_node(n0);
                            lemma_in_order_node(n);
                            if llrb_shape(Some(r0)) && !r0.is_red {
                                assert(llrb_shape(Some(n0)));
                                assert(llrb_shape(Some(n)));
                            }
                        }
                        self.root = Some(n);
                    },
                    None => {},
                }
            },
        }
    }
}

impl<K: Key, V: Value> Tree<K, V> {
    /// The texts of the values in ascending order of key, joined by commas.
    pub fn to_string(&self) -> (r: String)
        ensures
            r@ == comma_joined(self@.map_values(|p: (K, V)| p.1.text())),
    {
        let mut texts: Vec<String> = Vec::new();
        traverse_in_order(&self.root, &mut texts);
        assert(texts@.map_values(|s: String| s@) =~= Seq::<String>::empty().map_values(|s: String| s@) + self@.map_values(
            |p: (K, V)| p.1.text(),
        ));
        join_commas(&texts)
    }

    /// Whether the tree has the balanced shape (see `balanced`); a tree whose black height
    /// does not fit in a `u64` is reported unbalanced.
    pub fn is_balanced(&self) -> (r: bool)
        ensures
            r ==> self.balanced(),
            self.balanced() && self.black_height() <= u64::MAX ==> r,
    {
        shape_check(&self.root).is_some() && !is_red(&self.root)
    }

    /// The pair of the greatest key at most `key`, if any.
    pub fn floor(&self, key: K) -> (r: Option<(K, V)>)
        requires
            self.wf(),
        ensures
            r == seq_floor(self@, key),
    {
        floor_rec(&self.root, &key)
    }
}

} // verus!
