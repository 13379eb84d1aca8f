use vstd::prelude::*;
use std::cmp::Ordering;
use crate::element::{Element, removable};
use crate::text::{chars_lt, compare_str, lemma_chars_order, render_pairs, rendered_pairs};
use crate::time::{Ticket, ticket_after, lemma_ticket_order, annotated};

verus! {

/// Error of a purge whose element the map does not hold; it carries the key text of the
/// element's creation ticket.
#[derive(Debug, Clone, PartialEq, Eq)]
pub enum RHTPQMapError {
    ElementNotFound(String),
}

/// Whether the creation tickets of a queue never rise: its head is the newest element.
pub open spec fn queue_sorted<E: Element>(q: Seq<E>) -> bool {
    forall|i: int, j: int|
        0 <= i < j < q.len() ==> !ticket_after(#[trigger] q[j].created_at_spec(), #[trigger] q[i].created_at_spec())
}

/// Whether the keys rise strictly and each queue is non-empty and newest first.
pub open spec fn pq_wf<E: Element>(s: Seq<(Seq<char>, Seq<E>)>) -> bool {
    &&& forall|i: int, j: int| 0 <= i < j < s.len() ==> chars_lt(#[trigger] s[i].0, #[trigger] s[j].0)
    &&& forall|i: int| 0 <= i < s.len() ==> (#[trigger] s[i].1).len() > 0 && queue_sorted(s[i].1)
}

/// Whether some queue has key `k`.
pub open spec fn pq_has_key<E>(s: Seq<(Seq<char>, Seq<E>)>, k: Seq<char>) -> bool {
    exists|i: int| 0 <= i < s.len() && #[trigger] s[i].0 == k
}

/// Whether `p` is where a queue of the absent key `k` belongs among the sorted keys.
pub open spec fn key_slot<E>(s: Seq<(Seq<char>, Seq<E>)>, k: Seq<char>, p: int) -> bool {
    &&& 0 <= p <= s.len()
    &&& forall|j: int| 0 <= j < p ==> chars_lt(#[trigger] s[j].0, k)
    &&& forall|j: int| p <= j < s.len() ==> chars_lt(k, #[trigger] s[j].0)
}

/// The head of a queue where it is not tombstoned.
pub open spec fn live_head<E: Element>(q: Seq<E>) -> Option<E> {
    if q.len() > 0 && q[0].removed_at_spec() is None { Some(q[0]) } else { None }
}

/// The head of a queue after a removal at `t`, where the removal takes effect.
pub open spec fn head_removal<E: Element>(q: Seq<E>, t: Ticket) -> Option<E> {
    if q.len() > 0 && removable(q[0].created_at_spec(), q[0].removed_at_spec(), t) {
        Some(q[0].tombstoned(t))
    } else {
        None
    }
}

/// A queue after a removal of its head at `t`.
pub open spec fn after_delete<E: Element>(q: Seq<E>, t: Ticket) -> Seq<E> {
    match head_removal(q, t) {
        Some(h) => q.update(0, h),
        None => q,
    }
}

/// A queue with `v` placed before the first element that it is newer than.
pub open spec fn queue_push<E: Element>(q: Seq<E>, v: E) -> Seq<E>
    decreases q.len(),
{
    if q.len() == 0 {
        seq![v]
    } else if ticket_after(v.created_at_spec(), q[0].created_at_spec()) {
        seq![v] + q
    } else {
        seq![q[0]] + queue_push(q.drop_first(), v)
    }
}

/// What `set` of `v` hands back for a queue: the live head, tombstoned at the creation of
/// `v`, where that removal takes effect.
pub open spec fn displaced<E: Element>(q: Seq<E>, v: E) -> Option<E> {
    if live_head(q) is Some {
        head_removal(q, v.created_at_spec())
    } else {
        None
    }
}

/// A queue after `set` of `v`: the head tombstoned where `set` displaced it, and `v` added.
pub open spec fn after_set<E: Element>(q: Seq<E>, v: E) -> Seq<E> {
    match displaced(q, v) {
        Some(h) => queue_push(q.update(0, h), v),
        None => queue_push(q, v),
    }
}

/// The key and live head of each queue that has one, in order.
pub open spec fn live_heads<E: Element>(s: Seq<(Seq<char>, Seq<E>)>) -> Seq<(Seq<char>, E)>
    decreases s.len(),
{
    if s.len() == 0 {
        Seq::empty()
    } else {
        match live_head(s.last().1) {
            Some(h) => live_heads(s.drop_last()).push((s.last().0, h)),
            None => live_heads(s.drop_last()),
        }
    }
}

/// The key and every element of each queue, in order.
pub open spec fn all_entries<E: Element>(s: Seq<(Seq<char>, Seq<E>)>) -> Seq<(Seq<char>, E)>
    decreases s.len(),
{
    if s.len() == 0 {
        Seq::empty()
    } else {
        all_entries(s.drop_last()) + s.last().1.map_values(|e: E| (s.last().0, e))
    }
}

/// Whether `(i, j)` is the first place, in order, of an element created at `c`.
pub open spec fn first_created<E: Element>(s: Seq<(Seq<char>, Seq<E>)>, c: Ticket, i: int, j: int) -> bool {
    &&& 0 <= i < s.len()
    &&& 0 <= j < s[i].1.len()
    &&& s[i].1[j].created_at_spec() == c
    &&& forall|a: int, b: int|
        #![trigger s[a].1[b]]
        (0 <= a < i && 0 <= b < s[a].1.len()) || (a == i && 0 <= b < j) ==> s[a].1[b].created_at_spec() != c
}

/// Whether some element was created at `c`.
pub open spec fn holds_created<E: Element>(s: Seq<(Seq<char>, Seq<E>)>, c: Ticket) -> bool {
    exists|i: int, j: int| 0 <= i < s.len() && 0 <= j < s[i].1.len() && #[trigger] s[i].1[j].created_at_spec() == c
}

proof fn lemma_queue_push_contains<E: Element>(q: Seq<E>, v: E)
    ensures
        queue_push(q, v).contains(v),
        queue_push(q, v).len() == q.len() + 1,
    decreases q.len(),
{
    if q.len() == 0 {
        assert(queue_push(q, v)[0] == v);
    } else if ticket_after(v.created_at_spec(), q[0].created_at_spec()) {
        assert(queue_push(q, v)[0] == v);
    } else {
        lemma_queue_push_contains(q.drop_first(), v);
        let r = queue_push(q.drop_first(), v);
        let k = choose|k: int| 0 <= k < r.len() && r[k] == v;
        assert(queue_push(q, v)[k + 1] == v);
    }
}

/// What `set` hands back: where the newest element of the key is live and the new element was
/// created after it, that element, tombstoned at the new one's creation and otherwise the same;
/// where the newest element is already tombstoned, nothing. The new element joins the queue
/// in every case.
pub proof fn lemma_set_displaces_live_head<E: Element>(q: Seq<E>, v: E)
    requires
        q.len() > 0,
    ensures
        q[0].removed_at_spec() is None && ticket_after(v.created_at_spec(), q[0].created_at_spec()) ==> {
            let d = displaced(q, v);
            &&& d == Some(q[0].tombstoned(v.created_at_spec()))
            &&& d->Some_0.created_at_spec() == q[0].created_at_spec()
            &&& d->Some_0.text() == q[0].text()
            &&& d->Some_0.removed_at_spec() == Some(v.created_at_spec())
        },
        q[0].removed_at_spec() is Some ==> displaced(q, v) is None,
        after_set(q, v).contains(v),
{
    q[0].lemma_timestamps(v.created_at_spec());
    lemma_queue_push_contains(q, v);
    lemma_queue_push_contains(q.update(0, q[0].tombstoned(v.created_at_spec())), v);
}

/// A node of the map: an element under its key.
pub struct RHTPQMapNode<E> {
    key: String,
    element: E,
}

impl<E: Element> RHTPQMapNode<E> {
    pub closed spec fn key_view(&self) -> Seq<char> {
        self.key@
    }

    pub closed spec fn element_view(&self) -> E {
        self.element
    }

    pub fn new(key: String, element: E) -> (r: RHTPQMapNode<E>)
        ensures
            r.key_view() == key@,
            r.element_view() == element,
    {
        RHTPQMapNode { key, element }
    }

    /// Removes the element at `ticket`; says whether that took effect.
    pub fn remove(&mut self, ticket: Ticket) -> (r: bool)
        ensures
            r == removable(old(self).element_view().created_at_spec(), old(self).element_view().removed_at_spec(), ticket),
            final(self).key_view() == old(self).key_view(),
            final(self).element_view() == if r { old(self).element_view().tombstoned(ticket) } else { old(self).element_view() },
    {
        self.element.remove(ticket)
    }

    pub fn is_removed(&self) -> (r: bool)
        ensures
            r == self.element_view().removed_at_spec() is Some,
    {
        self.element.removed_at().is_some()
    }

    pub fn key(&self) -> (r: String)
        ensures
            r@ == self.key_view(),
    {
        self.key.clone()
    }

    pub fn element(&self) -> (r: &E)
        ensures
            *r == self.element_view(),
    {
        &self.element
    }
}

/// The elements of one key, newest first.
struct KeyQueue<E> {
    key: String,
    nodes: Vec<RHTPQMapNode<E>>,
}

impl<E: Element> KeyQueue<E> {
    closed spec fn elements_view(&self) -> Seq<E> {
        self.nodes@.map_values(|n: RHTPQMapNode<E>| n.element)
    }

    closed spec fn keyed(&self) -> bool {
        forall|j: int| 0 <= j < self.nodes@.len() ==> (#[trigger] self.nodes@[j]).key@ == self.key@
    }
}

/// A map from keys to elements that keeps every concurrently set element of a key, newest
/// first, and lets only the newest one be seen.
pub struct RHTPriorityQueueMap<E> {
    queues: Vec<KeyQueue<E>>,
}

impl<E: Element> View for RHTPriorityQueueMap<E> {
    type V = Seq<(Seq<char>, Seq<E>)>;

    closed spec fn view(&self) -> Seq<(Seq<char>, Seq<E>)> {
        self.queues@.map_values(|q: KeyQueue<E>| (q.key@, q.elements_view()))
    }
}

proof fn lemma_keys_unique<E>(s: Seq<(Seq<char>, Seq<E>)>, i: int, j: int)
    requires
        forall|a: int, b: int| 0 <= a < b < s.len() ==> chars_lt(#[trigger] s[a].0, #[trigger] s[b].0),
        0 <= i < s.len(),
        0 <= j < s.len(),
        i != j,
    ensures
        s[i].0 != s[j].0,
{
    lemma_chars_order(s[i].0, s[j].0, s[j].0);
    lemma_chars_order(s[j].0, s[i].0, s[i].0);
}

/// `queue_push` places `v` at the first index whose element it is newer than.
proof fn lemma_queue_push_at<E: Element>(q: Seq<E>, v: E, p: int)
    requires
        0 <= p <= q.len(),
        forall|j: int| 0 <= j < p ==> !ticket_after(v.created_at_spec(), #[trigger] q[j].created_at_spec()),
        p == q.len() || ticket_after(v.created_at_spec(), q[p].created_at_spec()),
    ensures
        queue_push(q, v) == q.insert(p, v),
    decreases q.len(),
{
    if q.len() == 0 {
        assert(q.insert(p, v) =~= seq![v]);
    } else if p == 0 {
        assert(q.insert(0, v) =~= seq![v] + q);
    } else {
        let r = q.drop_first();
        assert forall|j: int| 0 <= j < p - 1 implies !ticket_after(v.created_at_spec(), #[trigger] r[j].created_at_spec()) by {
            assert(r[j] == q[j + 1]);
        }
        lemma_queue_push_at(r, v, p - 1);
        assert(seq![q[0]] + r.insert(p - 1, v) =~= q.insert(p, v));
    }
}

/// Setting the tombstone of an element keeps a queue newest first.
proof fn lemma_queue_sorted_update<E: Element>(q: Seq<E>, k: int, t: Ticket)
    requires
        0 <= k < q.len(),
        queue_sorted(q),
    ensures
        queue_sorted(q.update(k, q[k].tombstoned(t))),
{
    q[k].lemma_timestamps(t);
    let u = q.update(k, q[k].tombstoned(t));
    assert forall|i: int, j: int| 0 <= i < j < u.len() implies !ticket_after(#[trigger] u[j].created_at_spec(), #[trigger] u[i].created_at_spec()) by {
        assert(u[j].created_at_spec() == q[j].created_at_spec());
        assert(u[i].created_at_spec() == q[i].created_at_spec());
    }
}

/// Placing `v` before the first element that it is newer than keeps a queue newest first.
proof fn lemma_queue_insert_sorted<E: Element>(q: Seq<E>, v: E, p: int)
    requires
        queue_sorted(q),
        0 <= p <= q.len(),
        forall|j: int| 0 <= j < p ==> !ticket_after(v.created_at_spec(), #[trigger] q[j].created_at_spec()),
        p == q.len() || ticket_after(v.created_at_spec(), q[p].created_at_spec()),
    ensures
        queue_sorted(q.insert(p, v)),
{
    let u = q.insert(p, v);
    assert forall|a: int, b: int| 0 <= a < b < u.len() implies !ticket_after(#[trigger] u[b].created_at_spec(), #[trigger] u[a].created_at_spec()) by {
        if b < p {
            assert(u[a] == q[a] && u[b] == q[b]);
        } else if b == p {
            assert(u[a] == q[a]);
        } else if a == p {
            assert(u[b] == q[b - 1]);
            let x = q[b - 1].created_at_spec();
            let y = q[p].created_at_spec();
            let c = v.created_at_spec();
            if b - 1 > p {
                assert(!ticket_after(x, y));
            }
            lemma_ticket_order(x, y, c);
            lemma_ticket_order(y, c, x);
            lemma_ticket_order(x, c, x);
        } else {
            let aa = if a < p { a } else { a - 1 };
            assert(u[a] == q[aa]);
            assert(u[b] == q[b - 1]);
            if aa < b - 1 {
            }
        }
    }
}

/// Removing an element keeps a queue newest first.
proof fn lemma_queue_remove_sorted<E: Element>(q: Seq<E>, k: int)
    requires
        queue_sorted(q),
        0 <= k < q.len(),
    ensures
        queue_sorted(q.remove(k)),
{
    let u = q.remove(k);
    assert forall|a: int, b: int| 0 <= a < b < u.len() implies !ticket_after(#[trigger] u[b].created_at_spec(), #[trigger] u[a].created_at_spec()) by {
        let aa = if a < k { a } else { a + 1 };
        let bb = if b < k { b } else { b + 1 };
        assert(u[a] == q[aa]);
        assert(u[b] == q[bb]);
    }
}

impl<E: Element> KeyQueue<E> {
    /// Adds `node` before the first element that it is newer than.
    fn push(&mut self, node: RHTPQMapNode<E>)
        requires
            old(self).keyed(),
            queue_sorted(old(self).elements_view()),
            node.key@ == old(self).key@,
        ensures
            final(self).key == old(self).key,
            final(self).keyed(),
            final(self).elements_view() == queue_push(old(self).elements_view(), node.element),
            queue_sorted(final(self).elements_view()),
    {
        let ghost q = self.elements_view();
        let ghost v = node.element;
        let c = node.element.created_at();
        let mut p: usize = 0;
        while p < self.nodes.len()
            invariant
                0 <= p <= self.nodes@.len(),
                q == self.elements_view(),
                q.len() == self.nodes@.len(),
                c == v.created_at_spec(),
                forall|j: int| 0 <= j < p ==> !ticket_after(v.created_at_spec(), #[trigger] q[j].created_at_spec()),
            ensures
                0 <= p <= self.nodes@.len(),
                q == self.elements_view(),
                forall|j: int| 0 <= j < p ==> !ticket_after(v.created_at_spec(), #[trigger] q[j].created_at_spec()),
                p == q.len() || ticket_after(v.created_at_spec(), q[p as int].created_at_spec()),
            decreases self.nodes@.len() - p,
        {
            assert(q[p as int] == self.nodes@[p as int].element);
            if c.after(&self.nodes[p].element.created_at()) {
                break;
            }
            p = p + 1;
        }
        let ghost nodes0 = self.nodes@;
        self.nodes.insert(p, node);
        proof {
            lemma_queue_push_at(q, v, p as int);
            lemma_queue_insert_sorted(q, v, p as int);
            assert(self.nodes@ == nodes0.insert(p as int, node));
            assert(self.elements_view() =~= q.insert(p as int, v));
            assert forall|j: int| 0 <= j < self.nodes@.len() implies (#[trigger] self.nodes@[j]).key@ == self.key@ by {
                if j < p {
                    assert(self.nodes@[j] == nodes0[j]);
                } else if j > p {
                    assert(self.nodes@[j] == nodes0[j - 1]);
                }
            }
        }
    }
}

impl<E: Element> RHTPriorityQueueMap<E> {
    /// Every node stores the key of its queue.
    pub closed spec fn keyed(&self) -> bool {
        forall|i: int| 0 <= i < self.queues@.len() ==> (#[trigger] self.queues@[i]).keyed()
    }

    /// Keys are kept in ascending order, each queue non-empty and newest first.
    pub open spec fn wf(&self) -> bool {
        pq_wf(self@) && self.keyed()
    }

    pub fn new() -> (r: RHTPriorityQueueMap<E>)
        ensures
            r.wf(),
            r@ == Seq::<(Seq<char>, Seq<E>)>::empty(),
    {
        let r = RHTPriorityQueueMap { queues: Vec::new() };
        assert(r@ =~= Seq::<(Seq<char>, Seq<E>)>::empty());
        r
    }

    /// The index of the queue of `key`, or where one would go.
    fn find_key(&self, key: &str) -> (r: Result<usize, usize>)
        requires
            self.wf(),
        ensures
            match r {
                Ok(i) => i < self@.len() && self@[i as int].0 == key@,
                Err(p) => !pq_has_key(self@, key@) && key_slot(self@, key@, p as int),
            },
    {
        let ghost s = self@;
        let mut i: usize = 0;
        while i < self.queues.len()
            invariant
                0 <= i <= s.len(),
                s == self@,
                pq_wf(s),
                s.len() == self.queues@.len(),
                forall|j: int| 0 <= j < i ==> chars_lt(#[trigger] s[j].0, key@),
            decreases s.len() - i,
        {
            assert(s[i as int].0 == self.queues@[i as int].key@);
            let c = compare_str(key, self.queues[i].key.as_str());
            proof {
                lemma_chars_order(key@, s[i as int].0, key@);
                lemma_chars_order(s[i as int].0, key@, key@);
            }
            if matches!(c, Ordering::Equal) {
                return Ok(i);
            } else if matches!(c, Ordering::Less) {
                proof {
                    assert forall|j: int| i <= j < s.len() implies chars_lt(key@, #[trigger] s[j].0) by {
                        if j > i {
                            lemma_chars_order(key@, s[i as int].0, s[j].0);
                        }
                    }
                    assert forall|j: int| 0 <= j < s.len() implies #[trigger] s[j].0 != key@ by {
                        if j >= i {
                            lemma_chars_order(key@, s[j].0, key@);
                        } else {
                            lemma_chars_order(s[j].0, key@, key@);
                        }
                    }
                }
                return Err(i);
            }
            i = i + 1;
        }
        proof {
            assert forall|j: int| 0 <= j < s.len() implies #[trigger] s[j].0 != key@ by {
                lemma_chars_order(s[j].0, key@, key@);
            }
        }
        Err(i)
    }

    /// The newest element of `key`, unless it is tombstoned.
    pub fn get(&self, key: &str) -> (r: Option<E>)
        requires
            self.wf(),
        ensures
            !pq_has_key(self@, key@) ==> r is None,
            forall|i: int| 0 <= i < self@.len() && #[trigger] self@[i].0 == key@ ==> r == live_head(self@[i].1),
    {
        match self.find_key(key) {
            Ok(i) => {
                proof {
                    assert forall|k: int| 0 <= k < self@.len() && #[trigger] self@[k].0 == key@ implies k == i by {
                        if k != i {
                            lemma_keys_unique(self@, k, i as int);
                        }
                    }
                }
                let q = &self.queues[i];
                assert(self@[i as int].1 == q.elements_view());
                assert(q.elements_view()[0] == q.nodes@[0].element);
                if q.nodes[0].element.removed_at().is_none() {
                    Some(q.nodes[0].element.deepcopy())
                } else {
                    None
                }
            },
            Err(_) => None,
        }
    }

    /// Whether the newest element of `key` exists and is not tombstoned.
    pub fn has(&self, key: &str) -> (r: bool)
        requires
            self.wf(),
        ensures
            !pq_has_key(self@, key@) ==> !r,
            forall|i: int| 0 <= i < self@.len() && #[trigger] self@[i].0 == key@ ==> r == live_head(self@[i].1) is Some,
    {
        match self.find_key(key) {
            Ok(i) => {
                proof {
                    assert forall|k: int| 0 <= k < self@.len() && #[trigger] self@[k].0 == key@ implies k == i by {
                        if k != i {
                            lemma_keys_unique(self@, k, i as int);
                        }
                    }
                }
                let q = &self.queues[i];
                assert(self@[i as int].1 == q.elements_view());
                assert(q.elements_view()[0] == q.nodes@[0].element);
                q.nodes[0].element.removed_at().is_none()
            },
            Err(_) => false,
        }
    }

    /// Removes the element at place `j` of queue `i` at `t`; hands back a copy where that
    /// took effect.
    fn remove_at(&mut self, i: usize, j: usize, t: Ticket) -> (r: Option<E>)
        requires
            old(self).wf(),
            i < old(self)@.len(),
            j < old(self)@[i as int].1.len(),
        ensures
            final(self).wf(),
            ({
                let e = old(self)@[i as int].1[j as int];
                let ok = removable(e.created_at_spec(), e.removed_at_spec(), t);
                &&& r == if ok { Some(e.tombstoned(t)) } else { None }
                &&& final(self)@ == old(self)@.update(
                    i as int,
                    (old(self)@[i as int].0, old(self)@[i as int].1.update(j as int, if ok { e.tombstoned(t) } else { e })),
                )
            }),
    {
        let ghost s = self@;
        let ghost queues0 = self.queues@;
        let mut q = self.queues.remove(i);
        let ghost q0 = q.elements_view();
        let ghost nodes0 = q.nodes@;
        assert(q0 == s[i as int].1);
        assert(q.keyed());
        let mut node = q.nodes.remove(j);
        assert(node == nodes0[j as int]);
        let mut out: Option<E> = None;
        if node.element.remove(t) {
            out = Some(node.element.deepcopy());
        }
        q.nodes.insert(j, node);
        self.queues.insert(i, q);
        proof {
            let e = q0[j as int];
            let ok = removable(e.created_at_spec(), e.removed_at_spec(), t);
            let nq = q0.update(j as int, if ok { e.tombstoned(t) } else { e });
            assert(q.nodes@ =~= nodes0.update(j as int, node));
            assert(q.elements_view() =~= nq);
            assert forall|k: int| 0 <= k < q.nodes@.len() implies (#[trigger] q.nodes@[k]).key@ == q.key@ by {
                if k != j {
                    assert(q.nodes@[k] == nodes0[k]);
                }
            }
            if ok {
                lemma_queue_sorted_update(q0, j as int, t);
            } else {
                assert(nq =~= q0);
            }
            assert(self.queues@ == queues0.remove(i as int).insert(i as int, q));
            let t2 = s.update(i as int, (s[i as int].0, nq));
            assert(self@ =~= t2) by {
                assert forall|k: int| 0 <= k < s.len() implies #[trigger] self@[k] == t2[k] by {
                    if k != i {
                        assert(self.queues@[k] == queues0[k]);
                    }
                }
            }
            assert forall|k: int| 0 <= k < self.queues@.len() implies (#[trigger] self.queues@[k]).keyed() by {
                if k != i {
                    assert(self.queues@[k] == queues0[k]);
                }
            }
            assert forall|a: int, b: int| 0 <= a < b < t2.len() implies chars_lt(#[trigger] t2[a].0, #[trigger] t2[b].0) by {
                assert(t2[a].0 == s[a].0);
                assert(t2[b].0 == s[b].0);
            }
            assert forall|k: int| 0 <= k < t2.len() implies (#[trigger] t2[k].1).len() > 0 && queue_sorted(t2[k].1) by {
                if k != i {
                    assert(t2[k] == s[k]);
                }
            }
        }
        out
    }

    /// Removes the newest element of `key` at `deleted_at`; hands back a copy where that took
    /// effect.
    pub fn delete(&mut self, key: String, deleted_at: Ticket) -> (r: Option<E>)
        requires
            old(self).wf(),
        ensures
            final(self).wf(),
            forall|i: int| 0 <= i < old(self)@.len() && #[trigger] old(self)@[i].0 == key@ ==> {
                &&& r == head_removal(old(self)@[i].1, deleted_at)
                &&& final(self)@ == old(self)@.update(i, (key@, after_delete(old(self)@[i].1, deleted_at)))
            },
            !pq_has_key(old(self)@, key@) ==> r is None && final(self)@ == old(self)@,
    {
        match self.find_key(key.as_str()) {
            Ok(i) => {
                proof {
                    assert forall|k: int| 0 <= k < self@.len() && #[trigger] self@[k].0 == key@ implies k == i by {
                        if k != i {
                            lemma_keys_unique(self@, k, i as int);
                        }
                    }
                }
                let ghost q = self@[i as int].1;
                let r = self.remove_at(i, 0, deleted_at);
                assert(q.update(0, q[0]) =~= q);
                r
            },
            Err(_) => None,
        }
    }

    /// The place of the first element, in order, created at `created_at`.
    fn locate(&self, created_at: &Ticket) -> (r: Option<(usize, usize)>)
        requires
            self.wf(),
        ensures
            match r {
                Some((i, j)) => first_created(self@, *created_at, i as int, j as int),
                None => !holds_created(self@, *created_at),
            },
    {
        let ghost s = self@;
        let ghost c = *created_at;
        let mut i: usize = 0;
        while i < self.queues.len()
            invariant
                0 <= i <= s.len(),
                s == self@,
                c == *created_at,
                s.len() == self.queues@.len(),
                forall|a: int, b: int|
                    #![trigger s[a].1[b]]
                    0 <= a < i && 0 <= b < s[a].1.len() ==> s[a].1[b].created_at_spec() != c,
            decreases s.len() - i,
        {
            let q = &self.queues[i];
            assert(s[i as int].1 == q.elements_view());
            let mut j: usize = 0;
            while j < q.nodes.len()
                invariant
                    0 <= i < s.len(),
                    0 <= j <= q.nodes@.len(),
                    s == self@,
                    c == *created_at,
                    s[i as int].1 == q.elements_view(),
                    q.nodes@.len() == s[i as int].1.len(),
                    forall|a: int, b: int|
                        #![trigger s[a].1[b]]
                        (0 <= a < i && 0 <= b < s[a].1.len()) || (a == i && 0 <= b < j) ==> s[a].1[b].created_at_spec() != c,
                decreases q.nodes@.len() - j,
            {
                assert(s[i as int].1[j as int] == q.nodes@[j as int].element);
                let t = q.nodes[j].element.created_at();
                proof {
                    lemma_ticket_order(t, c, c);
                }
                if matches!(t.cmp(created_at), Ordering::Equal) {
                    return Some((i, j));
                }
                j = j + 1;
            }
            i = i + 1;
        }
        None
    }

    /// Removes at `deleted_at` the first element, in order, created at `created_at`; hands back
    /// a copy where that took effect.
    pub fn delete_by_created_at(&mut self, created_at: Ticket, deleted_at: Ticket) -> (r: Option<E>)
        requires
            old(self).wf(),
        ensures
            final(self).wf(),
            !holds_created(old(self)@, created_at) ==> r is None && final(self)@ == old(self)@,
            forall|i: int, j: int| first_created(old(self)@, created_at, i, j) ==> {
                let e = #[trigger] old(self)@[i].1[j];
                let ok = removable(e.created_at_spec(), e.removed_at_spec(), deleted_at);
                &&& r == if ok { Some(e.tombstoned(deleted_at)) } else { None }
                &&& final(self)@ == old(self)@.update(i, (old(self)@[i].0, old(self)@[i].1.update(j, if ok { e.tombstoned(deleted_at) } else { e })))
            },
    {
        match self.locate(&created_at) {
            Some((i, j)) => {
                proof {
                    assert forall|a: int, b: int| first_created(self@, created_at, a, b) implies a == i && b == j by {
                        if a < i {
                            assert(self@[a].1[b].created_at_spec() != created_at);
                        } else if a > i {
                            assert(self@[i as int].1[j as int].created_at_spec() != created_at);
                        } else if b < j {
                            assert(self@[a].1[b].created_at_spec() != created_at);
                        } else if b > j {
                            assert(self@[i as int].1[j as int].created_at_spec() != created_at);
                        }
                    }
                }
                self.remove_at(i, j, deleted_at)
            },
            None => None,
        }
    }

    /// Evicts for good the first element, in order, created when `element` was; a queue left
    /// empty goes too. Fails where no element was created then.
    pub fn purge(&mut self, element: E) -> (r: Result<(), RHTPQMapError>)
        requires
            old(self).wf(),
        ensures
            final(self).wf(),
            r is Err <==> !holds_created(old(self)@, element.created_at_spec()),
            r is Err ==> final(self)@ == old(self)@ && (match r->Err_0 {
                RHTPQMapError::ElementNotFound(k) => k@ == annotated(element.created_at_spec()),
            }),
            forall|i: int, j: int| first_created(old(self)@, element.created_at_spec(), i, j) ==> final(self)@ == if old(
                self,
            )@[i].1.len() == 1 {
                old(self)@.remove(i)
            } else {
                old(self)@.update(i, (old(self)@[i].0, old(self)@[i].1.remove(j)))
            },
    {
        let c = element.created_at();
        match self.locate(&c) {
            None => Err(RHTPQMapError::ElementNotFound(c.key())),
            Some((i, j)) => {
                let ghost s = self@;
                proof {
                    assert forall|a: int, b: int| first_created(s, c, a, b) implies a == i && b == j by {
                        if a < i {
                            assert(s[a].1[b].created_at_spec() != c);
                        } else if a > i {
                            assert(s[i as int].1[j as int].created_at_spec() != c);
                        } else if b < j {
                            assert(s[a].1[b].created_at_spec() != c);
                        } else if b > j {
                            assert(s[i as int].1[j as int].created_at_spec() != c);
                        }
                    }
                }
                let ghost queues0 = self.queues@;
                let mut q = self.queues.remove(i);
                let ghost q0 = q.elements_view();
                let ghost nodes0 = q.nodes@;
                assert(q0 == s[i as int].1);
                assert(q.keyed());
                if q.nodes.len() == 1 {
                    proof {
                        let t = s.remove(i as int);
                        assert(self.queues@ == queues0.remove(i as int));
                        assert(self@ =~= t) by {
                            assert forall|k: int| 0 <= k < t.len() implies #[trigger] self@[k] == t[k] by {
                                if k < i {
                                    assert(self.queues@[k] == queues0[k]);
                                } else {
                                    assert(self.queues@[k] == queues0[k + 1]);
                                }
                            }
                        }
                        assert forall|k: int| 0 <= k < self.queues@.len() implies (#[trigger] self.queues@[k]).keyed() by {
                            if k < i {
                                assert(self.queues@[k] == queues0[k]);
                            } else {
                                assert(self.queues@[k] == queues0[k + 1]);
                            }
                        }
                        assert forall|a: int, b: int| 0 <= a < b < t.len() implies chars_lt(#[trigger] t[a].0, #[trigger] t[b].0) by {
                            let aa = if a < i { a } else { a + 1 };
                            let bb = if b < i { b } else { b + 1 };
                            assert(t[a] == s[aa]);
                            assert(t[b] == s[bb]);
                        }
                        assert forall|k: int| 0 <= k < t.len() implies (#[trigger] t[k].1).len() > 0 && queue_sorted(t[k].1) by {
                            let kk = if k < i { k } else { k + 1 };
                            assert(t[k] == s[kk]);
                        }
                    }
                    return Ok(());
                }
                q.nodes.remove(j);
                self.queues.insert(i, q);
                proof {
                    let nq = q0.remove(j as int);
                    assert(q.nodes@ =~= nodes0.remove(j as int));
                    assert(q.elements_view() =~= nq);
                    assert forall|k: int| 0 <= k < q.nodes@.len() implies (#[trigger] q.nodes@[k]).key@ == q.key@ by {
                        if k < j {
                            assert(q.nodes@[k] == nodes0[k]);
                        } else {
                            assert(q.nodes@[k] == nodes0[k + 1]);
                        }
                    }
                    lemma_queue_remove_sorted(q0, j as int);
                    assert(self.queues@ == queues0.remove(i as int).insert(i as int, q));
                    let t2 = s.update(i as int, (s[i as int].0, nq));
                    assert(self@ =~= t2) by {
                        assert forall|k: int| 0 <= k < s.len() implies #[trigger] self@[k] == t2[k] by {
                            if k != i {
                                assert(self.queues@[k] == queues0[k]);
                            }
                        }
                    }
                    assert forall|k: int| 0 <= k < self.queues@.len() implies (#[trigger] self.queues@[k]).keyed() by {
                        if k != i {
                            assert(self.queues@[k] == queues0[k]);
                        }
                    }
                    assert forall|a: int, b: int| 0 <= a < b < t2.len() implies chars_lt(#[trigger] t2[a].0, #[trigger] t2[b].0) by {
                        assert(t2[a].0 == s[a].0);
                        assert(t2[b].0 == s[b].0);
                    }
                    assert forall|k: int| 0 <= k < t2.len() implies (#[trigger] t2[k].1).len() > 0 && queue_sorted(t2[k].1) by {
                        if k != i {
                            assert(t2[k] == s[k]);
                        }
                    }
                }
                Ok(())
            },
        }
    }

    /// The key and a copy of the live newest element of each key that has one, in ascending
    /// order of key.
    pub fn elements(&self) -> (r: Vec<(String, E)>)
        requires
            self.wf(),
        ensures
            r@.map_values(|p: (String, E)| (p.0@, p.1)) == live_heads(self@),
    {
        let ghost s = self@;
        let mut out: Vec<(String, E)> = Vec::new();
        let mut i: usize = 0;
        while i < self.queues.len()
            invariant
                0 <= i <= s.len(),
                s == self@,
                pq_wf(s),
                s.len() == self.queues@.len(),
                out@.map_values(|p: (String, E)| (p.0@, p.1)) == live_heads(s.take(i as int)),
            decreases s.len() - i,
        {
            let q = &self.queues[i];
            assert(s[i as int] == (q.key@, q.elements_view()));
            assert(s.take(i + 1).drop_last() =~= s.take(i as int));
            assert(s.take(i + 1).last() == s[i as int]);
            assert(s[i as int].1.len() > 0);
            assert(q.elements_view()[0] == q.nodes@[0].element);
            let ghost before = out@;
            if q.nodes[0].element.removed_at().is_none() {
                out.push((q.key.clone(), q.nodes[0].element.deepcopy()));
                assert(out@.map_values(|p: (String, E)| (p.0@, p.1)) =~= before.map_values(|p: (String, E)| (p.0@, p.1)).push(
                    (s[i as int].0, s[i as int].1[0]),
                ));
            }
            i = i + 1;
        }
        assert(s.take(i as int) =~= s);
        out
    }

    /// A copy of every node, key by key in ascending order, each queue newest first.
    pub fn nodes(&self) -> (r: Vec<RHTPQMapNode<E>>)
        requires
            self.wf(),
        ensures
            r@.map_values(|n: RHTPQMapNode<E>| (n.key_view(), n.element_view())) == all_entries(self@),
    {
        let ghost s = self@;
        let mut out: Vec<RHTPQMapNode<E>> = Vec::new();
        let mut i: usize = 0;
        while i < self.queues.len()
            invariant
                0 <= i <= s.len(),
                s == self@,
                s.len() == self.queues@.len(),
                out@.map_values(|n: RHTPQMapNode<E>| (n.key_view(), n.element_view())) == all_entries(s.take(i as int)),
            decreases s.len() - i,
        {
            let q = &self.queues[i];
            assert(s[i as int] == (q.key@, q.elements_view()));
            let ghost base = out@.map_values(|n: RHTPQMapNode<E>| (n.key_view(), n.element_view()));
            let ghost row = s[i as int].1.map_values(|e: E| (s[i as int].0, e));
            let mut j: usize = 0;
            while j < q.nodes.len()
                invariant
                    0 <= i < s.len(),
                    0 <= j <= q.nodes@.len(),
                    s[i as int] == (q.key@, q.elements_view()),
                    row == s[i as int].1.map_values(|e: E| (s[i as int].0, e)),
                    q.nodes@.len() == s[i as int].1.len(),
                    out@.map_values(|n: RHTPQMapNode<E>| (n.key_view(), n.element_view())) == base + row.take(j as int),
                decreases q.nodes@.len() - j,
            {
                let ghost before = out@;
                assert(s[i as int].1[j as int] == q.nodes@[j as int].element);
                let n = RHTPQMapNode::new(q.key.clone(), q.nodes[j].element.deepcopy());
                out.push(n);
                assert(row.take(j + 1) =~= row.take(j as int).push(row[j as int]));
                assert(out@.map_values(|n: RHTPQMapNode<E>| (n.key_view(), n.element_view())) =~= before.map_values(
                    |n: RHTPQMapNode<E>| (n.key_view(), n.element_view()),
                ).push((n.key_view(), n.element_view())));
                j = j + 1;
            }
            assert(row.take(j as int) =~= row);
            assert(s.take(i + 1).drop_last() =~= s.take(i as int));
            assert(s.take(i + 1).last() == s[i as int]);
            i = i + 1;
        }
        assert(s.take(i as int) =~= s);
        out
    }

    /// The text `{k1:v1,k2:v2,...}` of the live newest element of each key, in ascending order
    /// of key.
    pub fn to_string(&self) -> (r: String)
        requires
            self.wf(),
        ensures
            r@ == rendered_pairs(live_heads(self@).map_values(|p: (Seq<char>, E)| (p.0, p.1.text()))),
    {
        let ghost s = self@;
        let mut pairs: Vec<(String, String)> = Vec::new();
        let mut i: usize = 0;
        while i < self.queues.len()
            invariant
                0 <= i <= s.len(),
                s == self@,
                pq_wf(s),
                s.len() == self.queues@.len(),
                pairs@.map_values(|p: (String, String)| (p.0@, p.1@)) == live_heads(s.take(i as int)).map_values(
                    |p: (Seq<char>, E)| (p.0, p.1.text()),
                ),
            decreases s.len() - i,
        {
            let q = &self.queues[i];
            assert(s[i as int] == (q.key@, q.elements_view()));
            assert(s.take(i + 1).drop_last() =~= s.take(i as int));
            assert(s.take(i + 1).last() == s[i as int]);
            assert(s[i as int].1.len() > 0);
            assert(q.elements_view()[0] == q.nodes@[0].element);
            let ghost before = pairs@;
            if q.nodes[0].element.removed_at().is_none() {
                pairs.push((q.key.clone(), q.nodes[0].element.to_string()));
                assert(pairs@.map_values(|p: (String, String)| (p.0@, p.1@)) =~= before.map_values(
                    |p: (String, String)| (p.0@, p.1@),
                ).push((s[i as int].0, s[i as int].1[0].text())));
                assert(live_heads(s.take(i + 1)) == live_heads(s.take(i as int)).push((s[i as int].0, s[i as int].1[0])));
                assert(live_heads(s.take(i + 1)).map_values(|p: (Seq<char>, E)| (p.0, p.1.text())) =~= live_heads(
                    s.take(i as int),
                ).map_values(|p: (Seq<char>, E)| (p.0, p.1.text())).push((s[i as int].0, s[i as int].1[0].text())));
            }
            i = i + 1;
        }
        assert(s.take(i as int) =~= s);
        render_pairs(&pairs)
    }

    /// Sets `value` under `key`. Where the newest element of `key` is live and `value` was
    /// created after it, that element is tombstoned at the creation of `value` and handed
    /// back. `value` joins the queue of `key` in every case.
    pub fn set(&mut self, key: String, value: E) -> (r: Option<E>)
        requires
            old(self).wf(),
        ensures
            final(self).wf(),
            forall|i: int| 0 <= i < old(self)@.len() && #[trigger] old(self)@[i].0 == key@ ==> {
                &&& r == displaced(old(self)@[i].1, value)
                &&& final(self)@ == old(self)@.update(i, (key@, after_set(old(self)@[i].1, value)))
            },
            !pq_has_key(old(self)@, key@) ==> {
                &&& r is None
                &&& exists|p: int| key_slot(old(self)@, key@, p) && final(self)@ == old(self)@.insert(p, (key@, seq![value]))
            },
    {
        let ghost s = self@;
        match self.find_key(key.as_str()) {
            Ok(i) => {
                proof {
                    assert forall|k: int| 0 <= k < s.len() && #[trigger] s[k].0 == key@ implies k == i by {
                        if k != i {
                            lemma_keys_unique(s, k, i as int);
                        }
                    }
                }
                let ghost queues0 = self.queues@;
                let mut q = self.queues.remove(i);
                let ghost q0 = q.elements_view();
                assert(q0 == s[i as int].1);
                assert(q.keyed());
                let mut out: Option<E> = None;
                if q.nodes[0].element.removed_at().is_none() {
                    let ghost nodes0 = q.nodes@;
                    let mut head = q.nodes.remove(0);
                    assert(head == nodes0[0]);
                    if head.element.remove(value.created_at()) {
                        out = Some(head.element.deepcopy());
                    }
                    q.nodes.insert(0, head);
                    proof {
                        assert(q.nodes@ =~= nodes0.update(0, head));
                        assert(q.elements_view() =~= q0.update(0, head.element));
                        assert forall|j: int| 0 <= j < q.nodes@.len() implies (#[trigger] q.nodes@[j]).key@ == q.key@ by {
                            if j > 0 {
                                assert(q.nodes@[j] == nodes0[j]);
                            }
                        }
                        if out is Some {
                            lemma_queue_sorted_update(q0, 0, value.created_at_spec());
                        } else {
                            assert(q.elements_view() =~= q0);
                        }
                    }
                }
                proof {
                    assert(q.elements_view() == match displaced(q0, value) {
                        Some(h) => q0.update(0, h),
                        None => q0,
                    });
                }
                let node = RHTPQMapNode::new(key, value);
                q.push(node);
                self.queues.insert(i, q);
                proof {
                    assert(self.queues@ == queues0.remove(i as int).insert(i as int, q));
                    assert(self@ =~= s.update(i as int, (key@, after_set(s[i as int].1, value)))) by {
                        assert forall|j: int| 0 <= j < s.len() implies #[trigger] self@[j] == s.update(i as int, (key@, after_set(s[i as int].1, value)))[j] by {
                            if j != i {
                                assert(self.queues@[j] == queues0[j]);
                            }
                        }
                    }
                    assert forall|j: int| 0 <= j < self.queues@.len() implies (#[trigger] self.queues@[j]).keyed() by {
                        if j != i {
                            assert(self.queues@[j] == queues0[j]);
                        }
                    }
                }
                out
            },
            Err(p) => {
                let mut nodes: Vec<RHTPQMapNode<E>> = Vec::new();
                nodes.push(RHTPQMapNode::new(key.clone(), value));
                let q = KeyQueue { key, nodes };
                let ghost queues0 = self.queues@;
                self.queues.insert(p, q);
                proof {
                    assert(q.elements_view() =~= seq![value]);
                    let t = s.insert(p as int, (key@, seq![value]));
                    assert(self@ =~= t) by {
                        assert forall|j: int| 0 <= j < t.len() implies #[trigger] self@[j] == t[j] by {
                            if j < p {
                                assert(self.queues@[j] == queues0[j]);
                            } else if j > p {
                                assert(self.queues@[j] == queues0[j - 1]);
                            }
                        }
                    }
                    assert forall|a: int, b: int| 0 <= a < b < t.len() implies chars_lt(#[trigger] t[a].0, #[trigger] t[b].0) by {
                        if b < p {
                            assert(t[a] == s[a] && t[b] == s[b]);
                        } else if b == p {
                            assert(t[a] == s[a]);
                        } else if a == p {
                            assert(t[b] == s[b - 1]);
                        } else {
                            let aa = if a < p { a } else { a - 1 };
                            assert(t[a] == s[aa]);
                            assert(t[b] == s[b - 1]);
                        }
                    }
                    assert forall|j: int| 0 <= j < t.len() implies (#[trigger] t[j].1).len() > 0 && queue_sorted(t[j].1) by {
                        if j < p {
                            assert(t[j] == s[j]);
                        } else if j > p {
                            assert(t[j] == s[j - 1]);
                        }
                    }
                    assert forall|j: int| 0 <= j < self.queues@.len() implies (#[trigger] self.queues@[j]).keyed() by {
                        if j < p {
                            assert(self.queues@[j] == queues0[j]);
                        } else if j > p {
                            assert(self.queues@[j] == queues0[j - 1]);
                        }
                    }
                }
                None
            },
        }
    }
}

} // verus!
