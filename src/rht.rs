use vstd::prelude::*;
use std::cmp::Ordering;
use crate::text::{chars_lt, compare_str, lemma_chars_order, render_pairs, rendered_pairs};
use crate::time::{Ticket, ticket_after, lemma_ticket_order};

verus! {

/// What an entry of a replicated hashtable holds.
pub struct RHTEntry {
    pub key: Seq<char>,
    pub value: Seq<char>,
    pub updated_at: Ticket,
    pub removed_at: Option<Ticket>,
}

/// The tombstone after a removal at `t`: set when there is none, moved only to a later ticket.
pub open spec fn tombstone_after(old: Option<Ticket>, t: Ticket) -> Option<Ticket> {
    match old {
        None => Some(t),
        Some(v) => if ticket_after(t, v) { Some(t) } else { Some(v) },
    }
}

/// A node of a replicated hashtable: one key, its value, and its timestamps.
pub struct RHTNode {
    key: String,
    val: String,
    updated_at: Ticket,
    removed_at: Option<Ticket>,
}

impl View for RHTNode {
    type V = RHTEntry;

    closed spec fn view(&self) -> RHTEntry {
        RHTEntry {
            key: self.key@,
            value: self.val@,
            updated_at: self.updated_at,
            removed_at: self.removed_at,
        }
    }
}

impl RHTNode {
    pub fn new(key: String, val: String, updated_at: Ticket) -> (r: RHTNode)
        ensures
            r@ == (RHTEntry { key: key@, value: val@, updated_at, removed_at: None }),
    {
        RHTNode { key, val, updated_at, removed_at: None }
    }

    pub fn key(&self) -> (r: &str)
        ensures
            r@ == self@.key,
    {
        self.key.as_str()
    }

    pub fn value(&self) -> (r: &str)
        ensures
            r@ == self@.value,
    {
        self.val.as_str()
    }

    pub fn updated_at(&self) -> (r: &Ticket)
        ensures
            *r == self@.updated_at,
    {
        &self.updated_at
    }

    pub fn removed_at(&self) -> (r: Option<&Ticket>)
        ensures
            match r {
                None => self@.removed_at is None,
                Some(t) => self@.removed_at == Some(*t),
            },
    {
        match &self.removed_at {
            Some(t) => Some(t),
            None => None,
        }
    }

    /// Marks this node removed at `removed_at`; a tombstone only moves to a later ticket.
    pub fn remove(&mut self, removed_at: Ticket)
        ensures
            final(self)@ == (RHTEntry { removed_at: tombstone_after(old(self)@.removed_at, removed_at), ..old(self)@ }),
    {
        match self.removed_at {
            Some(v) => {
                if removed_at.after(&v) {
                    self.removed_at = Some(removed_at);
                }
            },
            None => {
                self.removed_at = Some(removed_at);
            },
        }
    }

    pub fn is_removed(&self) -> (r: bool)
        ensures
            r == self@.removed_at is Some,
    {
        self.removed_at.is_some()
    }
}

/// Whether the keys of the entries rise strictly.
pub open spec fn keys_sorted(s: Seq<RHTEntry>) -> bool {
    forall|i: int, j: int| 0 <= i < j < s.len() ==> chars_lt(#[trigger] s[i].key, #[trigger] s[j].key)
}

/// Whether no two entries share a key.
pub open spec fn keys_unique(s: Seq<RHTEntry>) -> bool {
    forall|i: int, j: int| 0 <= i < s.len() && 0 <= j < s.len() && i != j ==> #[trigger] s[i].key != #[trigger] s[j].key
}

/// Whether some entry has key `k`.
pub open spec fn has_key(s: Seq<RHTEntry>, k: Seq<char>) -> bool {
    exists|i: int| 0 <= i < s.len() && #[trigger] s[i].key == k
}

/// The entry of key `k`, if there is one.
pub open spec fn lookup(s: Seq<RHTEntry>, k: Seq<char>) -> Option<RHTEntry> {
    if has_key(s, k) {
        Some(s[choose|i: int| 0 <= i < s.len() && #[trigger] s[i].key == k])
    } else {
        None
    }
}

/// The entry of a key after an insert of `v` at `t`: it replaces what was there unless that is
/// not older than `t`.
pub open spec fn inserted(e: Option<RHTEntry>, k: Seq<char>, v: Seq<char>, t: Ticket) -> Option<RHTEntry> {
    match e {
        Some(old) => if ticket_after(t, old.updated_at) {
            Some(RHTEntry { key: k, value: v, updated_at: t, removed_at: None })
        } else {
            e
        },
        None => Some(RHTEntry { key: k, value: v, updated_at: t, removed_at: None }),
    }
}

/// The entry of a key after a removal at `t`.
pub open spec fn removed(e: Option<RHTEntry>, t: Ticket) -> Option<RHTEntry> {
    match e {
        Some(old) => Some(RHTEntry { removed_at: tombstone_after(old.removed_at, t), ..old }),
        None => None,
    }
}

/// Whether an entry is present and not tombstoned.
pub open spec fn is_live(e: Option<RHTEntry>) -> bool {
    e is Some && e->Some_0.removed_at is None
}

/// The value that `get` gives for an entry: the value of a live entry, else empty.
pub open spec fn value_of(e: Option<RHTEntry>) -> Seq<char> {
    if is_live(e) { e->Some_0.value } else { Seq::empty() }
}

/// The key and value of each live entry, in order.
pub open spec fn live_pairs(s: Seq<RHTEntry>) -> Seq<(Seq<char>, Seq<char>)>
    decreases s.len(),
{
    if s.len() == 0 {
        Seq::empty()
    } else if s.last().removed_at is None {
        live_pairs(s.drop_last()).push((s.last().key, s.last().value))
    } else {
        live_pairs(s.drop_last())
    }
}

/// Last writer wins on one key: an insert at a ticket later than the entry's, or on an absent
/// key, sets the value and makes the entry live; one at a ticket that is not later leaves the
/// entry as it was; inserting the same triple twice is the same as once; and two inserts at
/// distinct tickets give the same entry in either order.
pub proof fn lemma_rht_last_writer_wins(
    e: Option<RHTEntry>,
    k: Seq<char>,
    v1: Seq<char>,
    t1: Ticket,
    v2: Seq<char>,
    t2: Ticket,
)
    ensures
        e is None || ticket_after(t1, e->Some_0.updated_at) ==> value_of(inserted(e, k, v1, t1)) == v1
            && is_live(inserted(e, k, v1, t1)),
        e is Some && !ticket_after(t1, e->Some_0.updated_at) ==> inserted(e, k, v1, t1) == e,
        inserted(inserted(e, k, v1, t1), k, v1, t1) == inserted(e, k, v1, t1),
        t1 != t2 ==> inserted(inserted(e, k, v1, t1), k, v2, t2) == inserted(
            inserted(e, k, v2, t2),
            k,
            v1,
            t1,
        ),
{
    lemma_ticket_order(t1, t1, t1);
    lemma_ticket_order(t1, t2, t1);
    lemma_ticket_order(t2, t1, t2);
    if let Some(old) = e {
        let u = old.updated_at;
        lemma_ticket_order(t1, t2, u);
        lemma_ticket_order(t2, t1, u);
        lemma_ticket_order(u, t1, t2);
        lemma_ticket_order(u, t2, t1);
        lemma_ticket_order(t1, u, t2);
        lemma_ticket_order(t2, u, t1);
    }
}

/// A removal tombstones the entry for good: afterwards `get` gives the empty string and `has`
/// gives false, and a second removal at a ticket that is not after the first changes nothing.
pub proof fn lemma_rht_tombstone_monotonic(e: Option<RHTEntry>, t: Ticket, t2: Ticket)
    ensures
        value_of(removed(e, t)) == Seq::<char>::empty(),
        !is_live(removed(e, t)),
        !ticket_after(t2, t) ==> removed(removed(e, t), t2) == removed(e, t),
{
    lemma_ticket_order(t2, t, t2);
    if let Some(old) = e {
        if let Some(v) = old.removed_at {
            lemma_ticket_order(t2, t, v);
            lemma_ticket_order(t, v, t);
            lemma_ticket_order(t2, v, t2);
            lemma_ticket_order(v, t, t2);
        }
    }
}

proof fn lemma_sorted_unique(s: Seq<RHTEntry>)
    requires
        keys_sorted(s),
    ensures
        keys_unique(s),
{
    assert forall|i: int, j: int| 0 <= i < s.len() && 0 <= j < s.len() && i != j implies #[trigger] s[i].key
        != #[trigger] s[j].key by {
        lemma_chars_order(s[i].key, s[j].key, s[j].key);
        lemma_chars_order(s[j].key, s[i].key, s[i].key);
    }
}

proof fn lemma_lookup_at(s: Seq<RHTEntry>, i: int)
    requires
        keys_unique(s),
        0 <= i < s.len(),
    ensures
        lookup(s, s[i].key) == Some(s[i]),
{
    assert(has_key(s, s[i].key));
}

/// Replacing an entry by one of the same key changes the lookup of that key alone.
proof fn lemma_lookup_update(s: Seq<RHTEntry>, i: int, e: RHTEntry)
    requires
        keys_unique(s),
        0 <= i < s.len(),
        e.key == s[i].key,
    ensures
        keys_unique(s.update(i, e)),
        forall|k: Seq<char>| #[trigger] lookup(s.update(i, e), k) == if k == e.key { Some(e) } else { lookup(s, k) },
{
    let t = s.update(i, e);
    assert(keys_unique(t));
    assert forall|k: Seq<char>| #[trigger] lookup(t, k) == if k == e.key { Some(e) } else { lookup(s, k) } by {
        if has_key(s, k) {
            let j = choose|j: int| 0 <= j < s.len() && #[trigger] s[j].key == k;
            lemma_lookup_at(s, j);
            lemma_lookup_at(t, j);
        } else {
            assert(!has_key(t, k));
        }
    }
}

/// Inserting an entry of a new key changes the lookup of that key alone.
proof fn lemma_lookup_insert(s: Seq<RHTEntry>, p: int, e: RHTEntry)
    requires
        keys_unique(s.insert(p, e)),
        0 <= p <= s.len(),
    ensures
        forall|k: Seq<char>| #[trigger] lookup(s.insert(p, e), k) == if k == e.key { Some(e) } else { lookup(s, k) },
{
    let t = s.insert(p, e);
    assert(t[p] == e);
    assert(keys_unique(s)) by {
        assert forall|i: int, j: int| 0 <= i < s.len() && 0 <= j < s.len() && i != j implies #[trigger] s[i].key
            != #[trigger] s[j].key by {
            let ii = if i < p { i } else { i + 1 };
            let jj = if j < p { j } else { j + 1 };
            assert(t[ii] == s[i]);
            assert(t[jj] == s[j]);
        }
    }
    assert forall|k: Seq<char>| #[trigger] lookup(t, k) == if k == e.key { Some(e) } else { lookup(s, k) } by {
        if k == e.key {
            lemma_lookup_at(t, p);
        } else if has_key(s, k) {
            let j = choose|j: int| 0 <= j < s.len() && #[trigger] s[j].key == k;
            lemma_lookup_at(s, j);
            let jj = if j < p { j } else { j + 1 };
            assert(t[jj] == s[j]);
            lemma_lookup_at(t, jj);
        } else {
            assert forall|j: int| 0 <= j < t.len() implies #[trigger] t[j].key != k by {
                if j < p {
                    assert(t[j] == s[j]);
                } else if j > p {
                    assert(t[j] == s[j - 1]);
                }
            }
        }
    }
}

/// A replicated hashtable: one value per key, last writer wins, removal by tombstone.
pub struct RHT {
    nodes: Vec<RHTNode>,
}

impl View for RHT {
    type V = Seq<RHTEntry>;

    closed spec fn view(&self) -> Seq<RHTEntry> {
        self.nodes@.map_values(|n: RHTNode| n@)
    }
}

impl RHT {
    /// Entries are kept in ascending order of key.
    pub open spec fn wf(&self) -> bool {
        keys_sorted(self@)
    }

    pub fn new() -> (r: RHT)
        ensures
            r.wf(),
            r@ == Seq::<RHTEntry>::empty(),
    {
        let r = RHT { nodes: Vec::new() };
        assert(r@ =~= Seq::<RHTEntry>::empty());
        r
    }

    /// The index of the node of `key`, if there is one.
    fn find(&self, key: &str) -> (r: Option<usize>)
        requires
            self.wf(),
        ensures
            match r {
                Some(i) => i < self@.len() && self@[i as int].key == key@ && lookup(self@, key@) == Some(
                    self@[i as int],
                ),
                None => lookup(self@, key@) is None,
            },
    {
        let mut i: usize = 0;
        while i < self.nodes.len()
            invariant
                0 <= i <= self@.len(),
                self.wf(),
                self@.len() == self.nodes@.len(),
                forall|j: int| 0 <= j < i ==> #[trigger] self@[j].key != key@,
            decreases self@.len() - i,
        {
            assert(self@[i as int] == self.nodes@[i as int]@);
            if matches!(compare_str(self.nodes[i].key.as_str(), key), Ordering::Equal) {
                proof {
                    lemma_chars_order(self@[i as int].key, key@, key@);
                    lemma_sorted_unique(self@);
                    lemma_lookup_at(self@, i as int);
                }
                return Some(i);
            }
            proof {
                lemma_chars_order(self@[i as int].key, key@, key@);
            }
            i = i + 1;
        }
        None
    }

    /// Sets the value of `key` at `executed_at`, unless the entry there is not older.
    pub fn insert(&mut self, key: String, val: String, executed_at: Ticket)
        requires
            old(self).wf(),
        ensures
            final(self).wf(),
            lookup(final(self)@, key@) == inserted(lookup(old(self)@, key@), key@, val@, executed_at),
            forall|k: Seq<char>| k != key@ ==> #[trigger] lookup(final(self)@, k) == lookup(old(self)@, k),
    {
        let ghost s = self@;
        let ghost e = RHTEntry { key: key@, value: val@, updated_at: executed_at, removed_at: None };
        let mut i: usize = 0;
        while i < self.nodes.len()
            invariant
                0 <= i <= self@.len(),
                self@ == s,
                s == old(self)@,
                e == (RHTEntry { key: key@, value: val@, updated_at: executed_at, removed_at: None }),
                keys_sorted(s),
                self@.len() == self.nodes@.len(),
                forall|j: int| 0 <= j < i ==> chars_lt(#[trigger] s[j].key, key@),
            decreases self@.len() - i,
        {
            assert(self@[i as int] == self.nodes@[i as int]@);
            let c = compare_str(key.as_str(), self.nodes[i].key.as_str());
            proof {
                lemma_chars_order(key@, s[i as int].key, key@);
                lemma_chars_order(s[i as int].key, key@, key@);
            }
            if matches!(c, Ordering::Equal) {
                proof {
                    lemma_sorted_unique(s);
                    lemma_lookup_at(s, i as int);
                }
                if executed_at.after(&self.nodes[i].updated_at) {
                    let node = RHTNode::new(key, val, executed_at);
                    let ghost nodes0 = self.nodes@;
                    self.nodes.set(i, node);
                    proof {
                        assert(self.nodes@ == nodes0.update(i as int, node));
                        assert(node@ == e);
                        assert forall|j: int| 0 <= j < s.len() implies #[trigger] self@[j] == s.update(i as int, e)[j] by {
                            assert(self@[j] == self.nodes@[j]@);
                            assert(s[j] == nodes0[j]@);
                            if j != i {
                                assert(self.nodes@[j] == nodes0[j]);
                            }
                        }
                        assert(self@ =~= s.update(i as int, e));
                        lemma_lookup_update(s, i as int, e);
                    }
                }
                return;
            } else if matches!(c, Ordering::Less) {
                let node = RHTNode::new(key, val, executed_at);
                let ghost nodes0 = self.nodes@;
                self.nodes.insert(i, node);
                proof {
                    let t = s.insert(i as int, e);
                    assert(self.nodes@ == nodes0.insert(i as int, node));
                    assert(node@ == e);
                    assert forall|j: int| 0 <= j < t.len() implies #[trigger] self@[j] == t[j] by {
                        assert(self@[j] == self.nodes@[j]@);
                        if j < i {
                            assert(s[j] == nodes0[j]@);
                            assert(self.nodes@[j] == nodes0[j]);
                        } else if j > i {
                            assert(s[j - 1] == nodes0[j - 1]@);
                            assert(self.nodes@[j] == nodes0[j - 1]);
                        }
                    }
                    assert(self@ =~= t);
                    assert forall|a: int, b: int| 0 <= a < b < t.len() implies chars_lt(#[trigger] t[a].key, #[trigger] t[b].key) by {
                        if b == i {
                            assert(t[a] == s[a]);
                        } else if a == i {
                            assert(t[b] == s[b - 1]);
                            if b - 1 > i {
                                lemma_chars_order(key@, s[i as int].key, s[b - 1].key);
                            }
                        } else {
                            let aa = if a < i { a } else { a - 1 };
                            let bb = if b < i { b } else { b - 1 };
                            assert(t[a] == s[aa]);
                            assert(t[b] == s[bb]);
                            if aa == bb {
                                assert(a < i && b > i);
                                lemma_chars_order(s[aa].key, key@, s[bb].key);
                            }
                        }
                    }
                    lemma_sorted_unique(t);
                    lemma_lookup_insert(s, i as int, e);
                    assert(!has_key(s, key@)) by {
                        assert forall|j: int| 0 <= j < s.len() implies #[trigger] s[j].key != key@ by {
                            if j >= i {
                                if j > i {
                                    lemma_chars_order(key@, s[i as int].key, s[j].key);
                                }
                                lemma_chars_order(key@, s[j].key, key@);
                            } else {
                                lemma_chars_order(s[j].key, key@, key@);
                            }
                        }
                    }
                }
                return;
            }
            i = i + 1;
        }
        let node = RHTNode::new(key, val, executed_at);
        self.nodes.push(node);
        proof {
            let t = s.push(e);
            assert(self@ =~= t);
            assert forall|a: int, b: int| 0 <= a < b < t.len() implies chars_lt(#[trigger] t[a].key, #[trigger] t[b].key) by {
                assert(t[a] == s[a]);
            }
            lemma_sorted_unique(t);
            assert(t =~= s.insert(s.len() as int, e));
            lemma_lookup_insert(s, s.len() as int, e);
            assert(!has_key(s, key@)) by {
                assert forall|j: int| 0 <= j < s.len() implies #[trigger] s[j].key != key@ by {
                    lemma_chars_order(s[j].key, key@, key@);
                }
            }
        }
    }

    /// The value of `key`, or the empty string where it is absent or removed.
    pub fn get(&self, key: &str) -> (r: String)
        requires
            self.wf(),
        ensures
            r@ == value_of(lookup(self@, key@)),
    {
        match self.find(key) {
            Some(i) => {
                assert(self@[i as int] == self.nodes@[i as int]@);
                if self.nodes[i].is_removed() {
                    String::new()
                } else {
                    self.nodes[i].val.clone()
                }
            },
            None => String::new(),
        }
    }

    /// Whether `key` has an entry that is not removed.
    pub fn has(&self, key: &str) -> (r: bool)
        requires
            self.wf(),
        ensures
            r == is_live(lookup(self@, key@)),
    {
        match self.find(key) {
            Some(i) => {
                assert(self@[i as int] == self.nodes@[i as int]@);
                !self.nodes[i].is_removed()
            },
            None => false,
        }
    }

    /// Removes `key` at `executed_at`: returns its value where the tombstone was set or moved
    /// to `executed_at`, else the empty string.
    pub fn remove(&mut self, key: &str, executed_at: Ticket) -> (r: String)
        requires
            old(self).wf(),
        ensures
            final(self).wf(),
            lookup(final(self)@, key@) == removed(lookup(old(self)@, key@), executed_at),
            forall|k: Seq<char>| k != key@ ==> #[trigger] lookup(final(self)@, k) == lookup(old(self)@, k),
            r@ == match lookup(old(self)@, key@) {
                Some(e) => if e.removed_at is None || ticket_after(executed_at, e.removed_at->Some_0) {
                    e.value
                } else {
                    Seq::empty()
                },
                None => Seq::empty(),
            },
    {
        let ghost s = self@;
        match self.find(key) {
            Some(i) => {
                assert(self@[i as int] == self.nodes@[i as int]@);
                let mut node = self.nodes.remove(i);
                let changed = match node.removed_at {
                    Some(v) => executed_at.after(&v),
                    None => true,
                };
                node.remove(executed_at);
                let r = if changed { node.val.clone() } else { String::new() };
                self.nodes.insert(i, node);
                proof {
                    let e = RHTEntry { removed_at: tombstone_after(s[i as int].removed_at, executed_at), ..s[i as int] };
                    assert(self@ =~= s.update(i as int, e));
                    lemma_sorted_unique(s);
                    lemma_lookup_update(s, i as int, e);
                    assert forall|a: int, b: int| 0 <= a < b < self@.len() implies chars_lt(#[trigger] self@[a].key, #[trigger] self@[b].key) by {
                        assert(s[a].key == self@[a].key);
                        assert(s[b].key == self@[b].key);
                    }
                }
                r
            },
            None => String::new(),
        }
    }

    /// The key and value of each live entry, in ascending order of key.
    pub fn elements(&self) -> (r: Vec<(String, String)>)
        requires
            self.wf(),
        ensures
            r@.map_values(|p: (String, String)| (p.0@, p.1@)) == live_pairs(self@),
    {
        let mut out: Vec<(String, String)> = Vec::new();
        let mut i: usize = 0;
        while i < self.nodes.len()
            invariant
                0 <= i <= self@.len(),
                self@.len() == self.nodes@.len(),
                out@.map_values(|p: (String, String)| (p.0@, p.1@)) == live_pairs(self@.take(i as int)),
            decreases self@.len() - i,
        {
            assert(self@[i as int] == self.nodes@[i as int]@);
            assert(self@.take(i + 1).drop_last() =~= self@.take(i as int));
            let ghost before = out@;
            if !self.nodes[i].is_removed() {
                out.push((self.nodes[i].key.clone(), self.nodes[i].val.clone()));
                assert(out@.map_values(|p: (String, String)| (p.0@, p.1@)) =~= before.map_values(
                    |p: (String, String)| (p.0@, p.1@),
                ).push((self@[i as int].key, self@[i as int].value)));
            }
            i = i + 1;
        }
        assert(self@.take(i as int) =~= self@);
        out
    }

    /// An independent copy of this table: every entry with its key, value, update time and
    /// tombstone.
    pub fn clone(&self) -> (r: RHT)
        requires
            self.wf(),
        ensures
            r.wf(),
            r@ == self@,
    {
        let mut nodes: Vec<RHTNode> = Vec::new();
        let mut i: usize = 0;
        while i < self.nodes.len()
            invariant
                0 <= i <= self@.len(),
                self@.len() == self.nodes@.len(),
                nodes@.len() == i,
                forall|j: int| 0 <= j < i ==> #[trigger] nodes@[j]@ == self@[j],
            decreases self@.len() - i,
        {
            assert(self@[i as int] == self.nodes@[i as int]@);
            let n = &self.nodes[i];
            nodes.push(
                RHTNode { key: n.key.clone(), val: n.val.clone(), updated_at: n.updated_at, removed_at: n.removed_at },
            );
            i = i + 1;
        }
        let r = RHT { nodes };
        assert(r@ =~= self@);
        r
    }

    /// The text `{k1:v1,k2:v2,...}` of the live entries, in ascending order of key.
    pub fn to_string(&self) -> (r: String)
        requires
            self.wf(),
        ensures
            r@ == rendered_pairs(live_pairs(self@)),
    {
        let pairs = self.elements();
        render_pairs(&pairs)
    }
}

} // verus!
