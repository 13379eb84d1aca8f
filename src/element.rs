use vstd::prelude::*;
use crate::text::{decimal, u64_to_decimal};
use crate::time::{Ticket, ticket_after};

verus! {

/// Whether a removal at `t` takes effect on an element created at `created` with tombstone
/// `removed`: `t` is after its creation and after any tombstone it already has.
pub open spec fn removable(created: Ticket, removed: Option<Ticket>, t: Ticket) -> bool {
    &&& ticket_after(t, created)
    &&& (removed is None || ticket_after(t, removed->Some_0))
}

/// What every node of a document shares: its timestamps, a tombstone, and a deep copy.
pub trait Element: Sized {
    spec fn created_at_spec(&self) -> Ticket;

    spec fn moved_at_spec(&self) -> Option<Ticket>;

    spec fn removed_at_spec(&self) -> Option<Ticket>;

    /// The text of the element.
    spec fn text(&self) -> Seq<char>;

    /// The element with its tombstone set to `t`.
    spec fn tombstoned(&self, t: Ticket) -> Self;

    /// The element with its move time set to `t`.
    spec fn moved(&self, t: Ticket) -> Self;

    /// Setting the tombstone or the move time changes nothing else.
    proof fn lemma_timestamps(&self, t: Ticket)
        ensures
            self.tombstoned(t).removed_at_spec() == Some(t),
            self.tombstoned(t).created_at_spec() == self.created_at_spec(),
            self.tombstoned(t).moved_at_spec() == self.moved_at_spec(),
            self.tombstoned(t).text() == self.text(),
            self.moved(t).moved_at_spec() == Some(t),
            self.moved(t).created_at_spec() == self.created_at_spec(),
            self.moved(t).removed_at_spec() == self.removed_at_spec(),
            self.moved(t).text() == self.text(),
    ;

    fn to_string(&self) -> (r: String)
        ensures
            r@ == self.text(),
    ;

    /// An independent copy with the same content and timestamps.
    fn deepcopy(&self) -> (r: Self)
        ensures
            r == *self,
    ;

    fn created_at(&self) -> (r: Ticket)
        ensures
            r == self.created_at_spec(),
    ;

    fn moved_at(&self) -> (r: Option<Ticket>)
        ensures
            r == self.moved_at_spec(),
    ;

    fn set_moved_at(&mut self, ticket: Ticket)
        ensures
            *final(self) == old(self).moved(ticket),
    ;

    fn removed_at(&self) -> (r: Option<Ticket>)
        ensures
            r == self.removed_at_spec(),
    ;

    /// Tombstones the element at `ticket` where that is after its creation and after any
    /// tombstone it has; says whether it did.
    fn remove(&mut self, ticket: Ticket) -> (r: bool)
        ensures
            r == removable(old(self).created_at_spec(), old(self).removed_at_spec(), ticket),
            *final(self) == if r { old(self).tombstoned(ticket) } else { *old(self) },
    ;
}

/// A leaf of a document that holds an integer.
#[derive(Debug, Clone, Copy, PartialEq, Eq)]
pub struct Primitive {
    pub value: u64,
    pub created_at: Ticket,
    pub moved_at: Option<Ticket>,
    pub removed_at: Option<Ticket>,
}

impl Primitive {
    pub fn new(value: u64, created_at: Ticket) -> (r: Primitive)
        ensures
            r.value == value,
            r.created_at == created_at,
            r.moved_at is None,
            r.removed_at is None,
    {
        Primitive { value, created_at, moved_at: None, removed_at: None }
    }
}

impl Element for Primitive {
    open spec fn created_at_spec(&self) -> Ticket {
        self.created_at
    }

    open spec fn moved_at_spec(&self) -> Option<Ticket> {
        self.moved_at
    }

    open spec fn removed_at_spec(&self) -> Option<Ticket> {
        self.removed_at
    }

    open spec fn text(&self) -> Seq<char> {
        decimal(self.value as nat)
    }

    open spec fn tombstoned(&self, t: Ticket) -> Self {
        Primitive { removed_at: Some(t), ..*self }
    }

    open spec fn moved(&self, t: Ticket) -> Self {
        Primitive { moved_at: Some(t), ..*self }
    }

    proof fn lemma_timestamps(&self, t: Ticket) {
    }

    fn to_string(&self) -> (r: String) {
        u64_to_decimal(self.value)
    }

    fn deepcopy(&self) -> (r: Self) {
        *self
    }

    fn created_at(&self) -> (r: Ticket) {
        self.created_at
    }

    fn moved_at(&self) -> (r: Option<Ticket>) {
        self.moved_at
    }

    fn set_moved_at(&mut self, ticket: Ticket) {
        self.moved_at = Some(ticket);
    }

    fn removed_at(&self) -> (r: Option<Ticket>) {
        self.removed_at
    }

    fn remove(&mut self, ticket: Ticket) -> (r: bool) {
        if ticket.after(&self.created_at) {
            match self.removed_at {
                Some(v) => {
                    if ticket.after(&v) {
                        self.removed_at = Some(ticket);
                        return true;
                    }
                },
                None => {
                    self.removed_at = Some(ticket);
                    return true;
                },
            }
        }
        false
    }
}

} // verus!
