use vstd::prelude::*;
use std::cmp::Ordering;
use crate::text::{decimal, u64_to_decimal, concat_str};

verus! {

/// Number of bytes in an actor identifier.
pub const ACTOR_ID_SIZE: usize = 12;

#[verifier::external_type_specification]
#[verifier::external_body]
pub struct ExFromHexError(hex::FromHexError);

/// Whether `c` is an ASCII hexadecimal digit, of either case.
pub open spec fn is_hex_digit(c: char) -> bool {
    ('0' <= c && c <= '9') || ('a' <= c && c <= 'f') || ('A' <= c && c <= 'F')
}

/// The value of a hexadecimal digit.
pub open spec fn hex_value(c: char) -> nat {
    if '0' <= c && c <= '9' {
        (c as nat - '0' as nat) as nat
    } else if 'a' <= c && c <= 'f' {
        (c as nat - 'a' as nat + 10) as nat
    } else {
        (c as nat - 'A' as nat + 10) as nat
    }
}

/// The lower-case hexadecimal digit of a value below 16.
pub open spec fn hex_char(d: nat) -> char {
    if d < 10 {
        ((d + '0' as nat) as u32) as char
    } else {
        ((d - 10 + 'a' as nat) as u32) as char
    }
}

/// Whether `s` is a well-formed hexadecimal text of an actor identifier.
pub open spec fn is_actor_hex(s: Seq<char>) -> bool {
    &&& s.len() == 2 * ACTOR_ID_SIZE
    &&& forall|i: int| 0 <= i < s.len() ==> is_hex_digit(#[trigger] s[i])
}

/// The bytes that a well-formed hexadecimal text denotes, two digits per byte.
pub open spec fn hex_decoded(s: Seq<char>) -> Seq<u8> {
    Seq::new(
        (s.len() / 2) as nat,
        |i: int| (16 * hex_value(s[2 * i]) + hex_value(s[2 * i + 1])) as u8,
    )
}

/// The lower-case hexadecimal text of a byte sequence, two digits per byte.
pub open spec fn hex_encoded(b: Seq<u8>) -> Seq<char> {
    Seq::new(
        2 * b.len(),
        |i: int|
            if i % 2 == 0 {
                hex_char((b[i / 2] / 16) as nat)
            } else {
                hex_char((b[i / 2] % 16) as nat)
            },
    )
}

/// Relies on `hex::FromHex` for `[u8; 12]`: it succeeds exactly on texts of 24 hexadecimal
/// digits (a character outside ASCII is never a digit) and decodes each pair of digits.
#[verifier::external_body]
fn decode_actor_hex(s: &str) -> (r: Result<[u8; ACTOR_ID_SIZE], hex::FromHexError>)
    ensures
        r is Ok <==> is_actor_hex(s@),
        r is Ok ==> r->Ok_0@ == hex_decoded(s@),
{
    <[u8; ACTOR_ID_SIZE] as hex::FromHex>::from_hex(s)
}

/// Relies on `hex::encode`: two lower-case hexadecimal digits per byte.
#[verifier::external_body]
fn encode_hex(b: &[u8; ACTOR_ID_SIZE]) -> (r: String)
    ensures
        r@ == hex_encoded(b@),
{
    hex::encode(b)
}

/// Lexicographic comparison of two byte sequences, from index `i` on.
pub open spec fn bytes_cmp_from(a: Seq<u8>, b: Seq<u8>, i: int) -> Ordering
    decreases a.len() - i,
{
    if i >= a.len() || i >= b.len() {
        if a.len() < b.len() {
            Ordering::Less
        } else if a.len() > b.len() {
            Ordering::Greater
        } else {
            Ordering::Equal
        }
    } else if a[i] < b[i] {
        Ordering::Less
    } else if a[i] > b[i] {
        Ordering::Greater
    } else {
        bytes_cmp_from(a, b, i + 1)
    }
}

/// Lexicographic comparison of two byte sequences.
pub open spec fn bytes_cmp(a: Seq<u8>, b: Seq<u8>) -> Ordering {
    bytes_cmp_from(a, b, 0)
}

/// The comparison from index `i` reverses when its arguments swap, and says `Equal` exactly
/// when the sequences agree from `i` on.
proof fn lemma_bytes_cmp_from(a: Seq<u8>, b: Seq<u8>, i: int)
    requires
        a.len() == b.len(),
        0 <= i <= a.len(),
    ensures
        bytes_cmp_from(a, b, i) == Ordering::Equal <==> (forall|j: int| i <= j < a.len() ==> a[j] == b[j]),
        bytes_cmp_from(a, b, i) == Ordering::Less <==> bytes_cmp_from(b, a, i) == Ordering::Greater,
    decreases a.len() - i,
{
    if i < a.len() {
        lemma_bytes_cmp_from(a, b, i + 1);
        if a[i] == b[i] {
            assert((forall|j: int| i + 1 <= j < a.len() ==> a[j] == b[j]) ==> (forall|j: int|
                i <= j < a.len() ==> a[j] == b[j]));
        }
    }
}

proof fn lemma_bytes_cmp_from_trans(a: Seq<u8>, b: Seq<u8>, c: Seq<u8>, i: int)
    requires
        a.len() == b.len(),
        b.len() == c.len(),
        0 <= i <= a.len(),
        bytes_cmp_from(a, b, i) == Ordering::Less,
        bytes_cmp_from(b, c, i) == Ordering::Less,
    ensures
        bytes_cmp_from(a, c, i) == Ordering::Less,
    decreases a.len() - i,
{
    if i < a.len() && a[i] == b[i] && b[i] == c[i] {
        lemma_bytes_cmp_from_trans(a, b, c, i + 1);
    }
}

/// Error of an actor identifier that is not 24 hexadecimal digits.
#[derive(Debug, Clone, Copy, PartialEq, Eq, Structural)]
pub struct InvalidActorID;

/// Identifier of a replica: a fixed number of bytes, ordered lexicographically.
#[derive(Debug, Clone, Copy, PartialEq, Eq, Hash)]
pub struct ActorID {
    bytes: [u8; ACTOR_ID_SIZE],
}

impl ActorID {
    /// The bytes of the identifier.
    pub closed spec fn bytes_view(&self) -> Seq<u8> {
        self.bytes@
    }

    pub fn new(bytes: [u8; ACTOR_ID_SIZE]) -> (r: ActorID)
        ensures
            r.bytes_view() == bytes@,
    {
        ActorID { bytes }
    }

    /// The identifier that a text of 24 hexadecimal digits denotes.
    pub fn from_hex(hex_str: &str) -> (r: Result<ActorID, InvalidActorID>)
        ensures
            r is Ok <==> is_actor_hex(hex_str@),
            r is Ok ==> r->Ok_0.bytes_view() == hex_decoded(hex_str@),
    {
        match decode_actor_hex(hex_str) {
            Ok(bytes) => Ok(ActorID { bytes }),
            Err(_) => Err(InvalidActorID),
        }
    }

    /// The lower-case hexadecimal text of this identifier.
    pub fn to_string(&self) -> (r: String)
        ensures
            r@ == hex_encoded(self.bytes_view()),
    {
        encode_hex(&self.bytes)
    }

    pub fn bytes(&self) -> (r: &[u8; ACTOR_ID_SIZE])
        ensures
            r@ == self.bytes_view(),
    {
        &self.bytes
    }

    /// Lexicographic comparison of the bytes of two identifiers.
    pub fn compare(&self, other: &ActorID) -> (r: Ordering)
        ensures
            r == bytes_cmp(self.bytes_view(), other.bytes_view()),
    {
        let mut i: usize = 0;
        while i < ACTOR_ID_SIZE
            invariant
                0 <= i <= ACTOR_ID_SIZE,
                bytes_cmp(self.bytes@, other.bytes@) == bytes_cmp_from(self.bytes@, other.bytes@, i as int),
            decreases ACTOR_ID_SIZE - i,
        {
            let x = self.bytes[i];
            let y = other.bytes[i];
            if x < y {
                return Ordering::Less;
            } else if x > y {
                return Ordering::Greater;
            }
            i = i + 1;
        }
        Ordering::Equal
    }
}

/// A timestamp of the logical clock: a Lamport counter, a delimiter and the actor that made it.
#[derive(Debug, Clone, Copy, PartialEq, Eq, Hash)]
pub struct Ticket {
    lamport: u64,
    delimiter: u32,
    actor_id: ActorID,
}

impl Ticket {
    pub closed spec fn lamport_view(&self) -> u64 {
        self.lamport
    }

    pub closed spec fn delimiter_view(&self) -> u32 {
        self.delimiter
    }

    pub closed spec fn actor_view(&self) -> ActorID {
        self.actor_id
    }
}

/// The order of tickets: by Lamport counter, then actor, then delimiter.
pub open spec fn ticket_cmp(a: Ticket, b: Ticket) -> Ordering {
    if a.lamport_view() < b.lamport_view() {
        Ordering::Less
    } else if a.lamport_view() > b.lamport_view() {
        Ordering::Greater
    } else {
        match bytes_cmp(a.actor_view().bytes_view(), b.actor_view().bytes_view()) {
            Ordering::Equal => {
                if a.delimiter_view() < b.delimiter_view() {
                    Ordering::Less
                } else if a.delimiter_view() > b.delimiter_view() {
                    Ordering::Greater
                } else {
                    Ordering::Equal
                }
            },
            o => o,
        }
    }
}

/// Whether ticket `a` comes strictly after ticket `b`.
pub open spec fn ticket_after(a: Ticket, b: Ticket) -> bool {
    ticket_cmp(a, b) == Ordering::Greater
}

/// The text `lamport:delimiter:actor` of a ticket.
pub open spec fn annotated(t: Ticket) -> Seq<char> {
    decimal(t.lamport_view() as nat) + seq![':'] + decimal(t.delimiter_view() as nat) + seq![':']
        + hex_encoded(t.actor_view().bytes_view())
}

/// The order of tickets is a strict total order: each pair compares in exactly one way,
/// `Equal` only for identical tickets, the answer reverses when the arguments swap, and
/// it is transitive.
pub proof fn lemma_ticket_order(a: Ticket, b: Ticket, c: Ticket)
    ensures
        ticket_cmp(a, b) == Ordering::Less || ticket_cmp(a, b) == Ordering::Equal || ticket_cmp(a, b)
            == Ordering::Greater,
        ticket_cmp(a, b) == Ordering::Equal <==> a == b,
        ticket_cmp(a, b) == Ordering::Less <==> ticket_cmp(b, a) == Ordering::Greater,
        ticket_cmp(a, b) == Ordering::Less && ticket_cmp(b, c) == Ordering::Less ==> ticket_cmp(a, c)
            == Ordering::Less,
        ticket_after(a, b) <==> ticket_cmp(b, a) == Ordering::Less,
{
    let (x, y, z) = (a.actor_view().bytes_view(), b.actor_view().bytes_view(), c.actor_view().bytes_view());
    lemma_bytes_cmp_from(x, y, 0);
    lemma_bytes_cmp_from(y, z, 0);
    lemma_bytes_cmp_from(x, z, 0);
    lemma_bytes_cmp_from(y, x, 0);
    lemma_bytes_cmp_from(z, y, 0);
    lemma_bytes_cmp_from(z, x, 0);
    if bytes_cmp(x, y) == Ordering::Equal {
        assert(x =~= y);
        assert(a.actor_id.bytes =~= b.actor_id.bytes);
    }
    if bytes_cmp(y, z) == Ordering::Equal {
        assert(y =~= z);
    }
    if bytes_cmp(x, y) == Ordering::Less && bytes_cmp(y, z) == Ordering::Less {
        lemma_bytes_cmp_from_trans(x, y, z, 0);
    }
}

impl Ticket {
    pub fn new(lamport: u64, delimiter: u32, actor_id: ActorID) -> (r: Ticket)
        ensures
            r.lamport_view() == lamport,
            r.delimiter_view() == delimiter,
            r.actor_view() == actor_id,
    {
        Ticket { lamport, delimiter, actor_id }
    }

    /// The text `lamport:delimiter:actor` of this ticket, for debugging.
    pub fn annotated_string(&self) -> (r: String)
        ensures
            r@ == annotated(*self),
    {
        let id = self.actor_id.to_string();
        let l = u64_to_decimal(self.lamport);
        let d = u64_to_decimal(self.delimiter as u64);
        let s = concat_str(l.as_str(), ":");
        let s = concat_str(s.as_str(), d.as_str());
        let s = concat_str(s.as_str(), ":");
        let r = concat_str(s.as_str(), id.as_str());
        proof {
            reveal_strlit(":");
            assert(r@ =~= annotated(*self));
        }
        r
    }

    /// The key text of this ticket.
    pub fn key(&self) -> (r: String)
        ensures
            r@ == annotated(*self),
    {
        self.annotated_string()
    }

    pub fn lamport(&self) -> (r: u64)
        ensures
            r == self.lamport_view(),
    {
        self.lamport
    }

    pub fn delimiter(&self) -> (r: u32)
        ensures
            r == self.delimiter_view(),
    {
        self.delimiter
    }

    pub fn actor_id(&self) -> (r: &ActorID)
        ensures
            *r == self.actor_view(),
    {
        &self.actor_id
    }

    /// Compares two tickets: by Lamport counter, then actor, then delimiter.
    pub fn cmp(&self, other: &Ticket) -> (r: Ordering)
        ensures
            r == ticket_cmp(*self, *other),
    {
        if self.lamport < other.lamport {
            return Ordering::Less;
        } else if self.lamport > other.lamport {
            return Ordering::Greater;
        }
        match self.actor_id.compare(&other.actor_id) {
            Ordering::Equal => {},
            o => {
                return o;
            },
        }
        if self.delimiter < other.delimiter {
            Ordering::Less
        } else if self.delimiter > other.delimiter {
            Ordering::Greater
        } else {
            Ordering::Equal
        }
    }

    /// Whether this ticket was created strictly after `other`.
    pub fn after(&self, other: &Ticket) -> (r: bool)
        ensures
            r == ticket_after(*self, *other),
    {
        match self.cmp(other) {
            Ordering::Greater => true,
            _ => false,
        }
    }
}

} // verus!
