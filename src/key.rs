use vstd::prelude::*;
use crate::text::concat_str;

verus! {

/// Error of a document key that does not hold exactly one `$`.
#[derive(Debug, Clone, Copy, PartialEq, Eq, Structural)]
pub struct InvalidBSONKeyError;

/// Whether `s` holds no `$`.
pub open spec fn no_splitter(s: Seq<char>) -> bool {
    forall|i: int| 0 <= i < s.len() ==> s[i] != '$'
}

/// Whether `$` stands at index `p` of `s` and nowhere else.
pub open spec fn sole_splitter_at(s: Seq<char>, p: int) -> bool {
    &&& 0 <= p < s.len()
    &&& s[p] == '$'
    &&& forall|j: int| 0 <= j < s.len() && j != p ==> s[j] != '$'
}

/// Whether `s` holds exactly one `$`.
pub open spec fn has_sole_splitter(s: Seq<char>) -> bool {
    exists|p: int| sole_splitter_at(s, p)
}

/// The key of a document: a collection name and a document name, written `collection$document`.
#[derive(Debug)]
pub struct Key {
    collection: String,
    document: String,
}

impl Key {
    pub closed spec fn collection_view(&self) -> Seq<char> {
        self.collection@
    }

    pub closed spec fn document_view(&self) -> Seq<char> {
        self.document@
    }

    /// The key written `collection$document`; any other number of `$` is an error.
    pub fn from_bson_key(bson_key: &str) -> (r: Result<Key, InvalidBSONKeyError>)
        ensures
            r is Ok <==> has_sole_splitter(bson_key@),
            r is Ok ==> {
                let k = r->Ok_0;
                &&& bson_key@ == k.collection_view() + seq!['$'] + k.document_view()
                &&& no_splitter(k.collection_view())
                &&& no_splitter(k.document_view())
            },
    {
        let n = bson_key.unicode_len();
        let mut i: usize = 0;
        let mut found: Option<usize> = None;
        while i < n
            invariant
                n == bson_key@.len(),
                0 <= i <= n,
                match found {
                    None => forall|j: int| 0 <= j < i ==> bson_key@[j] != '$',
                    Some(p) => p < i && bson_key@[p as int] == '$' && forall|j: int|
                        0 <= j < i && j != p ==> bson_key@[j] != '$',
                },
            decreases n - i,
        {
            if bson_key.get_char(i) == '$' {
                if found.is_some() {
                    proof {
                        let p = found->Some_0 as int;
                        assert forall|q: int| !sole_splitter_at(bson_key@, q) by {
                            if sole_splitter_at(bson_key@, q) {
                                if q == p {
                                    assert(bson_key@[i as int] != '$');
                                } else {
                                    assert(bson_key@[p] != '$');
                                }
                            }
                        }
                    }
                    return Err(InvalidBSONKeyError);
                }
                found = Some(i);
            }
            i = i + 1;
        }
        match found {
            None => {
                proof {
                    assert forall|q: int| !sole_splitter_at(bson_key@, q) by {
                        if sole_splitter_at(bson_key@, q) {
                            assert(bson_key@[q] != '$');
                        }
                    }
                }
                Err(InvalidBSONKeyError)
            },
            Some(p) => {
                let collection = String::from_str(bson_key.substring_char(0, p));
                let document = String::from_str(bson_key.substring_char(p + 1, n));
                let k = Key { collection, document };
                proof {
                    assert(sole_splitter_at(bson_key@, p as int));
                    assert(bson_key@ =~= k.collection_view() + seq!['$'] + k.document_view());
                    assert forall|j: int| 0 <= j < k.document_view().len() implies k.document_view()[j] != '$' by {
                        assert(k.document_view()[j] == bson_key@[p + 1 + j]);
                    }
                }
                Ok(k)
            },
        }
    }

    /// The text `collection$document` of this key.
    pub fn bson_key(&self) -> (r: String)
        ensures
            r@ == self.collection_view() + seq!['$'] + self.document_view(),
    {
        let s = concat_str(self.collection.as_str(), "$");
        let r = concat_str(s.as_str(), self.document.as_str());
        proof {
            reveal_strlit("$");
        }
        r
    }

    pub fn collection(&self) -> (r: &str)
        ensures
            r@ == self.collection_view(),
    {
        self.collection.as_str()
    }

    pub fn document(&self) -> (r: &str)
        ensures
            r@ == self.document_view(),
    {
        self.document.as_str()
    }
}

} // verus!
