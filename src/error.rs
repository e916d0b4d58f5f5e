//! The errors of the store, each carrying the key it concerns.
use vstd::prelude::*;
use vstd::string::StringExecFns;

verus! {

/// What went wrong, and where.
#[derive(Debug)]
pub enum AuError {
    /// A referenced key or id does not exist.
    NoSuchKey(String),
    /// A document value has the wrong shape: the key, and the type expected.
    IncorrectType(String, String),
    /// A domain validation failed: the field, and why.
    InvalidField(String, String),
    /// A well-formed request that would break the tree: the id, and why.
    InvalidOperation(String, String),
    /// An error that arose inside the item or collection with this key.
    NestedError(String, Box<AuError>),
    /// A failure that the document engine reported, in its own words.
    Document(String),
}

/// An error as plain values.
pub enum Fault {
    NoSuchKey(Seq<char>),
    IncorrectType(Seq<char>, Seq<char>),
    InvalidField(Seq<char>, Seq<char>),
    InvalidOperation(Seq<char>, Seq<char>),
    Nested(Seq<char>, Box<Fault>),
    Document(Seq<char>),
}

/// The error `e` as plain values.
pub open spec fn fault_of(e: AuError) -> Fault
    decreases e,
{
    match e {
        AuError::NoSuchKey(k) => Fault::NoSuchKey(k@),
        AuError::IncorrectType(k, t) => Fault::IncorrectType(k@, t@),
        AuError::InvalidField(k, m) => Fault::InvalidField(k@, m@),
        AuError::InvalidOperation(k, m) => Fault::InvalidOperation(k@, m@),
        AuError::NestedError(k, inner) => Fault::Nested(k@, Box::new(fault_of(*inner))),
        AuError::Document(m) => Fault::Document(m@),
    }
}

/// `k` between single quotes.
pub open spec fn quoted(k: Seq<char>) -> Seq<char> {
    seq!['\''] + k + seq!['\'']
}

impl AuError {
    /// The text of the error: the chain of keys, then the innermost message.
    pub open spec fn message(self) -> Seq<char>
        decreases self,
    {
        match self {
            AuError::NoSuchKey(k) => quoted(k@) + ": no such key"@,
            AuError::IncorrectType(k, t) => quoted(k@) + ": incorrect type, expected "@ + t@,
            AuError::InvalidField(k, m) => quoted(k@) + ": invalid: "@ + m@,
            AuError::InvalidOperation(k, m) => quoted(k@) + ": "@ + m@,
            AuError::NestedError(k, e) => quoted(k@) + ": "@ + e.message(),
            AuError::Document(m) => m@,
        }
    }

    /// The text of the error, as in `'items': 'some-id': 'at': no such key`.
    pub fn to_string(&self) -> (r: String)
        ensures
            r@ == self.message(),
        decreases self,
    {
        match self {
            AuError::NoSuchKey(k) => {
                let mut s = quote(k);
                s.append(": no such key");
                s
            },
            AuError::IncorrectType(k, t) => {
                let mut s = quote(k);
                s.append(": incorrect type, expected ");
                s.append(t.as_str());
                s
            },
            AuError::InvalidField(k, m) => {
                let mut s = quote(k);
                s.append(": invalid: ");
                s.append(m.as_str());
                s
            },
            AuError::InvalidOperation(k, m) => {
                let mut s = quote(k);
                s.append(": ");
                s.append(m.as_str());
                s
            },
            AuError::NestedError(k, e) => {
                let mut s = quote(k);
                s.append(": ");
                let inner = e.to_string();
                s.append(inner.as_str());
                s
            },
            AuError::Document(m) => m.clone(),
        }
    }

    /// This error, as raised inside the item or collection `k`.
    pub fn nested(k: &str, e: AuError) -> (r: AuError)
        ensures
            r matches AuError::NestedError(k2, inner) && k2@ == k@ && *inner == e,
            fault_of(r) == Fault::Nested(k@, Box::new(fault_of(e))),
    {
        AuError::NestedError(k.to_owned(), Box::new(e))
    }
}

fn quote(k: &String) -> (r: String)
    ensures
        r@ == quoted(k@),
{
    let mut s = "'".to_owned();
    s.append(k.as_str());
    s.append("'");
    proof {
        reveal_strlit("'");
    }
    s
}

} // verus!
