//! The generic tree value model shared by the linked-data formats.
use crate::ident::ContentId;
use vstd::prelude::*;
use vstd::slice::slice_to_vec;

verus! {

/// A schema-less tree value. A map holds its entries in order, each key once.
#[derive(Debug, PartialEq, Eq)]
pub enum GenericValue {
    Null,
    Bool(bool),
    Integer(i128),
    Bytes(Vec<u8>),
    Text(String),
    List(Vec<GenericValue>),
    Dict(Vec<(String, GenericValue)>),
    Link(ContentId),
}

/// The value under key `k` in the entries `m`; where a key stands twice,
/// the later entry counts.
pub open spec fn lookup(m: Seq<(String, GenericValue)>, k: Seq<char>) -> Option<GenericValue>
    decreases m.len(),
{
    if m.len() == 0 {
        None
    } else if m.last().0@ == k {
        Some(m.last().1)
    } else {
        lookup(m.drop_last(), k)
    }
}

/// Whether two strings hold the same characters.
pub fn text_eq(a: &str, b: &str) -> (r: bool)
    ensures
        r == (a@ == b@),
{
    let n = a.unicode_len();
    if n != b.unicode_len() {
        return false;
    }
    let mut i: usize = 0;
    while i < n
        invariant
            n == a@.len() == b@.len(),
            i <= n,
            forall|j: int| 0 <= j < i ==> a@[j] == b@[j],
        decreases n - i,
    {
        if a.get_char(i) != b.get_char(i) {
            return false;
        }
        i = i + 1;
    }
    assert(a@ =~= b@);
    true
}

impl GenericValue {
    /// A byte string holding `b`.
    pub fn byte_string(b: &[u8]) -> (r: GenericValue)
        ensures
            r matches GenericValue::Bytes(v) && v@ == b@,
    {
        GenericValue::Bytes(slice_to_vec(b))
    }

    /// The entries, where this is a map.
    pub fn as_map(&self) -> (r: Option<&Vec<(String, GenericValue)>>)
        ensures
            match *self {
                GenericValue::Dict(m) => r == Some(&m),
                _ => r is None,
            },
    {
        match self {
            GenericValue::Dict(m) => Some(m),
            _ => None,
        }
    }

    /// The items, where this is a list.
    pub fn as_list(&self) -> (r: Option<&Vec<GenericValue>>)
        ensures
            match *self {
                GenericValue::List(l) => r == Some(&l),
                _ => r is None,
            },
    {
        match self {
            GenericValue::List(l) => Some(l),
            _ => None,
        }
    }

    /// The bytes, where this is a byte string.
    pub fn as_bytes(&self) -> (r: Option<&Vec<u8>>)
        ensures
            match *self {
                GenericValue::Bytes(b) => r == Some(&b),
                _ => r is None,
            },
    {
        match self {
            GenericValue::Bytes(b) => Some(b),
            _ => None,
        }
    }

    /// The integer, where this is an integer in the range of `u64`.
    pub fn as_u64(&self) -> (r: Option<u64>)
        ensures
            match *self {
                GenericValue::Integer(n) => if 0 <= n <= u64::MAX {
                    r == Some(n as u64)
                } else {
                    r is None
                },
                _ => r is None,
            },
    {
        match self {
            GenericValue::Integer(n) => {
                if 0 <= *n && *n <= u64::MAX as i128 {
                    Some(*n as u64)
                } else {
                    None
                }
            },
            _ => None,
        }
    }

    /// The value under key `k`, where this is a map that has it.
    pub fn get(&self, k: &str) -> (r: Option<&GenericValue>)
        ensures
            match *self {
                GenericValue::Dict(m) => match lookup(m@, k@) {
                    Some(v) => r == Some(&v),
                    None => r is None,
                },
                _ => r is None,
            },
    {
        match self {
            GenericValue::Dict(m) => map_get(m, k),
            _ => None,
        }
    }
}

/// The value under key `k` in the entries `m`.
pub fn map_get<'a>(m: &'a Vec<(String, GenericValue)>, k: &str) -> (r: Option<&'a GenericValue>)
    ensures
        match lookup(m@, k@) {
            Some(v) => r == Some(&v),
            None => r is None,
        },
{
    let mut i: usize = m.len();
    assert(m@.subrange(0, i as int) =~= m@);
    while i > 0
        invariant
            i <= m@.len(),
            lookup(m@, k@) == lookup(m@.subrange(0, i as int), k@),
        decreases i,
    {
        let entry = &m[i - 1];
        proof {
            let s = m@.subrange(0, i as int);
            assert(s.last() == m@[i - 1]);
            assert(s.drop_last() =~= m@.subrange(0, i - 1));
        }
        if text_eq(entry.0.as_str(), k) {
            return Some(&entry.1);
        }
        i = i - 1;
    }
    None
}

} // verus!
