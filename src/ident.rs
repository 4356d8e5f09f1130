//! Content identifiers, held in their serialized form.
use std::convert::TryFrom;
use vstd::prelude::*;

verus! {

/// The serialized form of the content identifier that `cid::Cid::try_from`
/// reads from the front of `b`, or `None` where no identifier can be read.
pub uninterp spec fn cid_canonical(b: Seq<u8>) -> Option<Seq<u8>>;

/// `b` is exactly the serialized form of a content identifier.
pub open spec fn is_cid_bytes(b: Seq<u8>) -> bool {
    cid_canonical(b) == Some(b)
}

/// Relies on `cid::Cid::try_from(&[u8])` to read an identifier and on
/// `cid::Cid::to_bytes` to serialize it. Serializing writes back exactly the
/// version, codec and multihash that reading took, so the serialized form
/// reads back as itself.
#[verifier::external_body]
fn parse_cid(b: &[u8]) -> (r: Option<Vec<u8>>)
    ensures
        match r {
            Some(v) => cid_canonical(b@) == Some(v@) && is_cid_bytes(v@),
            None => cid_canonical(b@) is None,
        },
{
    match cid::Cid::try_from(b) {
        Ok(c) => Some(c.to_bytes()),
        Err(_) => None,
    }
}

/// The error of reading a content identifier from bytes that hold none.
#[derive(Clone, Copy, Debug, PartialEq, Eq)]
pub struct InvalidCid;

/// A content identifier, kept as its serialized bytes.
#[derive(Debug, PartialEq, Eq, Hash)]
pub struct ContentId {
    bytes: Vec<u8>,
}

impl View for ContentId {
    type V = Seq<u8>;

    closed spec fn view(&self) -> Seq<u8> {
        self.bytes@
    }
}

impl ContentId {
    /// The bytes are exactly the serialized form of an identifier.
    #[verifier::type_invariant]
    spec fn inv(&self) -> bool {
        is_cid_bytes(self.bytes@)
    }

    /// Every identifier holds exactly the serialized form of one.
    pub fn confirm_valid(&self)
        ensures
            is_cid_bytes(self@),
    {
        proof {
            use_type_invariant(self);
        }
    }

    /// Reads an identifier from the front of `b`; trailing bytes are not part of it.
    pub fn from_bytes(b: &[u8]) -> (r: Result<ContentId, InvalidCid>)
        ensures
            match r {
                Ok(c) => cid_canonical(b@) == Some(c@) && is_cid_bytes(c@),
                Err(_) => cid_canonical(b@) is None,
            },
    {
        match parse_cid(b) {
            Some(v) => Ok(ContentId { bytes: v }),
            None => Err(InvalidCid),
        }
    }

    /// The serialized form.
    pub fn to_bytes(&self) -> (r: Vec<u8>)
        ensures
            r@ == self@,
    {
        let r = self.bytes.clone();
        assert(r@ =~= self.bytes@);
        r
    }

    /// The serialized form, borrowed.
    pub fn as_bytes(&self) -> (r: &[u8])
        ensures
            r@ == self@,
    {
        self.bytes.as_slice()
    }

    /// A second value with the same serialized form.
    pub fn duplicate(&self) -> (r: ContentId)
        ensures
            r@ == self@,
    {
        proof {
            use_type_invariant(self);
        }
        ContentId { bytes: self.to_bytes() }
    }
}

impl Clone for ContentId {
    fn clone(&self) -> (r: ContentId)
        ensures
            r@ == self@,
    {
        self.duplicate()
    }
}

} // verus!
