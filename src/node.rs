//! The typed dag-pb node and link.
use crate::ident::{is_cid_bytes, ContentId};
use vstd::prelude::*;

verus! {

/// What a link is: the serialized identifier of its target, its name and the
/// size of the subtree under the target.
pub struct LinkV {
    pub target: Seq<u8>,
    pub name: Seq<char>,
    pub size: u64,
}

/// What a node is: its links in order, and its data.
pub struct NodeV {
    pub links: Seq<LinkV>,
    pub data: Seq<u8>,
}

/// Every target of `links` is exactly the serialized form of an identifier,
/// as it is in every link built from a `ContentId`.
pub open spec fn targets_valid(links: Seq<LinkV>) -> bool {
    forall|j: int| 0 <= j < links.len() ==> is_cid_bytes(#[trigger] links[j].target)
}

/// One outgoing edge of a node.
#[derive(Clone, Debug, PartialEq, Eq)]
pub struct PbLink {
    pub cid: ContentId,
    pub name: String,
    pub size: u64,
}

impl View for PbLink {
    type V = LinkV;

    open spec fn view(&self) -> LinkV {
        LinkV { target: self.cid@, name: self.name@, size: self.size }
    }
}

/// A dag-pb node: ordered links and an opaque payload.
#[derive(Clone, Debug, PartialEq, Eq)]
pub struct PbNode {
    pub links: Vec<PbLink>,
    pub data: Vec<u8>,
}

pub open spec fn link_views(links: Seq<PbLink>) -> Seq<LinkV> {
    links.map_values(|l: PbLink| l@)
}

impl View for PbNode {
    type V = NodeV;

    open spec fn view(&self) -> NodeV {
        NodeV { links: link_views(self.links@), data: self.data@ }
    }
}

impl PbNode {
    /// The node with no links and no data.
    pub fn empty() -> (r: PbNode)
        ensures
            r@.links.len() == 0,
            r@.data.len() == 0,
    {
        PbNode { links: Vec::new(), data: Vec::new() }
    }

    /// Every target of every node is the serialized form of an identifier.
    pub fn confirm_targets_valid(&self)
        ensures
            targets_valid(self@.links),
    {
        let mut i: usize = 0;
        while i < self.links.len()
            invariant
                i <= self.links@.len(),
                forall|j: int| 0 <= j < i ==> is_cid_bytes(#[trigger] self.links@[j].cid@),
            decreases self.links@.len() - i,
        {
            self.links[i].cid.confirm_valid();
            i = i + 1;
        }
        assert forall|j: int| 0 <= j < self@.links.len() implies is_cid_bytes(
            #[trigger] self@.links[j].target,
        ) by {
            assert(self@.links[j] == self.links@[j]@);
        }
    }
}

} // verus!
