//! Conversions between dag-pb nodes and the generic tree value model.
//!
//! A node becomes the map `{"Links": [...], "Data": bytes}`, each link the map
//! `{"Hash": link, "Name": text, "Tsize": integer}`. The way back is tolerant:
//! what does not have that shape falls back to empty values, and a link entry
//! that lacks a field is left out.
use crate::generic::{lookup, map_get, GenericValue};
use crate::node::{link_views, LinkV, NodeV, PbLink, PbNode};
use vstd::prelude::*;
use vstd::string::StringExecFns;

verus! {

/// `v` is the generic value of the link `l`.
pub open spec fn is_link_value(v: GenericValue, l: LinkV) -> bool {
    match v {
        GenericValue::Dict(m) => {
            &&& m@.len() == 3
            &&& m@[0].0@ == "Hash"@
            &&& m@[1].0@ == "Name"@
            &&& m@[2].0@ == "Tsize"@
            &&& (m@[0].1 matches GenericValue::Link(c) && c@ == l.target)
            &&& (m@[1].1 matches GenericValue::Text(s) && s@ == l.name)
            &&& m@[2].1 == GenericValue::Integer(l.size as i128)
        },
        _ => false,
    }
}

/// `v` is the generic value of the node `n`.
pub open spec fn is_node_value(v: GenericValue, n: NodeV) -> bool {
    match v {
        GenericValue::Dict(m) => {
            &&& m@.len() == 2
            &&& m@[0].0@ == "Links"@
            &&& m@[1].0@ == "Data"@
            &&& (m@[0].1 matches GenericValue::List(ls) && ls@.len() == n.links.len() && forall|j: int|
                0 <= j < ls@.len() ==> is_link_value(#[trigger] ls@[j], n.links[j]))
            &&& (m@[1].1 matches GenericValue::Bytes(d) && d@ == n.data)
        },
        _ => false,
    }
}

/// The link that a generic value holds: a map with a link under "Hash",
/// text under "Name" and an integer in the range of `u64` under "Tsize".
pub open spec fn recover_link(v: GenericValue) -> Option<LinkV> {
    match v {
        GenericValue::Dict(m) => match (lookup(m@, "Hash"@), lookup(m@, "Name"@), lookup(m@, "Tsize"@)) {
            (
                Some(GenericValue::Link(c)),
                Some(GenericValue::Text(s)),
                Some(GenericValue::Integer(n)),
            ) => if 0 <= n <= u64::MAX {
                Some(LinkV { target: c@, name: s@, size: n as u64 })
            } else {
                None
            },
            _ => None,
        },
        _ => None,
    }
}

/// The links that the items hold, in order; items that hold none are left out.
pub open spec fn recover_links(vs: Seq<GenericValue>) -> Seq<LinkV>
    decreases vs.len(),
{
    if vs.len() == 0 {
        seq![]
    } else {
        let r = recover_links(vs.drop_last());
        match recover_link(vs.last()) {
            Some(l) => r.push(l),
            None => r,
        }
    }
}

/// The node that a generic value holds: the links of a list under "Links"
/// and the bytes under "Data"; each is empty where absent or of another kind,
/// and both are where `v` is not a map.
pub open spec fn recover(v: GenericValue) -> NodeV {
    match v {
        GenericValue::Dict(m) => NodeV {
            links: match lookup(m@, "Links"@) {
                Some(GenericValue::List(items)) => recover_links(items@),
                _ => seq![],
            },
            data: match lookup(m@, "Data"@) {
                Some(GenericValue::Bytes(d)) => d@,
                _ => seq![],
            },
        },
        _ => NodeV { links: seq![], data: seq![] },
    }
}

fn link_value(l: &PbLink) -> (r: GenericValue)
    ensures
        is_link_value(r, l@),
{
    let mut m: Vec<(String, GenericValue)> = Vec::new();
    m.push((<String as StringExecFns>::from_str("Hash"), GenericValue::Link(l.cid.duplicate())));
    m.push((<String as StringExecFns>::from_str("Name"), GenericValue::Text(l.name.clone())));
    m.push((<String as StringExecFns>::from_str("Tsize"), GenericValue::Integer(l.size as i128)));
    GenericValue::Dict(m)
}

impl PbLink {
    /// The generic value of the link: `{"Hash", "Name", "Tsize"}` in that order.
    pub fn into_generic(self) -> (r: GenericValue)
        ensures
            is_link_value(r, self@),
    {
        link_value(&self)
    }

    /// The link that a generic value holds, if it holds one.
    pub fn from_generic(v: &GenericValue) -> (r: Option<PbLink>)
        ensures
            match r {
                Some(l) => recover_link(*v) == Some(l@),
                None => recover_link(*v) is None,
            },
    {
        let cid = match v.get("Hash") {
            Some(GenericValue::Link(c)) => c.duplicate(),
            _ => {
                return None;
            },
        };
        let name = match v.get("Name") {
            Some(GenericValue::Text(s)) => s.clone(),
            _ => {
                return None;
            },
        };
        let size = match v.get("Tsize") {
            Some(t) => match t.as_u64() {
                Some(n) => n,
                None => {
                    return None;
                },
            },
            None => {
                return None;
            },
        };
        Some(PbLink { cid, name, size })
    }
}

impl PbNode {
    /// The generic value of the node: `{"Links", "Data"}` in that order, the
    /// links in their order.
    pub fn into_generic(self) -> (r: GenericValue)
        ensures
            is_node_value(r, self@),
    {
        let mut items: Vec<GenericValue> = Vec::new();
        let mut i: usize = 0;
        while i < self.links.len()
            invariant
                i <= self.links@.len(),
                items@.len() == i,
                forall|j: int| 0 <= j < i ==> is_link_value(#[trigger] items@[j], self.links@[j]@),
            decreases self.links@.len() - i,
        {
            items.push(link_value(&self.links[i]));
            i = i + 1;
        }
        let mut m: Vec<(String, GenericValue)> = Vec::new();
        m.push((<String as StringExecFns>::from_str("Links"), GenericValue::List(items)));
        m.push((<String as StringExecFns>::from_str("Data"), GenericValue::Bytes(self.data)));
        GenericValue::Dict(m)
    }

    /// The node that a generic value holds, as far as it holds one; never fails.
    pub fn from_generic(v: &GenericValue) -> (r: PbNode)
        ensures
            r@ == recover(*v),
    {
        let m = match v {
            GenericValue::Dict(m) => m,
            _ => {
                let r = PbNode::empty();
                assert(r@.links =~= seq![]);
                assert(r@.data =~= seq![]);
                return r;
            },
        };
        let mut links: Vec<PbLink> = Vec::new();
        if let Some(GenericValue::List(items)) = map_get(m, "Links") {
            let mut i: usize = 0;
            assert(link_views(links@) =~= recover_links(items@.subrange(0, 0)));
            while i < items.len()
                invariant
                    i <= items@.len(),
                    link_views(links@) == recover_links(items@.subrange(0, i as int)),
                decreases items@.len() - i,
            {
                proof {
                    assert(items@.subrange(0, i + 1).drop_last() =~= items@.subrange(0, i as int));
                }
                match PbLink::from_generic(&items[i]) {
                    Some(l) => {
                        let ghost before = links@;
                        let ghost lv = l@;
                        links.push(l);
                        assert(link_views(links@) =~= link_views(before).push(lv));
                    },
                    None => {},
                }
                i = i + 1;
            }
            assert(items@.subrange(0, i as int) =~= items@);
        } else {
            assert(link_views(links@) =~= seq![]);
        }
        let found = match map_get(m, "Data") {
            Some(d) => d.as_bytes(),
            None => None,
        };
        let data = match found {
            Some(d) => {
                let c = d.clone();
                assert(c@ =~= d@);
                c
            },
            None => {
                let e: Vec<u8> = Vec::new();
                assert(e@ =~= seq![]);
                e
            },
        };
        PbNode { links, data }
    }
}

proof fn lemma_recover_link_value(v: GenericValue, l: LinkV)
    requires
        is_link_value(v, l),
    ensures
        recover_link(v) == Some(l),
{
    reveal_strlit("Hash");
    reveal_strlit("Name");
    reveal_strlit("Tsize");
    if let GenericValue::Dict(m) = v {
        let s = m@;
        assert(s.drop_last().last() == s[1]);
        assert(s.drop_last().drop_last().last() == s[0]);
        assert(lookup(s, "Tsize"@) == Some(s[2].1));
        assert("Tsize"@ != "Name"@ && "Tsize"@ != "Hash"@ && "Name"@ != "Hash"@) by {
            assert("Tsize"@.len() != "Name"@.len());
            assert("Tsize"@.len() != "Hash"@.len());
            assert("Name"@[0] != "Hash"@[0]);
        }
        assert(lookup(s.drop_last(), "Name"@) == Some(s[1].1));
        assert(lookup(s, "Name"@) == Some(s[1].1));
        assert(lookup(s.drop_last().drop_last(), "Hash"@) == Some(s[0].1));
        assert(lookup(s.drop_last(), "Hash"@) == Some(s[0].1));
        assert(lookup(s, "Hash"@) == Some(s[0].1));
    }
}

proof fn lemma_recover_link_values(items: Seq<GenericValue>, links: Seq<LinkV>, k: int)
    requires
        items.len() == links.len(),
        0 <= k <= items.len(),
        forall|j: int| 0 <= j < items.len() ==> is_link_value(#[trigger] items[j], links[j]),
    ensures
        recover_links(items.subrange(0, k)) == links.subrange(0, k),
    decreases k,
{
    if k == 0 {
        assert(links.subrange(0, 0) =~= seq![]);
    } else {
        lemma_recover_link_values(items, links, k - 1);
        assert(items.subrange(0, k).drop_last() =~= items.subrange(0, k - 1));
        lemma_recover_link_value(items[k - 1], links[k - 1]);
        assert(links.subrange(0, k) =~= links.subrange(0, k - 1).push(links[k - 1]));
    }
}

/// Recovering a node from its generic value gives the node back: links in
/// order with their identifiers, names and sizes, and the data.
pub proof fn law_generic_round_trip(v: GenericValue, n: NodeV)
    requires
        is_node_value(v, n),
    ensures
        recover(v) == n,
{
    reveal_strlit("Links");
    reveal_strlit("Data");
    if let GenericValue::Dict(m) = v {
        let s = m@;
        assert(s.drop_last().last() == s[0]);
        assert(lookup(s, "Data"@) == Some(s[1].1));
        assert("Data"@ != "Links"@) by {
            assert("Data"@.len() != "Links"@.len());
        }
        assert(lookup(s.drop_last(), "Links"@) == Some(s[0].1));
        assert(lookup(s, "Links"@) == Some(s[0].1));
        if let GenericValue::List(ls) = s[0].1 {
            lemma_recover_link_values(ls@, n.links, ls@.len() as int);
            assert(ls@.subrange(0, ls@.len() as int) =~= ls@);
            assert(n.links.subrange(0, n.links.len() as int) =~= n.links);
        }
    }
}

} // verus!
