//! The protobuf wire encoding of dag-pb nodes.
//!
//! A node is a `PBNode` message: its links as repeated field 2, each an
//! embedded `PBLink` message, then its data as field 1. A link is `Hash`
//! (field 1, bytes), `Name` (field 2, string) and `Tsize` (field 3, uint64).
use crate::ident::{cid_canonical, ContentId};
use crate::node::{link_views, LinkV, NodeV, PbLink, PbNode};
use crate::varint::{read_u64, read_u64_at, varint, write_varint};
use vstd::prelude::*;
use vstd::slice::{slice_subrange, slice_to_vec};
use vstd::string::StrSliceExecFns;
use vstd::utf8::*;

verus! {

/// The key of a field: its number and wire type.
pub open spec fn tag(num: nat, wire_type: nat) -> Seq<u8> {
    varint(num * 8 + wire_type)
}

/// A length-delimited field.
pub open spec fn bytes_field(num: nat, p: Seq<u8>) -> Seq<u8> {
    tag(num, 2) + varint(p.len()) + p
}

/// A varint field.
pub open spec fn varint_field(num: nat, v: nat) -> Seq<u8> {
    tag(num, 0) + varint(v)
}

/// The encoded `PBLink` message of a link.
pub open spec fn encode_link(l: LinkV) -> Seq<u8> {
    bytes_field(1, l.target) + bytes_field(2, encode_utf8(l.name)) + varint_field(3, l.size as nat)
}

/// The encoded links of a node, in order, each as field 2.
pub open spec fn encode_links(ls: Seq<LinkV>) -> Seq<u8>
    decreases ls.len(),
{
    if ls.len() == 0 {
        seq![]
    } else {
        encode_links(ls.drop_last()) + bytes_field(2, encode_link(ls.last()))
    }
}

/// The encoded `PBNode` message of a node.
pub open spec fn encode_node(n: NodeV) -> Seq<u8> {
    encode_links(n.links) + bytes_field(1, n.data)
}

/// The value of a field as read from the wire.
pub enum FieldValue {
    Varint(u64),
    /// A fixed-width value or a group, which no field of dag-pb has.
    Skipped,
    Bytes(Seq<u8>),
}

/// A field as read from the wire.
pub struct Field {
    pub num: u64,
    pub value: FieldValue,
}

/// The value of a field of wire type `wt` at position `j`, and the position
/// after it. As in protobuf, a length is the low 32 bits of its varint; the
/// group wire types have no value of their own.
pub open spec fn parse_value(b: Seq<u8>, j: int, end: int, wt: u64) -> Option<(FieldValue, int)> {
    if wt == 0 {
        match read_u64(b, j, end) {
            Some((v, m)) => Some((FieldValue::Varint(v), j + m)),
            None => None,
        }
    } else if wt == 1 {
        if j + 8 <= end {
            Some((FieldValue::Skipped, j + 8))
        } else {
            None
        }
    } else if wt == 2 {
        match read_u64(b, j, end) {
            Some((len, m)) => {
                let len32 = len % 0x1_0000_0000;
                if j + m + len32 <= end {
                    Some((FieldValue::Bytes(b.subrange(j + m, j + m + len32)), j + m + len32))
                } else {
                    None
                }
            },
            None => None,
        }
    } else if wt == 5 {
        if j + 4 <= end {
            Some((FieldValue::Skipped, j + 4))
        } else {
            None
        }
    } else {
        None
    }
}

/// Reads the key at position `i`: field number, wire type and the position
/// after it. As in protobuf, the key is the low 32 bits of its varint and
/// field number 0 is refused.
pub open spec fn parse_key(b: Seq<u8>, i: int, end: int) -> Option<(u64, u64, int)> {
    match read_u64(b, i, end) {
        Some((t, n)) => {
            let key = t % 0x1_0000_0000;
            if key / 8 == 0 || n == 0 {
                None
            } else {
                Some((key / 8, key % 8, i + n))
            }
        },
        None => None,
    }
}

/// Skips the rest of a group from position `j`: fields other than groups,
/// up to and including an end-group key. The position after it.
pub open spec fn skip_group(b: Seq<u8>, j: int, end: int) -> Option<int>
    decreases end - j,
{
    if j >= end {
        None
    } else {
        match parse_key(b, j, end) {
            Some((_, wt, k)) => if wt == 4 {
                Some(k)
            } else {
                match parse_value(b, k, end, wt) {
                    Some((_, l)) => if j < l <= end {
                        skip_group(b, l, end)
                    } else {
                        None
                    },
                    None => None,
                }
            },
            None => None,
        }
    }
}

/// Reads the field at position `i`, reading nothing at or past `end`:
/// the field and the position after it. A group is skipped whole; an
/// end-group key out of a group is refused.
pub open spec fn parse_field(b: Seq<u8>, i: int, end: int) -> Option<(Field, int)> {
    match parse_key(b, i, end) {
        Some((num, wt, j)) => if wt == 3 {
            match skip_group(b, j, end) {
                Some(k) => Some((Field { num, value: FieldValue::Skipped }, k)),
                None => None,
            }
        } else {
            match parse_value(b, j, end, wt) {
                Some((v, k)) => Some((Field { num, value: v }, k)),
                None => None,
            }
        },
        None => None,
    }
}

/// Reads the fields from position `i` up to exactly `end`.
pub open spec fn parse_fields(b: Seq<u8>, i: int, end: int) -> Option<Seq<Field>>
    decreases end - i,
{
    if i >= end {
        Some(seq![])
    } else {
        match parse_field(b, i, end) {
            Some((f, j)) => if i < j <= end {
                match parse_fields(b, j, end) {
                    Some(r) => Some(seq![f] + r),
                    None => None,
                }
            } else {
                None
            },
            None => None,
        }
    }
}

/// The fields of a link read so far: the last of each number counts.
pub struct LinkParts {
    pub target: Option<Seq<u8>>,
    pub name: Option<Seq<char>>,
    pub size: Option<u64>,
}

pub open spec fn link_step(st: LinkParts, f: Field) -> Option<LinkParts> {
    if f.num == 1 {
        match f.value {
            FieldValue::Bytes(p) => Some(LinkParts { target: Some(p), name: st.name, size: st.size }),
            _ => None,
        }
    } else if f.num == 2 {
        match f.value {
            FieldValue::Bytes(p) => if valid_utf8(p) {
                Some(LinkParts { target: st.target, name: Some(decode_utf8(p)), size: st.size })
            } else {
                None
            },
            _ => None,
        }
    } else if f.num == 3 {
        match f.value {
            FieldValue::Varint(v) => Some(LinkParts { target: st.target, name: st.name, size: Some(v) }),
            _ => None,
        }
    } else {
        Some(st)
    }
}

pub open spec fn link_fold(fs: Seq<Field>) -> Option<LinkParts>
    decreases fs.len(),
{
    if fs.len() == 0 {
        Some(LinkParts { target: None, name: None, size: None })
    } else {
        match link_fold(fs.drop_last()) {
            Some(st) => link_step(st, fs.last()),
            None => None,
        }
    }
}

/// The fields of a `PBLink` message; each may be absent.
#[verifier::opaque]
pub open spec fn wire_link(p: Seq<u8>) -> Option<LinkParts> {
    match parse_fields(p, 0, p.len() as int) {
        Some(fs) => link_fold(fs),
        None => None,
    }
}

/// A `PBNode` message as read from the wire, its links not yet checked.
pub struct WireNode {
    pub links: Seq<LinkParts>,
    pub data: Seq<u8>,
}

pub open spec fn node_step(st: WireNode, f: Field) -> Option<WireNode> {
    if f.num == 1 {
        match f.value {
            FieldValue::Bytes(p) => Some(WireNode { links: st.links, data: p }),
            _ => None,
        }
    } else if f.num == 2 {
        match f.value {
            FieldValue::Bytes(p) => match wire_link(p) {
                Some(l) => Some(WireNode { links: st.links.push(l), data: st.data }),
                None => None,
            },
            _ => None,
        }
    } else {
        Some(st)
    }
}

pub open spec fn node_fold(fs: Seq<Field>) -> Option<WireNode>
    decreases fs.len(),
{
    if fs.len() == 0 {
        Some(WireNode { links: seq![], data: seq![] })
    } else {
        match node_fold(fs.drop_last()) {
            Some(st) => node_step(st, fs.last()),
            None => None,
        }
    }
}

/// The `PBNode` message that `b` holds. Unknown fields are skipped; absent
/// data is empty.
pub open spec fn wire_node(b: Seq<u8>) -> Option<WireNode> {
    match parse_fields(b, 0, b.len() as int) {
        Some(fs) => node_fold(fs),
        None => None,
    }
}

/// Why bytes do not decode to a node.
#[derive(Clone, Copy, Debug, PartialEq, Eq, Structural)]
pub enum DecodeError {
    /// The bytes are not a `PBNode` message, or a link lacks its name or size.
    MalformedWireBytes,
    /// A link's identifier bytes hold no content identifier.
    InvalidLinkIdentifier,
}

/// The identifier bytes of a link: empty where the field is absent.
pub open spec fn hash_bytes(l: LinkParts) -> Seq<u8> {
    match l.target {
        Some(t) => t,
        None => seq![],
    }
}

pub open spec fn all_cids_read(ls: Seq<LinkParts>) -> bool {
    forall|j: int| 0 <= j < ls.len() ==> (#[trigger] cid_canonical(hash_bytes(ls[j]))) is Some
}

pub open spec fn all_complete(ls: Seq<LinkParts>) -> bool {
    forall|j: int| 0 <= j < ls.len() ==> (#[trigger] ls[j]).name is Some && ls[j].size is Some
}

/// A link from its fields, the identifier read from its bytes.
pub open spec fn finished_link(l: LinkParts) -> LinkV {
    LinkV {
        target: match cid_canonical(hash_bytes(l)) {
            Some(c) => c,
            None => seq![],
        },
        name: match l.name {
            Some(n) => n,
            None => seq![],
        },
        size: match l.size {
            Some(s) => s,
            None => 0,
        },
    }
}

/// What decoding `b` gives: bytes that are no `PBNode` message fail first,
/// then identifier bytes that hold no identifier, then a link without its
/// name or size.
pub open spec fn decode(b: Seq<u8>) -> Result<NodeV, DecodeError> {
    match wire_node(b) {
        None => Err(DecodeError::MalformedWireBytes),
        Some(w) => if !all_cids_read(w.links) {
            Err(DecodeError::InvalidLinkIdentifier)
        } else if !all_complete(w.links) {
            Err(DecodeError::MalformedWireBytes)
        } else {
            Ok(NodeV { links: w.links.map_values(|l: LinkParts| finished_link(l)), data: w.data })
        },
    }
}

/// A link whose identifier bytes hold no content identifier fails the whole
/// decode with `InvalidLinkIdentifier`; it is never dropped.
pub proof fn law_invalid_identifier_fails(b: Seq<u8>, j: int)
    requires
        wire_node(b) matches Some(w) && 0 <= j < w.links.len() && cid_canonical(
            hash_bytes(w.links[j]),
        ) is None,
    ensures
        decode(b) == Err::<NodeV, DecodeError>(DecodeError::InvalidLinkIdentifier),
{
    let w = wire_node(b)->0;
    assert(!all_cids_read(w.links));
}

/// Relies on `String::from_utf8`: it accepts exactly the valid UTF-8 byte
/// sequences, and the string holds the characters that they encode.
#[verifier::external_body]
fn string_from_utf8(b: Vec<u8>) -> (r: Option<String>)
    ensures
        r is Some <==> valid_utf8(b@),
        r matches Some(s) ==> s@ == decode_utf8(b@),
{
    String::from_utf8(b).ok()
}

fn append_bytes(out: &mut Vec<u8>, p: &[u8])
    ensures
        final(out)@ == old(out)@ + p@,
{
    let ghost start = out@;
    let mut j: usize = 0;
    while j < p.len()
        invariant
            j <= p@.len(),
            out@ == start + p@.subrange(0, j as int),
        decreases p@.len() - j,
    {
        out.push(p[j]);
        j = j + 1;
        assert(out@ =~= start + p@.subrange(0, j as int));
    }
    assert(p@.subrange(0, p@.len() as int) =~= p@);
}

fn write_bytes_field(out: &mut Vec<u8>, num: u64, p: &[u8])
    requires
        1 <= num <= 15,
    ensures
        final(out)@ == old(out)@ + bytes_field(num as nat, p@),
{
    let ghost start = out@;
    write_varint(out, num * 8 + 2);
    write_varint(out, p.len() as u64);
    append_bytes(out, p);
    assert(out@ =~= start + bytes_field(num as nat, p@));
}

fn encode_link_bytes(l: &PbLink) -> (r: Vec<u8>)
    ensures
        r@ == encode_link(l@),
{
    let mut out: Vec<u8> = Vec::new();
    write_bytes_field(&mut out, 1, l.cid.as_bytes());
    let name = l.name.as_str().as_bytes_vec();
    write_bytes_field(&mut out, 2, name.as_slice());
    write_varint(&mut out, 24);
    write_varint(&mut out, l.size);
    assert(out@ =~= encode_link(l@));
    out
}

impl PbNode {
    /// Encodes the node as a `PBNode` message: each link in order, then the data.
    pub fn into_bytes(self) -> (r: Vec<u8>)
        ensures
            r@ == encode_node(self@),
    {
        let mut out: Vec<u8> = Vec::new();
        let mut i: usize = 0;
        while i < self.links.len()
            invariant
                i <= self.links@.len(),
                out@ == encode_links(link_views(self.links@).subrange(0, i as int)),
            decreases self.links@.len() - i,
        {
            let ghost before = out@;
            let lb = encode_link_bytes(&self.links[i]);
            write_bytes_field(&mut out, 2, lb.as_slice());
            proof {
                let ls = link_views(self.links@);
                assert(ls.subrange(0, i + 1).drop_last() =~= ls.subrange(0, i as int));
            }
            i = i + 1;
        }
        assert(link_views(self.links@).subrange(0, i as int) =~= link_views(self.links@));
        write_bytes_field(&mut out, 1, self.data.as_slice());
        out
    }
}

enum RawValue {
    Varint(u64),
    Skipped,
    Bytes(Vec<u8>),
}

struct RawField {
    num: u64,
    value: RawValue,
}

impl View for RawField {
    type V = Field;

    closed spec fn view(&self) -> Field {
        Field { num: self.num, value: raw_value_view(self.value) }
    }
}

spec fn raw_value_view(v: RawValue) -> FieldValue {
    match v {
        RawValue::Varint(x) => FieldValue::Varint(x),
        RawValue::Skipped => FieldValue::Skipped,
        RawValue::Bytes(p) => FieldValue::Bytes(p@),
    }
}

fn parse_value_at(b: &[u8], j: usize, end: usize, wt: u64) -> (r: Option<(RawValue, usize)>)
    requires
        j <= end <= b@.len(),
    ensures
        match r {
            Some((v, k)) => parse_value(b@, j as int, end as int, wt) == Some((raw_value_view(v), k as int))
                && j < k <= end,
            None => parse_value(b@, j as int, end as int, wt) is None,
        },
{
    if wt == 0 {
        match read_u64_at(b, j, end) {
            Some((v, m)) => Some((RawValue::Varint(v), j + m)),
            None => None,
        }
    } else if wt == 1 {
        if end - j >= 8 {
            Some((RawValue::Skipped, j + 8))
        } else {
            None
        }
    } else if wt == 2 {
        match read_u64_at(b, j, end) {
            Some((len, m)) => {
                let s = j + m;
                let len32 = len % 0x1_0000_0000;
                if len32 <= (end - s) as u64 {
                    let e = s + len32 as usize;
                    let p = slice_to_vec(slice_subrange(b, s, e));
                    Some((RawValue::Bytes(p), e))
                } else {
                    None
                }
            },
            None => None,
        }
    } else if wt == 5 {
        if end - j >= 4 {
            Some((RawValue::Skipped, j + 4))
        } else {
            None
        }
    } else {
        None
    }
}

fn parse_key_at(b: &[u8], i: usize, end: usize) -> (r: Option<(u64, u64, usize)>)
    requires
        i <= end <= b@.len(),
    ensures
        match r {
            Some((num, wt, j)) => parse_key(b@, i as int, end as int) == Some((num, wt, j as int))
                && i < j <= end,
            None => parse_key(b@, i as int, end as int) is None,
        },
{
    match read_u64_at(b, i, end) {
        Some((t, n)) => {
            let key = t % 0x1_0000_0000;
            if key / 8 == 0 {
                None
            } else {
                Some((key / 8, key % 8, i + n))
            }
        },
        None => None,
    }
}

fn skip_group_at(b: &[u8], j: usize, end: usize) -> (r: Option<usize>)
    requires
        j <= end <= b@.len(),
    ensures
        match r {
            Some(k) => skip_group(b@, j as int, end as int) == Some(k as int) && j < k <= end,
            None => skip_group(b@, j as int, end as int) is None,
        },
{
    let mut i = j;
    while i < end
        invariant
            j <= i <= end <= b@.len(),
            skip_group(b@, j as int, end as int) == skip_group(b@, i as int, end as int),
        decreases end - i,
    {
        let (_, wt, k) = match parse_key_at(b, i, end) {
            Some(x) => x,
            None => {
                return None;
            },
        };
        if wt == 4 {
            return Some(k);
        }
        match parse_value_at(b, k, end, wt) {
            Some((_, l)) => {
                i = l;
            },
            None => {
                return None;
            },
        }
    }
    None
}

fn parse_field_at(b: &[u8], i: usize, end: usize) -> (r: Option<(RawField, usize)>)
    requires
        i <= end <= b@.len(),
    ensures
        match r {
            Some((f, j)) => parse_field(b@, i as int, end as int) == Some((f@, j as int)),
            None => parse_field(b@, i as int, end as int) is None,
        },
{
    let (num, wt, j) = match parse_key_at(b, i, end) {
        Some(x) => x,
        None => {
            return None;
        },
    };
    if wt == 3 {
        match skip_group_at(b, j, end) {
            Some(k) => Some((RawField { num, value: RawValue::Skipped }, k)),
            None => None,
        }
    } else {
        match parse_value_at(b, j, end, wt) {
            Some((v, k)) => Some((RawField { num, value: v }, k)),
            None => None,
        }
    }
}

/// `acc` followed by what `r` holds, if anything.
spec fn prepend(acc: Seq<Field>, r: Option<Seq<Field>>) -> Option<Seq<Field>> {
    match r {
        Some(fs) => Some(acc + fs),
        None => None,
    }
}

proof fn lemma_prepend_empty(r: Option<Seq<Field>>)
    ensures
        prepend(seq![], r) == r,
{
    if let Some(fs) = r {
        assert(seq![] + fs =~= fs);
    }
}

proof fn lemma_prepend_step(b: Seq<u8>, i: int, end: int, acc: Seq<Field>, f: Field, j: int)
    requires
        i < end,
        parse_field(b, i, end) == Some((f, j)),
        i < j <= end,
    ensures
        prepend(acc, parse_fields(b, i, end)) == prepend(acc.push(f), parse_fields(b, j, end)),
{
    if let Some(r) = parse_fields(b, j, end) {
        assert(acc + (seq![f] + r) =~= acc.push(f) + r);
    }
}

proof fn lemma_prepend_end(b: Seq<u8>, end: int, acc: Seq<Field>)
    ensures
        prepend(acc, parse_fields(b, end, end)) == Some(acc),
{
    assert(acc + seq![] =~= acc);
}

proof fn lemma_link_fold_stuck(fs: Seq<Field>, r: Seq<Field>)
    requires
        link_fold(fs) is None,
    ensures
        link_fold(fs + r) is None,
    decreases r.len(),
{
    if r.len() == 0 {
        assert(fs + r =~= fs);
    } else {
        lemma_link_fold_stuck(fs, r.drop_last());
        assert((fs + r).drop_last() =~= fs + r.drop_last());
    }
}

proof fn lemma_node_fold_stuck(fs: Seq<Field>, r: Seq<Field>)
    requires
        node_fold(fs) is None,
    ensures
        node_fold(fs + r) is None,
    decreases r.len(),
{
    if r.len() == 0 {
        assert(fs + r =~= fs);
    } else {
        lemma_node_fold_stuck(fs, r.drop_last());
        assert((fs + r).drop_last() =~= fs + r.drop_last());
    }
}

/// A link as read from the wire, its identifier bytes not yet read.
struct RawLink {
    target: Option<Vec<u8>>,
    name: Option<String>,
    size: Option<u64>,
}

impl View for RawLink {
    type V = LinkParts;

    closed spec fn view(&self) -> LinkParts {
        parts_view(self.target, self.name, self.size)
    }
}

spec fn parts_view(target: Option<Vec<u8>>, name: Option<String>, size: Option<u64>) -> LinkParts {
    LinkParts {
        target: match target {
            Some(t) => Some(t@),
            None => None,
        },
        name: match name {
            Some(n) => Some(n@),
            None => None,
        },
        size,
    }
}

fn parse_link(p: &[u8]) -> (r: Option<RawLink>)
    ensures
        match r {
            Some(l) => wire_link(p@) == Some(l@),
            None => wire_link(p@) is None,
        },
{
    proof {
        reveal(wire_link);
    }
    let end = p.len();
    let mut i: usize = 0;
    let mut target: Option<Vec<u8>> = None;
    let mut name: Option<String> = None;
    let mut size: Option<u64> = None;
    let ghost mut acc: Seq<Field> = seq![];
    proof {
        lemma_prepend_empty(parse_fields(p@, 0, end as int));
    }
    while i < end
        invariant
            i <= end == p@.len(),
            parse_fields(p@, 0, end as int) == prepend(acc, parse_fields(p@, i as int, end as int)),
            link_fold(acc) == Some(parts_view(target, name, size)),
        decreases end - i,
    {
        proof {
            reveal(wire_link);
        }
        let (f, j) = match parse_field_at(p, i, end) {
            Some(x) => x,
            None => {
                return None;
            },
        };
        if j <= i || j > end {
            return None;
        }
        proof {
            lemma_prepend_step(p@, i as int, end as int, acc, f@, j as int);
            assert(acc.push(f@).drop_last() =~= acc);
            if let Some(r) = parse_fields(p@, j as int, end as int) {
                if link_fold(acc.push(f@)) is None {
                    lemma_link_fold_stuck(acc.push(f@), r);
                }
            }
        }
        let ghost fv = f@;
        if f.num == 1 {
            match f.value {
                RawValue::Bytes(v) => {
                    target = Some(v);
                },
                _ => {
                    return None;
                },
            }
        } else if f.num == 2 {
            match f.value {
                RawValue::Bytes(v) => {
                    match string_from_utf8(v) {
                        Some(s) => {
                            name = Some(s);
                        },
                        None => {
                            return None;
                        },
                    }
                },
                _ => {
                    return None;
                },
            }
        } else if f.num == 3 {
            match f.value {
                RawValue::Varint(v) => {
                    size = Some(v);
                },
                _ => {
                    return None;
                },
            }
        }
        proof {
            acc = acc.push(fv);
        }
        i = j;
    }
    proof {
        lemma_prepend_end(p@, end as int, acc);
    }
    Some(RawLink { target, name, size })
}

spec fn raw_views(links: Seq<RawLink>) -> Seq<LinkParts> {
    links.map_values(|l: RawLink| l@)
}

fn parse_node(b: &[u8]) -> (r: Option<(Vec<RawLink>, Vec<u8>)>)
    ensures
        match r {
            Some((links, data)) => wire_node(b@) == Some(WireNode { links: raw_views(links@), data: data@ }),
            None => wire_node(b@) is None,
        },
{
    let end = b.len();
    let mut i: usize = 0;
    let mut links: Vec<RawLink> = Vec::new();
    let mut data: Vec<u8> = Vec::new();
    let ghost mut acc: Seq<Field> = seq![];
    proof {
        lemma_prepend_empty(parse_fields(b@, 0, end as int));
        assert(raw_views(links@) =~= seq![]);
        assert(data@ =~= seq![]);
    }
    while i < end
        invariant
            i <= end == b@.len(),
            parse_fields(b@, 0, end as int) == prepend(acc, parse_fields(b@, i as int, end as int)),
            node_fold(acc) == Some(WireNode { links: raw_views(links@), data: data@ }),
        decreases end - i,
    {
        let (f, j) = match parse_field_at(b, i, end) {
            Some(x) => x,
            None => {
                return None;
            },
        };
        if j <= i || j > end {
            return None;
        }
        proof {
            lemma_prepend_step(b@, i as int, end as int, acc, f@, j as int);
            assert(acc.push(f@).drop_last() =~= acc);
            if let Some(r) = parse_fields(b@, j as int, end as int) {
                if node_fold(acc.push(f@)) is None {
                    lemma_node_fold_stuck(acc.push(f@), r);
                }
            }
        }
        let ghost fv = f@;
        if f.num == 1 {
            match f.value {
                RawValue::Bytes(v) => {
                    data = v;
                },
                _ => {
                    return None;
                },
            }
        } else if f.num == 2 {
            match f.value {
                RawValue::Bytes(v) => {
                    match parse_link(v.as_slice()) {
                        Some(l) => {
                            let ghost before = links@;
                            links.push(l);
                            assert(raw_views(links@) =~= raw_views(before).push(l@));
                        },
                        None => {
                            return None;
                        },
                    }
                },
                _ => {
                    return None;
                },
            }
        }
        proof {
            acc = acc.push(fv);
        }
        i = j;
    }
    proof {
        lemma_prepend_end(b@, end as int, acc);
    }
    Some((links, data))
}

impl PbNode {
    /// Decodes a `PBNode` message. Fails with `MalformedWireBytes` where the
    /// bytes are not such a message, else with `InvalidLinkIdentifier` where a
    /// link's identifier bytes hold no identifier, else with
    /// `MalformedWireBytes` where a link lacks its name or size.
    pub fn from_bytes(bytes: &[u8]) -> (r: Result<PbNode, DecodeError>)
        ensures
            match r {
                Ok(n) => decode(bytes@) == Ok::<NodeV, DecodeError>(n@),
                Err(e) => decode(bytes@) == Err::<NodeV, DecodeError>(e),
            },
    {
        let (raw, data) = match parse_node(bytes) {
            Some(x) => x,
            None => {
                return Err(DecodeError::MalformedWireBytes);
            },
        };
        let ghost ws = raw_views(raw@);
        let mut cids: Vec<ContentId> = Vec::new();
        let mut i: usize = 0;
        while i < raw.len()
            invariant
                i <= raw@.len(),
                ws == raw_views(raw@),
                wire_node(bytes@) == Some(WireNode { links: ws, data: data@ }),
                cids@.len() == i,
                forall|j: int| 0 <= j < i ==> cid_canonical(hash_bytes(ws[j])) == Some(#[trigger] cids@[j]@),
            decreases raw@.len() - i,
        {
            let empty: Vec<u8> = Vec::new();
            let read = match &raw[i].target {
                Some(t) => ContentId::from_bytes(t.as_slice()),
                None => ContentId::from_bytes(empty.as_slice()),
            };
            proof {
                assert(empty@ =~= seq![]);
                assert(ws[i as int] == raw@[i as int]@);
            }
            match read {
                Ok(c) => {
                    cids.push(c);
                },
                Err(_) => {
                    proof {
                        assert(cid_canonical(hash_bytes(ws[i as int])) is None);
                        assert(!all_cids_read(ws));
                    }
                    return Err(DecodeError::InvalidLinkIdentifier);
                },
            }
            i = i + 1;
        }
        assert(all_cids_read(ws)) by {
            assert forall|j: int| 0 <= j < ws.len() implies (#[trigger] cid_canonical(
                hash_bytes(ws[j]),
            )) is Some by {
                assert(cid_canonical(hash_bytes(ws[j])) == Some(cids@[j]@));
            }
        }
        let mut links: Vec<PbLink> = Vec::new();
        i = 0;
        while i < raw.len()
            invariant
                i <= raw@.len(),
                ws == raw_views(raw@),
                wire_node(bytes@) == Some(WireNode { links: ws, data: data@ }),
                all_cids_read(ws),
                cids@.len() == raw@.len(),
                forall|j: int| 0 <= j < raw@.len() ==> cid_canonical(hash_bytes(ws[j])) == Some(#[trigger] cids@[j]@),
                forall|j: int| 0 <= j < i ==> (#[trigger] ws[j]).name is Some && ws[j].size is Some,
                link_views(links@) == ws.subrange(0, i as int).map_values(|l: LinkParts| finished_link(l)),
            decreases raw@.len() - i,
        {
            proof {
                assert(ws[i as int] == raw@[i as int]@);
            }
            let name = match &raw[i].name {
                Some(s) => s.clone(),
                None => {
                    proof {
                        assert(!all_complete(ws));
                    }
                    return Err(DecodeError::MalformedWireBytes);
                },
            };
            let size = match raw[i].size {
                Some(s) => s,
                None => {
                    proof {
                        assert(!all_complete(ws));
                    }
                    return Err(DecodeError::MalformedWireBytes);
                },
            };
            let ghost before = links@;
            let nl = PbLink { cid: cids[i].duplicate(), name, size };
            let ghost nv = nl@;
            links.push(nl);
            proof {
                assert(cid_canonical(hash_bytes(ws[i as int])) == Some(cids@[i as int]@));
                assert(nv == finished_link(ws[i as int]));
                assert(ws.subrange(0, i + 1) =~= ws.subrange(0, i as int).push(ws[i as int]));
                assert(link_views(links@) =~= link_views(before).push(nv));
                assert(link_views(links@) =~= ws.subrange(0, i + 1).map_values(
                    |l: LinkParts| finished_link(l),
                ));
            }
            i = i + 1;
        }
        assert(ws.subrange(0, i as int) =~= ws);
        assert(all_complete(ws));
        Ok(PbNode { links, data })
    }
}

} // verus!
