//! What the wire encoding keeps: decoding an encoded node gives it back.
use crate::ident::{cid_canonical, is_cid_bytes};
use crate::node::{targets_valid, LinkV, NodeV, PbNode};
use crate::varint::{lemma_read_u64_written, lemma_varint_u64, read_varint, varint};
use crate::wire::{
    all_complete, all_cids_read, bytes_field, decode, encode_link, encode_links, encode_node,
    finished_link, hash_bytes, link_fold, node_fold, node_step, parse_key, parse_field, parse_fields, varint_field,
    wire_link, wire_node, DecodeError, Field, FieldValue, LinkParts, WireNode,
};
use vstd::prelude::*;
use vstd::utf8::{decode_utf8, encode_utf8, encode_utf8_decode_utf8, encode_utf8_valid_utf8};

verus! {

/// The bytes of one field as the encoder writes it.
pub open spec fn field_bytes(f: Field) -> Seq<u8> {
    match f.value {
        FieldValue::Bytes(p) => bytes_field(f.num as nat, p),
        FieldValue::Varint(v) => varint_field(f.num as nat, v as nat),
        FieldValue::Skipped => seq![],
    }
}

/// The bytes of fields written one after the other.
pub open spec fn fields_bytes(fs: Seq<Field>) -> Seq<u8>
    decreases fs.len(),
{
    if fs.len() == 0 {
        seq![]
    } else {
        field_bytes(fs[0]) + fields_bytes(fs.drop_first())
    }
}

/// A field that the encoder writes: a small field number, and a varint or
/// a payload whose length fits in 32 bits.
pub open spec fn writable(f: Field) -> bool {
    &&& 1 <= f.num <= 15
    &&& match f.value {
        FieldValue::Bytes(p) => p.len() <= u32::MAX,
        FieldValue::Varint(_) => true,
        FieldValue::Skipped => false,
    }
}

proof fn lemma_subrange_of(b: Seq<u8>, i: int, x: Seq<u8>, k: int, l: int)
    requires
        0 <= i,
        i + x.len() <= b.len(),
        b.subrange(i, i + x.len()) == x,
        0 <= k <= l <= x.len(),
    ensures
        b.subrange(i + k, i + l) == x.subrange(k, l),
{
    assert(b.subrange(i + k, i + l) =~= b.subrange(i, i + x.len()).subrange(k, l));
}

proof fn lemma_parse_written_field(b: Seq<u8>, i: int, end: int, f: Field)
    requires
        writable(f),
        0 <= i,
        i + field_bytes(f).len() <= end <= b.len(),
        b.subrange(i, i + field_bytes(f).len()) == field_bytes(f),
    ensures
        parse_field(b, i, end) == Some((f, i + field_bytes(f).len())),
        field_bytes(f).len() >= 1,
{
    let x = field_bytes(f);
    let wt: nat = match f.value {
        FieldValue::Bytes(_) => 2,
        _ => 0,
    };
    let t: nat = f.num as nat * 8 + wt;
    assert(varint(t) == seq![t as u8]);
    assert(varint((t as u64) as nat) == seq![t as u8]);
    lemma_subrange_of(b, i, x, 0, 1);
    assert((t as u64) % 0x1_0000_0000 == t);
    assert((t as u64) / 8 == f.num && (t as u64) % 8 == wt);
    match f.value {
        FieldValue::Bytes(p) => {
            let lv = varint(p.len());
            lemma_varint_u64(p.len() as u64);
            assert(x == seq![t as u8] + lv + p);
            assert(x.subrange(0, 1) =~= seq![t as u8]);
            lemma_read_u64_written(b, i, end, t as u64);
            lemma_subrange_of(b, i, x, 1, 1 + lv.len() as int);
            assert(x.subrange(1, 1 + lv.len() as int) =~= lv);
            lemma_read_u64_written(b, i + 1, end, p.len() as u64);
            assert((p.len() as u64) % 0x1_0000_0000 == p.len());
            lemma_subrange_of(b, i, x, 1 + lv.len() as int, x.len() as int);
            assert(x.subrange(1 + lv.len() as int, x.len() as int) =~= p);
        },
        FieldValue::Varint(v) => {
            let vv = varint(v as nat);
            lemma_varint_u64(v);
            assert(x == seq![t as u8] + vv);
            assert(x.subrange(0, 1) =~= seq![t as u8]);
            lemma_read_u64_written(b, i, end, t as u64);
            lemma_subrange_of(b, i, x, 1, x.len() as int);
            assert(x.subrange(1, x.len() as int) =~= vv);
            lemma_read_u64_written(b, i + 1, end, v);
        },
        FieldValue::Skipped => {},
    }
}

proof fn lemma_parse_written_fields(b: Seq<u8>, i: int, end: int, fs: Seq<Field>)
    requires
        forall|k: int| 0 <= k < fs.len() ==> writable(#[trigger] fs[k]),
        0 <= i,
        i + fields_bytes(fs).len() == end <= b.len(),
        b.subrange(i, end) == fields_bytes(fs),
    ensures
        parse_fields(b, i, end) == Some(fs),
    decreases fs.len(),
{
    if fs.len() == 0 {
        assert(fs =~= seq![]);
    } else {
        let x = field_bytes(fs[0]);
        let rest = fields_bytes(fs.drop_first());
        assert(writable(fs[0]));
        lemma_subrange_of(b, i, fields_bytes(fs), 0, x.len() as int);
        assert(fields_bytes(fs).subrange(0, x.len() as int) =~= x);
        lemma_parse_written_field(b, i, end, fs[0]);
        lemma_subrange_of(b, i, fields_bytes(fs), x.len() as int, fields_bytes(fs).len() as int);
        assert(fields_bytes(fs).subrange(x.len() as int, fields_bytes(fs).len() as int) =~= rest);
        assert forall|k: int| 0 <= k < fs.drop_first().len() implies writable(
            #[trigger] fs.drop_first()[k],
        ) by {
            assert(fs.drop_first()[k] == fs[k + 1]);
        }
        lemma_parse_written_fields(b, i + x.len(), end, fs.drop_first());
        assert(seq![fs[0]] + fs.drop_first() =~= fs);
    }
}

proof fn lemma_fields_bytes_concat(a: Seq<Field>, c: Seq<Field>)
    ensures
        fields_bytes(a + c) == fields_bytes(a) + fields_bytes(c),
    decreases a.len(),
{
    if a.len() == 0 {
        assert(a + c =~= c);
        assert(seq![] + fields_bytes(c) =~= fields_bytes(c));
    } else {
        assert((a + c).drop_first() =~= a.drop_first() + c);
        lemma_fields_bytes_concat(a.drop_first(), c);
        assert(fields_bytes(a + c) =~= fields_bytes(a) + fields_bytes(c));
    }
}

/// The fields of an encoded link.
pub open spec fn link_fields(l: LinkV) -> Seq<Field> {
    seq![
        Field { num: 1, value: FieldValue::Bytes(l.target) },
        Field { num: 2, value: FieldValue::Bytes(encode_utf8(l.name)) },
        Field { num: 3, value: FieldValue::Varint(l.size) },
    ]
}

pub open spec fn link_field(l: LinkV) -> Field {
    Field { num: 2, value: FieldValue::Bytes(encode_link(l)) }
}

/// The fields of an encoded node.
pub open spec fn node_fields(n: NodeV) -> Seq<Field> {
    n.links.map_values(|l: LinkV| link_field(l)).push(
        Field { num: 1, value: FieldValue::Bytes(n.data) },
    )
}

proof fn lemma_encode_link_fields(l: LinkV)
    ensures
        encode_link(l) == fields_bytes(link_fields(l)),
{
    let fs = link_fields(l);
    reveal_with_fuel(fields_bytes, 4);
    assert(fs.drop_first().drop_first().drop_first() =~= seq![]);
    assert(fs.drop_first().drop_first() =~= seq![fs[2]]);
    assert(fs.drop_first() =~= seq![fs[1], fs[2]]);
    assert(fields_bytes(fs) =~= encode_link(l));
}

proof fn lemma_encode_links_fields(ls: Seq<LinkV>)
    ensures
        encode_links(ls) == fields_bytes(ls.map_values(|l: LinkV| link_field(l))),
    decreases ls.len(),
{
    let fs = ls.map_values(|l: LinkV| link_field(l));
    if ls.len() == 0 {
        assert(fs =~= seq![]);
    } else {
        lemma_encode_links_fields(ls.drop_last());
        let init = ls.drop_last().map_values(|l: LinkV| link_field(l));
        assert(fs =~= init + seq![link_field(ls.last())]);
        lemma_fields_bytes_concat(init, seq![link_field(ls.last())]);
        let one = seq![link_field(ls.last())];
        assert(one.drop_first() =~= seq![]);
        assert(fields_bytes(one.drop_first()) == Seq::<u8>::empty());
        assert(fields_bytes(one) =~= field_bytes(link_field(ls.last())));
    }
}

proof fn lemma_encode_node_fields(n: NodeV)
    ensures
        encode_node(n) == fields_bytes(node_fields(n)),
{
    let init = n.links.map_values(|l: LinkV| link_field(l));
    let last = Field { num: 1, value: FieldValue::Bytes(n.data) };
    lemma_encode_links_fields(n.links);
    assert(node_fields(n) =~= init + seq![last]);
    lemma_fields_bytes_concat(init, seq![last]);
    assert(seq![last].drop_first() =~= seq![]);
    assert(fields_bytes(seq![last].drop_first()) == Seq::<u8>::empty());
    assert(fields_bytes(seq![last]) =~= field_bytes(last));
}

proof fn lemma_fields_bytes_len(fs: Seq<Field>, k: int)
    requires
        0 <= k < fs.len(),
    ensures
        fields_bytes(fs).len() >= field_bytes(fs[k]).len(),
    decreases fs.len(),
{
    if k > 0 {
        lemma_fields_bytes_len(fs.drop_first(), k - 1);
    }
}

/// The fields of a link as read back from the wire.
pub open spec fn parts_of(l: LinkV) -> LinkParts {
    LinkParts { target: Some(l.target), name: Some(l.name), size: Some(l.size) }
}

proof fn lemma_wire_link_written(l: LinkV)
    requires
        encode_link(l).len() <= u32::MAX,
    ensures
        wire_link(encode_link(l)) == Some(parts_of(l)),
{
    reveal(wire_link);
    let fs = link_fields(l);
    let b = encode_link(l);
    lemma_encode_link_fields(l);
    lemma_fields_bytes_len(fs, 0);
    lemma_fields_bytes_len(fs, 1);
    assert forall|k: int| 0 <= k < fs.len() implies writable(#[trigger] fs[k]) by {}
    assert(b.subrange(0, b.len() as int) =~= b);
    lemma_parse_written_fields(b, 0, b.len() as int, fs);
    encode_utf8_valid_utf8(l.name);
    encode_utf8_decode_utf8(l.name);
    reveal_with_fuel(link_fold, 4);
    assert(fs.drop_last().drop_last().drop_last() =~= seq![]);
    assert(fs.drop_last().drop_last().last() == fs[0]);
    assert(fs.drop_last().last() == fs[1]);
    assert(link_fold(fs.drop_last().drop_last()) == Some(
        LinkParts { target: Some(l.target), name: None, size: None },
    ));
    assert(link_fold(fs.drop_last()) == Some(
        LinkParts { target: Some(l.target), name: Some(l.name), size: None },
    ));
}

/// The encoded link reads back as its fields.
#[verifier::opaque]
spec fn link_reads_back(l: LinkV) -> bool {
    wire_link(encode_link(l)) == Some(parts_of(l))
}

proof fn lemma_node_step_link(st: WireNode, l: LinkV)
    requires
        link_reads_back(l),
    ensures
        node_step(st, link_field(l)) == Some(WireNode { links: st.links.push(parts_of(l)), data: st.data }),
{
    reveal(link_reads_back);
}

proof fn lemma_node_fold_links(ls: Seq<LinkV>)
    requires
        forall|j: int| 0 <= j < ls.len() ==> link_reads_back(#[trigger] ls[j]),
    ensures
        node_fold(ls.map_values(|l: LinkV| link_field(l))) == Some(
            WireNode { links: ls.map_values(|l: LinkV| parts_of(l)), data: seq![] },
        ),
    decreases ls.len(),
{
    let fs = ls.map_values(|l: LinkV| link_field(l));
    if ls.len() == 0 {
        assert(fs =~= seq![]);
        assert(ls.map_values(|l: LinkV| parts_of(l)) =~= seq![]);
    } else {
        let init = ls.drop_last();
        assert forall|j: int| 0 <= j < init.len() implies link_reads_back(#[trigger] init[j]) by {
            assert(init[j] == ls[j]);
        }
        lemma_node_fold_links(init);
        let last = ls[ls.len() - 1];
        assert(fs.drop_last() =~= init.map_values(|l: LinkV| link_field(l)));
        assert(fs.last() == link_field(last));
        assert(link_reads_back(last));
        let pinit = init.map_values(|l: LinkV| parts_of(l));
        assert(node_fold(fs.drop_last()) == Some(WireNode { links: pinit, data: seq![] }));
        lemma_node_step_link(WireNode { links: pinit, data: seq![] }, last);
        assert(node_fold(fs) == Some(WireNode { links: pinit.push(parts_of(last)), data: seq![] }));
        assert(ls.map_values(|l: LinkV| parts_of(l)) =~= pinit.push(parts_of(last)));
    }
}

proof fn lemma_wire_node_written(n: NodeV)
    requires
        encode_node(n).len() <= u32::MAX,
    ensures
        wire_node(encode_node(n)) == Some(
            WireNode { links: n.links.map_values(|l: LinkV| parts_of(l)), data: n.data },
        ),
{
    let fs = node_fields(n);
    let init = n.links.map_values(|l: LinkV| link_field(l));
    let b = encode_node(n);
    lemma_encode_node_fields(n);
    assert forall|k: int| 0 <= k < fs.len() implies writable(#[trigger] fs[k]) by {
        lemma_fields_bytes_len(fs, k);
    }
    assert forall|j: int| 0 <= j < n.links.len() implies link_reads_back(#[trigger] n.links[j]) by {
        reveal(link_reads_back);
        assert(fs[j] == link_field(n.links[j]));
        lemma_fields_bytes_len(fs, j);
        lemma_wire_link_written(n.links[j]);
    }
    assert(b.subrange(0, b.len() as int) =~= b);
    lemma_parse_written_fields(b, 0, b.len() as int, fs);
    lemma_node_fold_links(n.links);
    assert(fs.drop_last() =~= init);
}

/// Decoding the encoding of a node gives the node back: its links in order,
/// with their identifiers, names and sizes, and its data. It holds of every
/// node whose targets are serialized identifiers, as those of every `PbNode`
/// are (`PbNode::confirm_targets_valid`), and whose encoding is within the
/// 32-bit lengths that protobuf reads.
pub proof fn law_wire_round_trip(n: NodeV)
    requires
        targets_valid(n.links),
        encode_node(n).len() <= u32::MAX,
    ensures
        decode(encode_node(n)) == Ok::<NodeV, DecodeError>(n),
{
    lemma_wire_node_written(n);
    let ps = n.links.map_values(|l: LinkV| parts_of(l));
    assert forall|j: int| 0 <= j < ps.len() implies (#[trigger] cid_canonical(hash_bytes(ps[j])))
        is Some by {
        assert(ps[j] == parts_of(n.links[j]));
        assert(is_cid_bytes(n.links[j].target));
    }
    assert(all_cids_read(ps));
    assert forall|j: int| 0 <= j < ps.len() implies (#[trigger] ps[j]).name is Some && ps[j].size
        is Some by {
        assert(ps[j] == parts_of(n.links[j]));
    }
    assert(all_complete(ps));
    assert(ps.map_values(|l: LinkParts| finished_link(l)) =~= n.links) by {
        assert forall|j: int| 0 <= j < n.links.len() implies finished_link(ps[j]) == n.links[j] by {
            assert(ps[j] == parts_of(n.links[j]));
            assert(is_cid_bytes(n.links[j].target));
        }
    }
}

proof fn lemma_parse_prefix_fails(b: Seq<u8>, i: int, end: int, fs: Seq<Field>)
    requires
        forall|k: int| 0 <= k < fs.len() ==> writable(#[trigger] fs[k]),
        0 <= i,
        i + fields_bytes(fs).len() < end <= b.len(),
        b.subrange(i, i + fields_bytes(fs).len()) == fields_bytes(fs),
        parse_fields(b, i + fields_bytes(fs).len(), end) is None,
    ensures
        parse_fields(b, i, end) is None,
    decreases fs.len(),
{
    if fs.len() > 0 {
        let x = field_bytes(fs[0]);
        let all = fields_bytes(fs);
        let rest = fields_bytes(fs.drop_first());
        assert(writable(fs[0]));
        assert(all == x + rest);
        lemma_subrange_of(b, i, all, 0, x.len() as int);
        assert(all.subrange(0, x.len() as int) =~= x);
        lemma_parse_written_field(b, i, end, fs[0]);
        lemma_subrange_of(b, i, all, x.len() as int, all.len() as int);
        assert(all.subrange(x.len() as int, all.len() as int) =~= rest);
        assert forall|k: int| 0 <= k < fs.drop_first().len() implies writable(
            #[trigger] fs.drop_first()[k],
        ) by {
            assert(fs.drop_first()[k] == fs[k + 1]);
        }
        lemma_parse_prefix_fails(b, i + x.len(), end, fs.drop_first());
    }
}

/// Bytes cut short inside a field do not decode: an encoded node followed by
/// the lone key of a field that carries a value (wire type 0, 1, 2 or 5) fails
/// with `MalformedWireBytes`.
pub proof fn law_truncated_field_fails(n: NodeV, key: u8)
    requires
        encode_node(n).len() <= u32::MAX,
        8 <= key < 128,
        key % 8 == 0 || key % 8 == 1 || key % 8 == 2 || key % 8 == 5,
    ensures
        decode(encode_node(n).push(key)) == Err::<NodeV, DecodeError>(DecodeError::MalformedWireBytes),
{
    let e = encode_node(n);
    let b = e.push(key);
    let fs = node_fields(n);
    let m = e.len() as int;
    lemma_encode_node_fields(n);
    assert forall|k: int| 0 <= k < fs.len() implies writable(#[trigger] fs[k]) by {
        lemma_fields_bytes_len(fs, k);
    }
    assert(b.subrange(0, m) =~= e);
    lemma_lone_key_fails(b, m, key);
    lemma_parse_prefix_fails(b, 0, m + 1, fs);
    assert(wire_node(b) is None);
}

proof fn lemma_lone_key_fails(b: Seq<u8>, m: int, key: u8)
    requires
        0 <= m,
        b.len() == m + 1,
        b[m] == key,
        8 <= key < 128,
        key % 8 == 0 || key % 8 == 1 || key % 8 == 2 || key % 8 == 5,
    ensures
        parse_fields(b, m, m + 1) is None,
{
    assert(read_varint(b, m, m + 1, 10) == Some((key as nat, 1nat)));
    assert(read_varint(b, m + 1, m + 1, 10) is None);
    assert(parse_key(b, m, m + 1) == Some(((key / 8) as u64, (key % 8) as u64, m + 1)));
    assert(parse_field(b, m, m + 1) is None);
}

/// The round trip for every `PbNode`: its targets are identifiers by the
/// invariant of `ContentId`, so decoding its encoding gives it back wherever
/// the encoding is within the 32-bit lengths that protobuf reads.
pub fn law_wire_round_trip_node(node: &PbNode)
    ensures
        encode_node(node@).len() <= u32::MAX ==> decode(encode_node(node@)) == Ok::<NodeV, DecodeError>(node@),
{
    node.confirm_targets_valid();
    proof {
        if encode_node(node@).len() <= u32::MAX {
            law_wire_round_trip(node@);
        }
    }
}

/// Encoding then decoding keeps the order of the links: links `a`, `b`, `c`
/// come back as `a`, `b`, `c`.
pub proof fn law_wire_keeps_order(a: LinkV, b: LinkV, c: LinkV, data: Seq<u8>)
    requires
        targets_valid(seq![a, b, c]),
        encode_node(NodeV { links: seq![a, b, c], data }).len() <= u32::MAX,
    ensures
        decode(encode_node(NodeV { links: seq![a, b, c], data })) matches Ok(m) && m.links == seq![
            a,
            b,
            c,
        ],
{
    law_wire_round_trip(NodeV { links: seq![a, b, c], data });
}

} // verus!
