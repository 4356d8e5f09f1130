use dag_pb::generic::{map_get, text_eq, GenericValue};
use dag_pb::ident::ContentId;
use dag_pb::node::{PbLink, PbNode};
use dag_pb::wire::DecodeError;

fn cid_bytes(seed: u8) -> Vec<u8> {
    let mut b = vec![0x01, 0x55, 0x12, 0x20];
    for k in 0..32u8 {
        b.push(seed.wrapping_add(k));
    }
    b
}

fn cid(seed: u8) -> ContentId {
    ContentId::from_bytes(&cid_bytes(seed)).unwrap()
}

fn link(seed: u8, name: &str, size: u64) -> PbLink {
    PbLink { cid: cid(seed), name: name.to_string(), size }
}

fn text(s: &str) -> String {
    s.to_string()
}

fn link_map(seed: u8, name: &str, size: i128) -> GenericValue {
    GenericValue::Dict(vec![
        (text("Hash"), GenericValue::Link(cid(seed))),
        (text("Name"), GenericValue::Text(name.to_string())),
        (text("Tsize"), GenericValue::Integer(size)),
    ])
}

#[test]
fn content_id_reads_only_the_identifier() {
    let mut b = cid_bytes(7);
    b.extend_from_slice(&[9, 9, 9]);
    let c = ContentId::from_bytes(&b).unwrap();
    assert_eq!(c.to_bytes(), cid_bytes(7));
    assert_eq!(c.as_bytes(), &cid_bytes(7)[..]);
    assert_eq!(c.duplicate(), c);
}

#[test]
fn content_id_rejects_garbage() {
    assert!(ContentId::from_bytes(&[0xff, 0xff]).is_err());
    assert!(ContentId::from_bytes(&[]).is_err());
}

#[test]
fn encode_data_only_exact_bytes() {
    let node = PbNode { links: vec![], data: vec![1, 2] };
    assert_eq!(node.into_bytes(), vec![0x0a, 0x02, 1, 2]);
}

#[test]
fn encode_empty_node_exact_bytes() {
    assert_eq!(PbNode::empty().into_bytes(), vec![0x0a, 0x00]);
}

#[test]
fn encode_one_link_exact_bytes() {
    let node = PbNode { links: vec![link(0, "a", 300)], data: vec![] };
    let mut link_msg = vec![0x0a, 36];
    link_msg.extend_from_slice(&cid_bytes(0));
    link_msg.extend_from_slice(&[0x12, 0x01, b'a', 0x18, 0xac, 0x02]);
    let mut expected = vec![0x12, link_msg.len() as u8];
    expected.extend_from_slice(&link_msg);
    expected.extend_from_slice(&[0x0a, 0x00]);
    assert_eq!(node.into_bytes(), expected);
}

#[test]
fn wire_round_trip() {
    let node = PbNode {
        links: vec![link(1, "first", 10), link(2, "", u64::MAX), link(3, "ünï", 0)],
        data: vec![0, 1, 2, 255],
    };
    let decoded = PbNode::from_bytes(&node.clone().into_bytes()).unwrap();
    assert_eq!(decoded, node);
}

#[test]
fn wire_keeps_link_order() {
    let node = PbNode {
        links: vec![link(5, "C", 3), link(4, "A", 1), link(6, "B", 2)],
        data: vec![],
    };
    let decoded = PbNode::from_bytes(&node.into_bytes()).unwrap();
    let names: Vec<&str> = decoded.links.iter().map(|l| l.name.as_str()).collect();
    assert_eq!(names, vec!["C", "A", "B"]);
    assert_eq!(decoded.links[0].cid, cid(5));
    assert_eq!(decoded.links[2].size, 2);
}

#[test]
fn decode_empty_input_is_empty_node() {
    assert_eq!(PbNode::from_bytes(&[]).unwrap(), PbNode::empty());
}

#[test]
fn decode_truncated_fails() {
    assert_eq!(PbNode::from_bytes(&[0x0a]), Err(DecodeError::MalformedWireBytes));
    assert_eq!(PbNode::from_bytes(&[0x0a, 0x05, 1]), Err(DecodeError::MalformedWireBytes));
    assert_eq!(PbNode::from_bytes(&[0x80]), Err(DecodeError::MalformedWireBytes));
    let full = PbNode { links: vec![link(1, "x", 1)], data: vec![7] }.into_bytes();
    assert_eq!(
        PbNode::from_bytes(&full[..full.len() - 1]),
        Err(DecodeError::MalformedWireBytes)
    );
}

#[test]
fn decode_invalid_identifier_fails() {
    let link_msg = vec![0x0a, 0x02, 0xff, 0xff, 0x12, 0x00, 0x18, 0x00];
    let mut bytes = vec![0x12, link_msg.len() as u8];
    bytes.extend_from_slice(&link_msg);
    assert_eq!(PbNode::from_bytes(&bytes), Err(DecodeError::InvalidLinkIdentifier));
}

#[test]
fn decode_link_missing_size_fails() {
    let mut link_msg = vec![0x0a, 36];
    link_msg.extend_from_slice(&cid_bytes(0));
    link_msg.extend_from_slice(&[0x12, 0x00]);
    let mut bytes = vec![0x12, link_msg.len() as u8];
    bytes.extend_from_slice(&link_msg);
    assert_eq!(PbNode::from_bytes(&bytes), Err(DecodeError::MalformedWireBytes));
}

#[test]
fn decode_bad_utf8_name_fails() {
    let mut link_msg = vec![0x0a, 36];
    link_msg.extend_from_slice(&cid_bytes(0));
    link_msg.extend_from_slice(&[0x12, 0x01, 0xff, 0x18, 0x00]);
    let mut bytes = vec![0x12, link_msg.len() as u8];
    bytes.extend_from_slice(&link_msg);
    assert_eq!(PbNode::from_bytes(&bytes), Err(DecodeError::MalformedWireBytes));
}

#[test]
fn decode_wrong_wire_type_fails() {
    assert_eq!(PbNode::from_bytes(&[0x08, 0x01]), Err(DecodeError::MalformedWireBytes));
}

#[test]
fn decode_skips_unknown_fields() {
    let bytes = vec![0x18, 0x96, 0x01, 0x0a, 0x01, 0x2a, 0x25, 1, 2, 3, 4];
    let node = PbNode::from_bytes(&bytes).unwrap();
    assert_eq!(node.data, vec![0x2a]);
    assert!(node.links.is_empty());
}

#[test]
fn decode_reads_canonical_identifier() {
    let mut hash = cid_bytes(3);
    hash.push(0);
    let mut link_msg = vec![0x0a, hash.len() as u8];
    link_msg.extend_from_slice(&hash);
    link_msg.extend_from_slice(&[0x12, 0x00, 0x18, 0x05]);
    let mut bytes = vec![0x12, link_msg.len() as u8];
    bytes.extend_from_slice(&link_msg);
    let node = PbNode::from_bytes(&bytes).unwrap();
    assert_eq!(node.links[0].cid.to_bytes(), cid_bytes(3));
    assert_eq!(node.links[0].size, 5);
}

#[test]
fn generic_projection_shape() {
    let v = PbNode { links: vec![link(1, "n", 4)], data: vec![9] }.into_generic();
    match &v {
        GenericValue::Dict(m) => {
            assert_eq!(m.len(), 2);
            assert_eq!(m[0].0, "Links");
            assert_eq!(m[1].0, "Data");
            assert_eq!(m[1].1, GenericValue::Bytes(vec![9]));
            match &m[0].1 {
                GenericValue::List(items) => {
                    assert_eq!(items.len(), 1);
                    assert_eq!(items[0], link_map(1, "n", 4));
                }
                _ => panic!("Links is not a list"),
            }
        }
        _ => panic!("not a map"),
    }
}

#[test]
fn link_projection_shape() {
    assert_eq!(link(2, "x", 8).into_generic(), link_map(2, "x", 8));
}

#[test]
fn generic_round_trip() {
    let node = PbNode {
        links: vec![link(1, "a", 1), link(2, "b", u64::MAX), link(3, "", 0)],
        data: vec![4, 5, 6],
    };
    let v = node.clone().into_generic();
    assert_eq!(PbNode::from_generic(&v), node);
}

#[test]
fn generic_recovery_drops_malformed_link() {
    let broken = GenericValue::Dict(vec![
        (text("Hash"), GenericValue::Link(cid(8))),
        (text("Name"), GenericValue::Text(text("broken"))),
    ]);
    let v = GenericValue::Dict(vec![
        (text("Links"), GenericValue::List(vec![link_map(7, "good", 3), broken])),
        (text("Data"), GenericValue::Bytes(vec![1])),
    ]);
    let node = PbNode::from_generic(&v);
    assert_eq!(node.links, vec![link(7, "good", 3)]);
    assert_eq!(node.data, vec![1]);
}

#[test]
fn generic_recovery_of_non_map_is_empty() {
    let node = PbNode::from_generic(&GenericValue::byte_string(b"x"));
    assert!(node.links.is_empty());
    assert!(node.data.is_empty());
}

#[test]
fn generic_recovery_defaults() {
    let v = GenericValue::Dict(vec![
        (text("Links"), GenericValue::Text(text("no"))),
        (text("Data"), GenericValue::Integer(3)),
    ]);
    assert_eq!(PbNode::from_generic(&v), PbNode::empty());
    assert_eq!(PbNode::from_generic(&GenericValue::Dict(vec![])), PbNode::empty());
}

#[test]
fn generic_link_checks_kinds_and_range() {
    assert!(PbLink::from_generic(&link_map(1, "a", -1)).is_none());
    assert!(PbLink::from_generic(&link_map(1, "a", u64::MAX as i128 + 1)).is_none());
    assert_eq!(PbLink::from_generic(&link_map(1, "a", 12)), Some(link(1, "a", 12)));
    let wrong = GenericValue::Dict(vec![
        (text("Hash"), GenericValue::Bytes(cid_bytes(1))),
        (text("Name"), GenericValue::Text(text("a"))),
        (text("Tsize"), GenericValue::Integer(1)),
    ]);
    assert!(PbLink::from_generic(&wrong).is_none());
    assert!(PbLink::from_generic(&GenericValue::Null).is_none());
}

#[test]
fn generic_lookup() {
    let entries = vec![
        (text("a"), GenericValue::Integer(1)),
        (text("b"), GenericValue::Bool(true)),
    ];
    assert_eq!(map_get(&entries, "b"), Some(&GenericValue::Bool(true)));
    assert_eq!(map_get(&entries, "c"), None);
    let v = GenericValue::Dict(entries);
    assert_eq!(v.get("a"), Some(&GenericValue::Integer(1)));
    assert!(v.as_map().is_some());
    assert!(v.as_list().is_none());
    assert!(text_eq("Hash", "Hash"));
    assert!(!text_eq("Hash", "Hasg"));
    assert!(!text_eq("Hash", "Has"));
}

#[test]
fn decode_ten_byte_size_wraps_like_protobuf() {
    let mut link_msg = vec![0x0a, 36];
    link_msg.extend_from_slice(&cid_bytes(0));
    link_msg.extend_from_slice(&[0x12, 0x00, 0x18]);
    link_msg.extend_from_slice(&[0xff, 0xff, 0xff, 0xff, 0xff, 0xff, 0xff, 0xff, 0xff, 0x7f]);
    let mut bytes = vec![0x12, link_msg.len() as u8];
    bytes.extend_from_slice(&link_msg);
    let node = PbNode::from_bytes(&bytes).unwrap();
    assert_eq!(node.links[0].size, u64::MAX);
}

#[test]
fn decode_eleven_byte_varint_fails() {
    let bytes = vec![0x18, 0x80, 0x80, 0x80, 0x80, 0x80, 0x80, 0x80, 0x80, 0x80, 0x80, 0x00];
    assert_eq!(PbNode::from_bytes(&bytes), Err(DecodeError::MalformedWireBytes));
}

#[test]
fn generic_accessors() {
    assert_eq!(GenericValue::Integer(5).as_u64(), Some(5));
    assert_eq!(GenericValue::Integer(-5).as_u64(), None);
    assert_eq!(GenericValue::Null.as_u64(), None);
    assert_eq!(GenericValue::byte_string(b"ab").as_bytes(), Some(&vec![b'a', b'b']));
    assert_eq!(GenericValue::Bool(false).as_bytes(), None);
}

#[test]
fn decode_empty_hash_without_name_or_size_is_invalid_identifier() {
    assert_eq!(
        PbNode::from_bytes(&[0x12, 0x02, 0x0a, 0x00]),
        Err(DecodeError::InvalidLinkIdentifier)
    );
}

#[test]
fn decode_absent_hash_is_invalid_identifier() {
    assert_eq!(
        PbNode::from_bytes(&[0x12, 0x04, 0x12, 0x00, 0x18, 0x01]),
        Err(DecodeError::InvalidLinkIdentifier)
    );
}

#[test]
fn decode_link_missing_name_fails() {
    let mut link_msg = vec![0x0a, 36];
    link_msg.extend_from_slice(&cid_bytes(0));
    link_msg.extend_from_slice(&[0x18, 0x01]);
    let mut bytes = vec![0x12, link_msg.len() as u8];
    bytes.extend_from_slice(&link_msg);
    assert_eq!(PbNode::from_bytes(&bytes), Err(DecodeError::MalformedWireBytes));
}

#[test]
fn decode_skips_unknown_empty_group() {
    assert_eq!(PbNode::from_bytes(&[0x1b, 0x1c]).unwrap(), PbNode::empty());
}

#[test]
fn decode_skips_unknown_group_with_fields() {
    let bytes = vec![0x0a, 0x01, 0x07, 0x1b, 0x08, 0x05, 0x12, 0x01, 0x00, 0x1c];
    let node = PbNode::from_bytes(&bytes).unwrap();
    assert_eq!(node.data, vec![0x07]);
}

#[test]
fn decode_skips_unknown_group_in_link() {
    let node = PbNode { links: vec![link(1, "g", 2)], data: vec![] };
    let encoded = node.clone().into_bytes();
    // the link message starts after its tag and one-byte length
    let link_len = encoded[1] as usize;
    let mut link_msg = encoded[2..2 + link_len].to_vec();
    link_msg.extend_from_slice(&[0x23, 0x24]);
    let mut bytes = vec![0x12, link_msg.len() as u8];
    bytes.extend_from_slice(&link_msg);
    bytes.extend_from_slice(&encoded[2 + link_len..]);
    assert_eq!(PbNode::from_bytes(&bytes).unwrap(), node);
}

#[test]
fn decode_group_errors() {
    // a group nested in a skipped group
    assert_eq!(PbNode::from_bytes(&[0x1b, 0x23, 0x24, 0x1c]), Err(DecodeError::MalformedWireBytes));
    // a group that never ends
    assert_eq!(PbNode::from_bytes(&[0x1b, 0x08, 0x01]), Err(DecodeError::MalformedWireBytes));
    // an end-group key outside a group
    assert_eq!(PbNode::from_bytes(&[0x1c]), Err(DecodeError::MalformedWireBytes));
    // a known field written as a group
    assert_eq!(PbNode::from_bytes(&[0x0b, 0x0c]), Err(DecodeError::MalformedWireBytes));
}

#[test]
fn every_node_has_valid_targets() {
    let node = PbNode { links: vec![link(1, "a", 1), link(2, "b", 2)], data: vec![3] };
    node.confirm_targets_valid();
    dag_pb::roundtrip::law_wire_round_trip_node(&node);
    let copy = node.links[0].cid.clone();
    assert_eq!(copy.to_bytes(), cid_bytes(1));
}

#[test]
fn decode_encoding_with_lone_key_fails() {
    let mut bytes = PbNode { links: vec![link(1, "a", 1)], data: vec![3] }.into_bytes();
    bytes.push(0x12);
    assert_eq!(PbNode::from_bytes(&bytes), Err(DecodeError::MalformedWireBytes));
}
