use bdd_codec::diagram::{Bdd, BddNode, BddPointer, BddVariable};

/// The two-node diagram used across the serialization tests:
/// node 0 = (variable 1, low 0, high 1), node 1 = (variable 2, low 1, high 0).
fn mk_small_test_bdd() -> Bdd {
    Bdd(vec![
        BddNode::mk_node(BddVariable(1), BddPointer::from_index(0), BddPointer::from_index(1)),
        BddNode::mk_node(BddVariable(2), BddPointer::from_index(1), BddPointer::from_index(0)),
    ])
}

#[test]
fn bdd_to_string() {
    let bdd = mk_small_test_bdd();
    let bdd_string = bdd.to_string();
    assert_eq!("|1,0,1|2,1,0|".to_string(), bdd_string);
}

#[test]
fn bdd_from_string() {
    let data = "|1,0,1|2,1,0|".to_string();
    let bdd = Bdd::from_string(&data);
    assert_eq!(mk_small_test_bdd(), bdd);
}

#[test]
fn bdd_to_bytes() {
    let bdd = mk_small_test_bdd();
    let bdd_bytes = bdd.to_bytes();
    assert_eq!(bdd, Bdd::from_bytes(&bdd_bytes[..]));
}

#[test]
fn binary_layout_is_ten_bytes_little_endian() {
    let bdd = mk_small_test_bdd();
    let bytes = bdd.to_bytes();
    assert_eq!(bytes.len(), 20);
    assert_eq!(&bytes[0..10], &[0x01, 0x00, 0x00, 0x00, 0x00, 0x00, 0x01, 0x00, 0x00, 0x00]);
    assert_eq!(&bytes[10..20], &[0x02, 0x00, 0x01, 0x00, 0x00, 0x00, 0x00, 0x00, 0x00, 0x00]);
    assert_eq!(mk_small_test_bdd(), Bdd::from_bytes(&bytes));
}

#[test]
fn binary_length_of_empty_diagram() {
    let empty = Bdd(vec![]);
    assert_eq!(empty.to_bytes().len(), 0);
}

#[test]
fn binary_round_trip_extreme_values() {
    let bdd = Bdd(vec![
        BddNode::mk_node(BddVariable(65535), BddPointer(4294967295), BddPointer(0)),
        BddNode::mk_node(BddVariable(0), BddPointer(0), BddPointer(4294967295)),
    ]);
    let bytes = bdd.to_bytes();
    assert_eq!(bytes.len(), 20);
    assert_eq!(bdd, Bdd::from_bytes(&bytes));
}

#[test]
fn binary_truncated_tail_is_dropped() {
    let bdd = mk_small_test_bdd();
    let mut bytes = bdd.to_bytes();
    bytes.extend_from_slice(&[0xAA, 0xBB, 0xCC, 0xDD, 0xEE]);
    let decoded = Bdd::from_bytes(&bytes);
    assert_eq!(decoded.node_count(), 2);
    assert_eq!(mk_small_test_bdd(), decoded);
}

#[test]
fn binary_short_buffer_yields_empty_diagram() {
    let decoded = Bdd::from_bytes(&[1, 2, 3, 4, 5, 6, 7, 8, 9]);
    assert_eq!(decoded.node_count(), 0);
}

#[test]
fn binary_empty_buffer_yields_empty_diagram() {
    let decoded = Bdd::from_bytes(&[]);
    assert_eq!(decoded.node_count(), 0);
}

#[test]
fn text_round_trip_extreme_values() {
    let bdd = Bdd(vec![BddNode::mk_node(
        BddVariable(65535),
        BddPointer(4294967295),
        BddPointer(0),
    )]);
    let text = bdd.to_string();
    assert_eq!("|65535,4294967295,0|", text.as_str());
    assert_eq!(bdd, Bdd::from_string(&text));
}

#[test]
fn text_of_empty_diagram_is_single_delimiter() {
    let empty = Bdd(vec![]);
    assert_eq!("|".to_string(), empty.to_string());
}

#[test]
fn text_empty_string_yields_empty_diagram() {
    let decoded = Bdd::read_as_string("").unwrap();
    assert_eq!(decoded.node_count(), 0);
}

#[test]
fn text_missing_outer_delimiters_is_accepted() {
    let decoded = Bdd::read_as_string("1,0,1|2,1,0").unwrap();
    assert_eq!(mk_small_test_bdd(), decoded);
}

#[test]
fn text_non_numeric_field_is_rejected() {
    let result = Bdd::read_as_string("|a,0,0|");
    assert_eq!(result.unwrap_err(), "invalid digit found in string".to_string());
}

#[test]
fn text_empty_field_is_rejected() {
    let result = Bdd::read_as_string("|1,,0|");
    assert_eq!(result.unwrap_err(), "cannot parse integer from empty string".to_string());
}

#[test]
fn text_variable_out_of_range_is_rejected() {
    let result = Bdd::read_as_string("|65536,0,0|");
    assert_eq!(result.unwrap_err(), "number too large to fit in target type".to_string());
}

#[test]
fn text_pointer_out_of_range_is_rejected() {
    let result = Bdd::read_as_string("|1,4294967296,0|");
    assert!(result.is_err());
}

#[test]
fn text_wrong_field_count_is_rejected() {
    assert!(Bdd::read_as_string("|1,2|").is_err());
    assert!(Bdd::read_as_string("|1,2,3,4|").is_err());
}

#[test]
fn variable_byte_conversion() {
    let var = BddVariable(258);
    let bytes = var.to_le_bytes();
    assert_eq!(bytes, [2, 1]);
    assert_eq!(var, BddVariable::from_le_bytes(bytes));
}

#[test]
fn pointer_byte_conversion() {
    let ptr = BddPointer(16909060);
    let bytes = ptr.to_le_bytes();
    assert_eq!(bytes, [4, 3, 2, 1]);
    assert_eq!(ptr, BddPointer::from_le_bytes(bytes));
}

#[test]
fn diagram_lookup_by_pointer() {
    let bdd = mk_small_test_bdd();
    assert_eq!(bdd.node_count(), 2);
    let node = bdd.node_at(BddPointer::from_index(1));
    assert_eq!(node, BddNode::mk_node(BddVariable(2), BddPointer(1), BddPointer(0)));
}
