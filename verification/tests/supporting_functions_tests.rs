use pst_utils::consts::{MPBB_I, MPBB_R};
use std::collections::HashMap;

use pst_utils::structs::{ColumnValues, PropertyValues};
use pst_utils::supporting_functions::{
    bid_from_u64, decode_permute, get_bref, get_column_entry_i32, get_column_entry_string, get_tables, is_magic_bytes,
    get_prop_string, LookupError, PROP_TYPE_BINARY,
};

#[test]
fn bid_ignores_top_two_bits() {
    assert_eq!(bid_from_u64(0xC000_0000_0000_0004), 4);
    assert_eq!(bid_from_u64(0x4000_0000_0000_0021), 0x21);
    assert_eq!(bid_from_u64(0x3FFF_FFFF_FFFF_FFFF), 0x3FFF_FFFF_FFFF_FFFF);
    assert_eq!(bid_from_u64(u64::MAX), 0x3FFF_FFFF_FFFF_FFFF);
}

#[test]
fn bid_is_idempotent() {
    for raw in [0u64, 1, 0x8000_0000_0000_0000, 0xFFFF_0000_1234_5678, u64::MAX] {
        let once = bid_from_u64(raw);
        assert_eq!(bid_from_u64(once), once);
        assert!(once < 0x4000_0000_0000_0000);
    }
}

#[test]
fn bref_reads_two_little_endian_words() {
    let bytes: [u8; 16] = [
        0x04, 0x00, 0x00, 0x00, 0x00, 0x00, 0x00, 0xC0, 0x00, 0x44, 0x00, 0x00, 0x00, 0x00, 0x00, 0x00,
    ];
    let bref = get_bref(bytes);
    assert_eq!(bref.bid, 4);
    assert_eq!(bref.ib, 0x4400);
}

#[test]
fn magic_bytes_are_recognised() {
    assert!(is_magic_bytes(&[0x21, 0x42, 0x44, 0x4E]));
    assert!(!is_magic_bytes(&[0x21, 0x42, 0x44, 0x4F]));
    assert!(!is_magic_bytes(&[0x21, 0x42, 0x44]));
    assert!(!is_magic_bytes(&[0x21, 0x42, 0x44, 0x4E, 0x00]));
}

#[test]
fn tables_are_inverse_permutations() {
    let (forward, inverse) = get_tables();
    assert_eq!(forward[0], 65);
    assert_eq!(inverse[0], 71);
    for b in 0..=255u8 {
        assert_eq!(inverse[forward[b as usize] as usize], b);
        assert_eq!(forward[inverse[b as usize] as usize], b);
    }
}

#[test]
fn decode_permute_maps_through_inverse_table() {
    let mut data = vec![65u8, 54, 19, 98, 0];
    decode_permute(&mut data);
    assert_eq!(data, vec![0u8, 1, 2, 3, 71]);
}

#[test]
fn decode_permute_undoes_encoding() {
    let plain: Vec<u8> = b"Subject: hello".to_vec();
    let mut data: Vec<u8> = plain.iter().map(|b| MPBB_R[*b as usize]).collect();
    assert_ne!(data, plain);
    decode_permute(&mut data);
    assert_eq!(data, plain);
    assert_eq!(MPBB_I[MPBB_R[200] as usize], 200);
}

#[test]
fn decode_permute_of_nothing() {
    let mut data: Vec<u8> = Vec::new();
    decode_permute(&mut data);
    assert!(data.is_empty());
}

fn columns() -> HashMap<u16, ColumnValues> {
    let mut columns = HashMap::new();
    columns.insert(0x0037, ColumnValues { value_string: Some(vec!["a".to_string(), "b".to_string()]), value_i32: None });
    columns.insert(0x0E08, ColumnValues { value_string: None, value_i32: Some(vec![10, 20, 30]) });
    columns
}

#[test]
fn column_strings_are_looked_up() {
    let columns = columns();
    assert_eq!(get_column_entry_string(&columns, 0x0037, 1), Ok("b".to_string()));
    assert_eq!(get_column_entry_string(&columns, 0x0E08, 0), Err(LookupError::NoRows));
    assert_eq!(get_column_entry_string(&columns, 0x1000, 0), Err(LookupError::NoColumn(0x1000)));
}

#[test]
fn column_i32s_are_looked_up() {
    let columns = columns();
    assert_eq!(get_column_entry_i32(&columns, 0x0E08, 2), Ok(30));
    assert_eq!(get_column_entry_i32(&columns, 0x0037, 0), Err(LookupError::NoRows));
    assert_eq!(get_column_entry_i32(&columns, 7, 0), Err(LookupError::NoColumn(7)));
}

#[test]
fn property_strings_are_looked_up() {
    let mut props = HashMap::new();
    props.insert(0x0037u16, PropertyValues { prop_type: 0x001F, value_string: "Hello".to_string(), value_binary: None });
    props.insert(
        0x007Du16,
        PropertyValues { prop_type: PROP_TYPE_BINARY, value_string: String::new(), value_binary: Some(b"Received: x".to_vec()) },
    );
    props.insert(
        0x1000u16,
        PropertyValues { prop_type: PROP_TYPE_BINARY, value_string: String::new(), value_binary: Some(vec![0x61, 0xFF, 0x62]) },
    );
    assert_eq!(get_prop_string(&props, &0x0037), "Hello");
    assert_eq!(get_prop_string(&props, &0x007D), "Received: x");
    assert_eq!(get_prop_string(&props, &0x1000), "a\u{FFFD}b");
    assert_eq!(get_prop_string(&props, &0x0001), "");
}
