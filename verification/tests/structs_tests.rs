use std::collections::HashMap;

use pst_utils::structs::{Bref, BlockInfo, HNBlock, Hid, Node, Property, Recipient};

#[test]
fn test_new_hid_a() {
    let hid_bytes = vec![0x40, 0x00, 0x00, 0x00];
    // little-endian byte order = 00 00 00 40
    // bits = 0000 0000 0000 0000 : 0000 0000 010 : 0 0000
    let hid_value: u32 = u32::from_le_bytes(hid_bytes.try_into().unwrap());
    let hid = Hid::new(hid_value);
    let result = Hid { hid: hid_value, hid_type: 0, hid_index: 2, hid_block_index: 0 };
    assert_eq!(hid, result);
}

#[test]
fn test_new_hid_b() {
    let hid_bytes = vec![0xE0, 0x00, 0x01, 0x00];
    // little-endian byte order, 2-byte chunks = 00 01 00 E0
    // bits = 0000 0000 0000 0001 : 0000 0000 111 : 0 0000
    let hid_value: u32 = u32::from_le_bytes(hid_bytes.try_into().unwrap());
    let hid = Hid::new(hid_value);
    let result = Hid { hid: hid_value, hid_type: 0, hid_index: 7, hid_block_index: 1 };
    assert_eq!(hid, result);
}

#[test]
fn hid_all_fields_set() {
    let hid = Hid::new(0xFFFF_FFFF);
    assert_eq!(hid, Hid { hid: 0xFFFF_FFFF, hid_type: 31, hid_index: 2047, hid_block_index: 0xFFFF });
}

#[test]
fn hid_fields_recompose() {
    for raw in [0u32, 1, 0x1F, 0x20, 0x7FE0, 0x1_0000, 0x1234_5678, 0xDEAD_BEEF] {
        let hid = Hid::new(raw);
        let back = hid.hid_type as u32 + 32 * hid.hid_index as u32 + 65536 * hid.hid_block_index as u32;
        assert_eq!(back, raw);
        assert!(hid.hid_type < 32);
        assert!(hid.hid_index < 2048);
    }
}

#[test]
fn plain_structs_hold_their_fields() {
    let bref = Bref { bid: 4, ib: 0x4400 };
    assert_eq!(bref.bid, 4);
    assert_eq!(bref.ib, 0x4400);
    let info = BlockInfo { offset: 512, size: 64 };
    assert_eq!(info.offset, 512);
    assert_eq!(info.size, 64);
    let block = HNBlock {
        index: 0,
        ib_hnpm: 0x20,
        b_sig: 0xEC,
        b_client_sig: 0xBC,
        hid_user_root: Hid::new(0x20),
        rgb_fill_level: 0,
        c_alloc: 2,
        c_free: 0,
        bth_chunks: vec![vec![1, 2], vec![3]],
    };
    assert_eq!(block.hid_user_root.hid_index, 1);
    assert_eq!(block.bth_chunks.len(), 2);
}

#[test]
fn property_tag_is_read_little_endian() {
    // PidTagSubject, PtypString: tag 0x0037001F
    let p = Property::new([0x37, 0x00, 0x1F, 0x00]);
    assert_eq!(p, Property { prop_id: 0x0037, prop_type: 0x001F });
    let p = Property::new([0x02, 0x10, 0x02, 0x01]);
    assert_eq!(p.prop_id, 0x1002);
    assert_eq!(p.prop_type, 0x0102);
}

#[test]
fn nodes_and_recipients_hold_their_fields() {
    let mut sub_nodes = HashMap::new();
    sub_nodes.insert(
        0x21u32,
        Node { nid_type: 1, data_bid: 8, sub_bid: 0, parent: 0x122, sub_nodes: HashMap::new() },
    );
    let node = Node { nid_type: 4, data_bid: 4, sub_bid: 6, parent: 0x8022, sub_nodes };
    assert_eq!(node.sub_nodes[&0x21].data_bid, 8);
    assert_eq!(node.nid_type, 4);
    let r = Recipient {
        display_name: "A".to_string(),
        email_address: "a@example.com".to_string(),
        recipient_type: 1,
    };
    assert_eq!(r.recipient_type, 1);
    assert_eq!(r.email_address, "a@example.com");
}
