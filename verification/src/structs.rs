use vstd::prelude::*;
use vstd::arithmetic::div_mod::{lemma_div_denominator, lemma_fundamental_div_mod};

verus! {

/// A block reference: the block id and the absolute file offset of the block.
#[derive(Debug)]
pub struct Bref {
    pub bid: u64,
    pub ib: u64,
}

/// Where a block lies in the file and how many bytes it spans.
#[derive(Debug)]
pub struct BlockInfo {
    pub offset: u64,
    pub size: usize,
}

/// A node of the node database: the type of its node id, its data block, its
/// subnode block, its parent and the subnodes found under it by node id.
#[derive(Debug)]
pub struct Node {
    /// The node id type (the low 5 bits of the node id).
    pub nid_type: u8,
    pub data_bid: u64,
    pub sub_bid: u64,
    pub parent: u32,
    pub sub_nodes: std::collections::HashMap<u32, Node>,
}

/// A heap-on-node block: its place among the blocks of the heap, its header
/// and the chunks of the BTree-on-heap that it holds.
#[derive(Debug)]
pub struct HNBlock {
    /// The position of the block in the heap; it tells the header kind (the
    /// first block has the heap header, every 128th a bitmap header).
    pub index: usize,
    pub ib_hnpm: u16,
    pub b_sig: u8,
    pub b_client_sig: u8,
    pub hid_user_root: Hid,
    pub rgb_fill_level: u32,
    pub c_alloc: u16,
    pub c_free: u16,
    pub bth_chunks: Vec<Vec<u8>>,
}

/// A heap id (HID), split into its three bit fields.
#[derive(Debug, PartialEq, Eq, Structural)]
pub struct Hid {
    pub hid: u32,
    pub hid_type: u8,
    pub hid_index: u16,
    pub hid_block_index: u16,
}

/// The low 5 bits of a heap id: its type.
pub open spec fn hid_type_of(i: u32) -> u8 {
    (i % 32) as u8
}

/// Bits 5 to 15 of a heap id: the 1-based index of the allocation in the heap page.
pub open spec fn hid_index_of(i: u32) -> u16 {
    ((i / 32) % 2048) as u16
}

/// The top 16 bits of a heap id: the index of the heap block.
pub open spec fn hid_block_index_of(i: u32) -> u16 {
    (i / 65536) as u16
}

impl Hid {
    /// Splits a raw heap id into its fields.
    pub fn new(i: u32) -> (h: Self)
        ensures
            h.hid == i,
            h.hid_type == hid_type_of(i),
            h.hid_index == hid_index_of(i),
            h.hid_block_index == hid_block_index_of(i),
    {
        let hid_type = (i & 0x1F) as u8;
        let hid_index = ((i >> 5) & 0x7FF) as u16;
        let hid_block_index = (i >> 16) as u16;
        assert(i & 0x1F == i % 32) by (bit_vector);
        assert((i >> 5) & 0x7FF == (i / 32) % 2048) by (bit_vector);
        assert(i >> 16 == i / 65536) by (bit_vector);
        Hid { hid: i, hid_type, hid_index, hid_block_index }
    }
}

/// A property tag: the property id and the property type, as the numbers that
/// the tag holds.
#[derive(Debug, PartialEq, Eq, Structural)]
pub struct Property {
    pub prop_id: u16,
    pub prop_type: u16,
}

impl Property {
    /// Reads a property tag: the id in the first two bytes, the type in the last
    /// two, each little-endian.
    pub fn new(prop_tag: [u8; 4]) -> (p: Self)
        ensures
            p.prop_id == prop_tag[0] + 256 * prop_tag[1],
            p.prop_type == prop_tag[2] + 256 * prop_tag[3],
    {
        let prop_id = prop_tag[0] as u16 + prop_tag[1] as u16 * 256;
        let prop_type = prop_tag[2] as u16 + prop_tag[3] as u16 * 256;
        Property { prop_id, prop_type }
    }
}

/// The rows of a table column that lookups read: its string values and its
/// `i32` values, where the column holds values of that type.
#[derive(Debug)]
pub struct ColumnValues {
    pub value_string: Option<Vec<String>>,
    pub value_i32: Option<Vec<i32>>,
}

/// The values of a property that the string lookup reads: its type number, its
/// string value, and its binary value where it has one.
#[derive(Debug)]
pub struct PropertyValues {
    pub prop_type: u16,
    pub value_string: String,
    pub value_binary: Option<Vec<u8>>,
}

/// A recipient of a message.
#[derive(Debug)]
pub struct Recipient {
    pub display_name: String,
    pub email_address: String,
    /// The recipient type number (originator, to, cc or bcc).
    pub recipient_type: u32,
}

/// The three fields of a heap id put back together give the heap id: the type
/// in the low 5 bits, the index in the next 11, the block index in the top 16.
pub proof fn lemma_hid_fields_recompose(i: u32)
    ensures
        hid_type_of(i) < 32,
        hid_index_of(i) < 2048,
        hid_type_of(i) + 32 * hid_index_of(i) + 65536 * hid_block_index_of(i) == i,
{
    let x = i as int;
    lemma_fundamental_div_mod(x, 32);
    lemma_fundamental_div_mod(x / 32, 2048);
    lemma_div_denominator(x, 32, 2048);
    assert(x == x % 32 + 32 * ((x / 32) % 2048) + 65536 * (x / 65536)) by (nonlinear_arith)
        requires
            x == 32 * (x / 32) + x % 32,
            x / 32 == 2048 * ((x / 32) / 2048) + (x / 32) % 2048,
            (x / 32) / 2048 == x / 65536,
    ;
}

} // verus!
