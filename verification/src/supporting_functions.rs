//! Decoding of the fixed-size values that PST structures are made of, and of
//! permute-encoded block data.

use vstd::prelude::*;
use crate::consts::{MPBB_I, MPBB_R};
use crate::structs::{Bref, ColumnValues, PropertyValues};
use std::collections::HashMap;
use vstd::utf8::{decode_utf8, valid_utf8};

verus! {

/// Why a value could not be read from the columns of a table.
#[derive(Clone, Copy, Debug, PartialEq, Eq, Structural)]
pub enum LookupError {
    /// The table has no column for this property id.
    NoColumn(u16),
    /// The column holds no rows of the requested type.
    NoRows,
}

/// The block id that a raw 64-bit value holds: all but its top two bits.
pub open spec fn bid_of(input: u64) -> u64 {
    (input % 0x4000_0000_0000_0000) as u64
}

/// The value of the eight bytes at `at`, least significant byte first.
pub open spec fn le_u64_at(s: Seq<u8>, at: int) -> int {
    s[at] + s[at + 1] * 0x100 + s[at + 2] * 0x1_0000 + s[at + 3] * 0x100_0000 + s[at + 4]
        * 0x1_0000_0000 + s[at + 5] * 0x100_0000_0000 + s[at + 6] * 0x1_0000_0000_0000 + s[at
        + 7] * 0x100_0000_0000_0000
}

/// The four bytes `!BDN` that every PST file begins with.
pub open spec fn magic_bytes() -> Seq<u8> {
    seq![33u8, 66, 68, 78]
}

/// The byte that `MPBB_I` decodes `b` to.
pub open spec fn decode_permute_byte(b: u8) -> u8 {
    MPBB_I@[b as int]
}

/// The byte that `MPBB_R` encodes `b` to.
pub open spec fn encode_permute_byte(b: u8) -> u8 {
    MPBB_R@[b as int]
}

/// Whether the first four bytes of a file are the PST magic bytes.
pub fn is_magic_bytes(buffer: &[u8]) -> (r: bool)
    ensures
        r == (buffer@ == magic_bytes()),
{
    if buffer.len() == 4 && buffer[0] == 33u8 && buffer[1] == 66u8 && buffer[2] == 68u8
        && buffer[3] == 78u8 {
        assert(buffer@ =~= magic_bytes());
        true
    } else {
        assert(magic_bytes().len() == 4 && magic_bytes()[0] == 33 && magic_bytes()[1] == 66
            && magic_bytes()[2] == 68 && magic_bytes()[3] == 78);
        false
    }
}

/// The block id in a raw 64-bit value: the top two bits are ignored.
pub fn bid_from_u64(input: u64) -> (r: u64)
    ensures
        r == bid_of(input),
{
    assert(input & !(3u64 << 62u64) == input % 0x4000_0000_0000_0000) by (bit_vector);
    input & !(0b11u64 << 62u64)
}

/// Reads the eight bytes at `at` as a little-endian `u64`.
fn read_u64_le(bytes: &[u8], at: usize) -> (r: u64)
    requires
        at + 8 <= bytes@.len(),
    ensures
        r == le_u64_at(bytes@, at as int),
{
    bytes[at] as u64 + bytes[at + 1] as u64 * 0x100 + bytes[at + 2] as u64 * 0x1_0000
        + bytes[at + 3] as u64 * 0x100_0000 + bytes[at + 4] as u64 * 0x1_0000_0000 + bytes[at
        + 5] as u64 * 0x100_0000_0000 + bytes[at + 6] as u64 * 0x1_0000_0000_0000 + bytes[at
        + 7] as u64 * 0x100_0000_0000_0000
}

/// A block reference from its 16 bytes: the block id (little-endian, top two
/// bits ignored), then the file offset (little-endian).
pub fn get_bref(bytes: [u8; 16]) -> (r: Bref)
    ensures
        r.bid == bid_of(le_u64_at(bytes@, 0) as u64),
        r.ib == le_u64_at(bytes@, 8),
{
    let all: &[u8] = bytes.as_slice();
    Bref { bid: bid_from_u64(read_u64_le(all, 0)), ib: read_u64_le(all, 8) }
}

/// The encoding table and the decoding table of the permutation.
pub fn get_tables() -> (r: (&'static [u8; 256], &'static [u8; 256]))
    ensures
        r.0@ == MPBB_R@,
        r.1@ == MPBB_I@,
{
    (&MPBB_R, &MPBB_I)
}

/// Decodes permute-encoded data in place: each byte goes through `MPBB_I`.
pub fn decode_permute(data: &mut [u8])
    ensures
        final(data)@ == old(data)@.map_values(|b: u8| decode_permute_byte(b)),
{
    let (_, inverse) = get_tables();
    let mut k: usize = 0;
    while k < data.len()
        invariant
            k <= data@.len(),
            inverse@ == MPBB_I@,
            data@.len() == old(data)@.len(),
            forall|j: int| 0 <= j < k ==> data@[j] == decode_permute_byte(#[trigger] old(data)@[j]),
            forall|j: int| k <= j < data@.len() ==> data@[j] == old(data)@[j],
        decreases data.len() - k,
    {
        let b = data[k];
        data[k] = inverse[b as usize];
        k += 1;
    }
    assert(data@ =~= old(data)@.map_values(|b: u8| decode_permute_byte(b)));
}

/// The string in row `irow` of the column of `prop_id`.
pub fn get_column_entry_string(
    column_entries: &HashMap<u16, ColumnValues>,
    prop_id: u16,
    irow: usize,
) -> (r: Result<String, LookupError>)
    requires
        column_entries@.contains_key(prop_id) ==> (column_entries@[prop_id].value_string matches Some(
            rows,
        ) ==> irow < rows@.len()),
    ensures
        !column_entries@.contains_key(prop_id) ==> r == Err::<String, LookupError>(
            LookupError::NoColumn(prop_id),
        ),
        column_entries@.contains_key(prop_id) ==> match column_entries@[prop_id].value_string {
            Some(rows) => r matches Ok(s) && s@ == rows@[irow as int]@,
            None => r == Err::<String, LookupError>(LookupError::NoRows),
        },
{
    match column_entries.get(&prop_id) {
        Some(column_entry) => match column_entry.value_string.as_ref() {
            Some(rows) => Ok(rows[irow].clone()),
            None => Err(LookupError::NoRows),
        },
        None => Err(LookupError::NoColumn(prop_id)),
    }
}

/// The `i32` in row `irow` of the column of `prop_id`.
pub fn get_column_entry_i32(
    column_entries: &HashMap<u16, ColumnValues>,
    prop_id: u16,
    irow: usize,
) -> (r: Result<i32, LookupError>)
    requires
        column_entries@.contains_key(prop_id) ==> (column_entries@[prop_id].value_i32 matches Some(
            rows,
        ) ==> irow < rows@.len()),
    ensures
        !column_entries@.contains_key(prop_id) ==> r == Err::<i32, LookupError>(
            LookupError::NoColumn(prop_id),
        ),
        column_entries@.contains_key(prop_id) ==> match column_entries@[prop_id].value_i32 {
            Some(rows) => r == Ok::<i32, LookupError>(rows@[irow as int]),
            None => r == Err::<i32, LookupError>(LookupError::NoRows),
        },
{
    match column_entries.get(&prop_id) {
        Some(column_entry) => match column_entry.value_i32.as_ref() {
            Some(rows) => Ok(rows[irow]),
            None => Err(LookupError::NoRows),
        },
        None => Err(LookupError::NoColumn(prop_id)),
    }
}

/// The property type number of binary values (`PtypBinary`).
pub const PROP_TYPE_BINARY: u16 = 0x0102;

/// What `String::from_utf8_lossy` makes of `bytes`.
pub uninterp spec fn utf8_lossy(bytes: Seq<u8>) -> Seq<char>;

/// `String::from_utf8_lossy`: the text of `bytes` with each invalid sequence
/// replaced by U+FFFD. The contract names the result as a function of the bytes
/// and states, as the documentation does, that valid UTF-8 is decoded as it is.
#[verifier::external_body]
fn string_from_utf8_lossy(bytes: &[u8]) -> (text: String)
    ensures
        text@ == utf8_lossy(bytes@),
        valid_utf8(bytes@) ==> text@ == decode_utf8(bytes@),
{
    String::from_utf8_lossy(bytes).into_owned()
}

/// A property as a string: the binary value read as UTF-8 (invalid sequences
/// replaced) for a binary property, the string value for any other, and the
/// empty string where the property is absent.
pub fn get_prop_string(property_entries: &HashMap<u16, PropertyValues>, prop_id: &u16) -> (r: String)
    requires
        property_entries@.contains_key(*prop_id) && property_entries@[*prop_id].prop_type
            == PROP_TYPE_BINARY ==> property_entries@[*prop_id].value_binary is Some,
    ensures
        !property_entries@.contains_key(*prop_id) ==> r@ == Seq::<char>::empty(),
        property_entries@.contains_key(*prop_id) ==> {
            let entry = property_entries@[*prop_id];
            if entry.prop_type == PROP_TYPE_BINARY {
                r@ == utf8_lossy(entry.value_binary.unwrap()@)
            } else {
                r@ == entry.value_string@
            }
        },
{
    match property_entries.get(prop_id) {
        Some(property_entry) => {
            if property_entry.prop_type == PROP_TYPE_BINARY {
                match property_entry.value_binary.as_ref() {
                    Some(bytes) => string_from_utf8_lossy(bytes.as_slice()),
                    None => String::new(),
                }
            } else {
                property_entry.value_string.clone()
            }
        },
        None => String::new(),
    }
}

/// A block id has its top two bits clear, taking the block id of a block id
/// changes nothing, and a value with its top two bits clear is its own block id.
pub proof fn lemma_bid_of(input: u64)
    ensures
        bid_of(input) < 0x4000_0000_0000_0000,
        bid_of(bid_of(input)) == bid_of(input),
        input < 0x4000_0000_0000_0000 ==> bid_of(input) == input,
{
}

/// The tables undo each other on the bytes below `k`.
spec fn tables_inverse_below(k: int) -> bool
    decreases k,
{
    if k <= 0 {
        true
    } else {
        &&& MPBB_I@[MPBB_R@[k - 1] as int] == k - 1
        &&& MPBB_R@[MPBB_I@[k - 1] as int] == k - 1
        &&& tables_inverse_below(k - 1)
    }
}

proof fn lemma_tables_inverse_below_elim(k: int, b: u8)
    requires
        tables_inverse_below(k),
        b < k,
    ensures
        decode_permute_byte(encode_permute_byte(b)) == b,
        encode_permute_byte(decode_permute_byte(b)) == b,
    decreases k,
{
    if b < k - 1 {
        lemma_tables_inverse_below_elim(k - 1, b);
    }
}

/// The decoding table undoes the encoding table and the other way round: the
/// two are permutations of the bytes, each the inverse of the other.
pub proof fn lemma_permute_tables_inverse()
    ensures
        forall|b: u8| #[trigger] decode_permute_byte(encode_permute_byte(b)) == b,
        forall|b: u8| #[trigger] encode_permute_byte(decode_permute_byte(b)) == b,
{
    reveal_with_fuel(tables_inverse_below, 33);
    assert(tables_inverse_below(32));
    assert(tables_inverse_below(64));
    assert(tables_inverse_below(96));
    assert(tables_inverse_below(128));
    assert(tables_inverse_below(160));
    assert(tables_inverse_below(192));
    assert(tables_inverse_below(224));
    assert(tables_inverse_below(256));
    assert forall|b: u8| #[trigger] decode_permute_byte(encode_permute_byte(b)) == b by {
        lemma_tables_inverse_below_elim(256, b);
    }
    assert forall|b: u8| #[trigger] encode_permute_byte(decode_permute_byte(b)) == b by {
        lemma_tables_inverse_below_elim(256, b);
    }
}

/// Decoding what the permutation encoded gives back the data.
pub proof fn lemma_decode_permute_undoes_encoding(data: Seq<u8>)
    ensures
        data.map_values(|b: u8| encode_permute_byte(b)).map_values(
            |b: u8| decode_permute_byte(b),
        ) == data,
{
    lemma_permute_tables_inverse();
    assert(data.map_values(|b: u8| encode_permute_byte(b)).map_values(
        |b: u8| decode_permute_byte(b),
    ) =~= data);
}

} // verus!
