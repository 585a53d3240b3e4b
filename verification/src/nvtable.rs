//! crc32 <-> Shannon NV-item-name dictionary (baked-in, static).
//!
//! An NV item's id is the crc32 of its name, so only `id -> name` is stored;
//! ids absent from the table surface to callers as `unknown_<id>`. The bundled
//! table lists three items; every other id is unknown to it.
use vstd::prelude::*;

use vstd::utf8::{encode_utf8, is_ascii_chars_encode_utf8};

verus! {

/// One shift of the reflected CRC-32 register (polynomial `0xEDB88320`).
pub open spec fn crc32_shift(c: u32) -> u32 {
    if c & 1u32 == 1u32 {
        (c >> 1u32) ^ 0xEDB8_8320u32
    } else {
        c >> 1u32
    }
}

/// The register after one byte: the byte is xored in, then eight shifts.
pub open spec fn crc32_byte(c: u32, b: u8) -> u32 {
    let x = c ^ (b as u32);
    crc32_shift(crc32_shift(crc32_shift(crc32_shift(crc32_shift(crc32_shift(crc32_shift(crc32_shift(x))))))))
}

/// The register after feeding `data` from `c`, a byte at a time: all bytes
/// but the last, then the last.
pub open spec fn crc32_register(c: u32, data: Seq<u8>) -> u32
    decreases data.len(),
{
    if data.len() == 0 {
        c
    } else {
        crc32_byte(crc32_register(c, data.take(data.len() - 1)), data[data.len() - 1])
    }
}

/// The CRC-32 (IEEE) checksum of some bytes: the reflected register started
/// at all ones, fed the bytes, and inverted.
pub open spec fn crc32(data: Seq<u8>) -> u32 {
    crc32_register(0xFFFF_FFFFu32, data) ^ 0xFFFF_FFFFu32
}

/// Calls `crc32fast::hash`, which computes the CRC-32 (IEEE) checksum of the
/// bytes.
#[verifier::external_body]
fn crc32_hash(data: &[u8]) -> (r: u32)
    ensures
        r == crc32(data@),
{
    crc32fast::hash(data)
}

/// The NV id of a name: the crc32 of its UTF-8 bytes.
pub open spec fn nv_id_spec(name: Seq<char>) -> u32 {
    crc32(encode_utf8(name))
}

/// The NV id of a name (`crc32(name)`), the one id computation.
pub fn crc32_id(name: &str) -> (r: u32)
    ensures
        r == nv_id_spec(name@),
{
    crc32_hash(name.as_bytes())
}

/// The checksum of the bytes of `TCS_GV_OPT_CARRIER_TYPE`, one byte at a time.
proof fn lemma_crc32_bytes_carrier_type()
    by (bit_vector)
    ensures
        ({
            let c1 = crc32_byte(0xFFFF_FFFFu32, 0x54u8);  // 'T'
            let c2 = crc32_byte(c1, 0x43u8);  // 'C'
            let c3 = crc32_byte(c2, 0x53u8);  // 'S'
            let c4 = crc32_byte(c3, 0x5fu8);  // '_'
            let c5 = crc32_byte(c4, 0x47u8);  // 'G'
            let c6 = crc32_byte(c5, 0x56u8);  // 'V'
            let c7 = crc32_byte(c6, 0x5fu8);  // '_'
            let c8 = crc32_byte(c7, 0x4fu8);  // 'O'
            let c9 = crc32_byte(c8, 0x50u8);  // 'P'
            let c10 = crc32_byte(c9, 0x54u8);  // 'T'
            let c11 = crc32_byte(c10, 0x5fu8);  // '_'
            let c12 = crc32_byte(c11, 0x43u8);  // 'C'
            let c13 = crc32_byte(c12, 0x41u8);  // 'A'
            let c14 = crc32_byte(c13, 0x52u8);  // 'R'
            let c15 = crc32_byte(c14, 0x52u8);  // 'R'
            let c16 = crc32_byte(c15, 0x49u8);  // 'I'
            let c17 = crc32_byte(c16, 0x45u8);  // 'E'
            let c18 = crc32_byte(c17, 0x52u8);  // 'R'
            let c19 = crc32_byte(c18, 0x5fu8);  // '_'
            let c20 = crc32_byte(c19, 0x54u8);  // 'T'
            let c21 = crc32_byte(c20, 0x59u8);  // 'Y'
            let c22 = crc32_byte(c21, 0x50u8);  // 'P'
            let c23 = crc32_byte(c22, 0x45u8);  // 'E'
            (c23 ^ 0xFFFF_FFFFu32) == 922505959u32
        }),
{
}

/// `TCS_GV_OPT_CARRIER_TYPE` is named by its id: `crc32("TCS_GV_OPT_CARRIER_TYPE") == 922505959`.
proof fn lemma_row_carrier_type()
    ensures
        nv_id_spec("TCS_GV_OPT_CARRIER_TYPE"@) == 922505959u32,
{
    reveal_strlit("TCS_GV_OPT_CARRIER_TYPE");
    is_ascii_chars_encode_utf8("TCS_GV_OPT_CARRIER_TYPE"@);
    reveal_with_fuel(crc32_register, 24);
    lemma_crc32_bytes_carrier_type();
}

/// The checksum of the bytes of `gTCS_FCI_info`, one byte at a time.
proof fn lemma_crc32_bytes_fci_info()
    by (bit_vector)
    ensures
        ({
            let c1 = crc32_byte(0xFFFF_FFFFu32, 0x67u8);  // 'g'
            let c2 = crc32_byte(c1, 0x54u8);  // 'T'
            let c3 = crc32_byte(c2, 0x43u8);  // 'C'
            let c4 = crc32_byte(c3, 0x53u8);  // 'S'
            let c5 = crc32_byte(c4, 0x5fu8);  // '_'
            let c6 = crc32_byte(c5, 0x46u8);  // 'F'
            let c7 = crc32_byte(c6, 0x43u8);  // 'C'
            let c8 = crc32_byte(c7, 0x49u8);  // 'I'
            let c9 = crc32_byte(c8, 0x5fu8);  // '_'
            let c10 = crc32_byte(c9, 0x69u8);  // 'i'
            let c11 = crc32_byte(c10, 0x6eu8);  // 'n'
            let c12 = crc32_byte(c11, 0x66u8);  // 'f'
            let c13 = crc32_byte(c12, 0x6fu8);  // 'o'
            (c13 ^ 0xFFFF_FFFFu32) == 287538830u32
        }),
{
}

/// `gTCS_FCI_info` is named by its id: `crc32("gTCS_FCI_info") == 287538830`.
proof fn lemma_row_fci_info()
    ensures
        nv_id_spec("gTCS_FCI_info"@) == 287538830u32,
{
    reveal_strlit("gTCS_FCI_info");
    is_ascii_chars_encode_utf8("gTCS_FCI_info"@);
    reveal_with_fuel(crc32_register, 14);
    lemma_crc32_bytes_fci_info();
}

/// The checksum of the bytes of `NV.ITEM.GUARD`, one byte at a time.
proof fn lemma_crc32_bytes_guard()
    by (bit_vector)
    ensures
        ({
            let c1 = crc32_byte(0xFFFF_FFFFu32, 0x4eu8);  // 'N'
            let c2 = crc32_byte(c1, 0x56u8);  // 'V'
            let c3 = crc32_byte(c2, 0x2eu8);  // '.'
            let c4 = crc32_byte(c3, 0x49u8);  // 'I'
            let c5 = crc32_byte(c4, 0x54u8);  // 'T'
            let c6 = crc32_byte(c5, 0x45u8);  // 'E'
            let c7 = crc32_byte(c6, 0x4du8);  // 'M'
            let c8 = crc32_byte(c7, 0x2eu8);  // '.'
            let c9 = crc32_byte(c8, 0x47u8);  // 'G'
            let c10 = crc32_byte(c9, 0x55u8);  // 'U'
            let c11 = crc32_byte(c10, 0x41u8);  // 'A'
            let c12 = crc32_byte(c11, 0x52u8);  // 'R'
            let c13 = crc32_byte(c12, 0x44u8);  // 'D'
            (c13 ^ 0xFFFF_FFFFu32) == 3854640803u32
        }),
{
}

/// `NV.ITEM.GUARD` is named by its id: `crc32("NV.ITEM.GUARD") == 3854640803`.
proof fn lemma_row_guard()
    ensures
        nv_id_spec("NV.ITEM.GUARD"@) == 3854640803u32,
{
    reveal_strlit("NV.ITEM.GUARD");
    is_ascii_chars_encode_utf8("NV.ITEM.GUARD"@);
    reveal_with_fuel(crc32_register, 14);
    lemma_crc32_bytes_guard();
}

/// Every row of the bundled table obeys the table's defining law: its id is
/// the crc32 of its name.
pub proof fn law_table_ids_are_name_crc32(id: u32)
    ensures
        nv_table_spec(id) matches Some(n) ==> nv_id_spec(n) == id,
{
    lemma_row_carrier_type();
    lemma_row_fci_info();
    lemma_row_guard();
}

/// The bundled table, `id -> name`.
pub open spec fn nv_table_spec(id: u32) -> Option<Seq<char>> {
    if id == 922505959 {
        Some("TCS_GV_OPT_CARRIER_TYPE"@)
    } else if id == 287538830 {
        Some("gTCS_FCI_info"@)
    } else if id == 3854640803 {
        Some("NV.ITEM.GUARD"@)
    } else {
        None
    }
}

/// The label of the bundled table.
pub open spec fn nv_label_spec() -> Seq<char> {
    "g5400_nv"@
}

/// Every `(id, name)` row of the bundled table, in id order.
pub fn nv_names() -> (rows: Vec<(u32, &'static str)>)
    ensures
        forall|i: int| 0 <= i < rows@.len() ==> nv_table_spec(#[trigger] rows@[i].0) == Some(rows@[i].1@),
        forall|id: u32| nv_table_spec(id) is Some ==> exists|i: int| 0 <= i < rows@.len() && #[trigger] rows@[i].0 == id,
{
    let mut rows: Vec<(u32, &'static str)> = Vec::new();
    rows.push((287538830, "gTCS_FCI_info"));
    rows.push((922505959, "TCS_GV_OPT_CARRIER_TYPE"));
    rows.push((3854640803, "NV.ITEM.GUARD"));
    assert(rows@[0].0 == 287538830);
    assert(rows@[1].0 == 922505959);
    assert(rows@[2].0 == 3854640803);
    rows
}

/// Handle to the baked-in g5400 NV table. Zero-sized: all data is static.
pub struct NvTable;

impl NvTable {
    /// The bundled g5400 table.
    pub fn bundled() -> (t: NvTable)
        ensures
            t == NvTable,
    {
        NvTable
    }

    /// The label identifying this NV table (`"g5400_nv"`).
    pub fn label(&self) -> (r: &'static str)
        ensures
            r@ == nv_label_spec(),
    {
        "g5400_nv"
    }

    /// Resolve an NV-item id to its name, if the table knows it.
    pub fn name(&self, id: u32) -> (r: Option<&'static str>)
        ensures
            match nv_table_spec(id) {
                Some(n) => r matches Some(s) && s@ == n,
                None => r is None,
            },
    {
        if id == 922505959 {
            Some("TCS_GV_OPT_CARRIER_TYPE")
        } else if id == 287538830 {
            Some("gTCS_FCI_info")
        } else if id == 3854640803 {
            Some("NV.ITEM.GUARD")
        } else {
            None
        }
    }

    /// The id for a name: always `crc32(name)`, no table lookup.
    pub fn id(&self, name: &str) -> (r: u32)
        ensures
            r == nv_id_spec(name@),
    {
        crc32_id(name)
    }
}

} // verus!
