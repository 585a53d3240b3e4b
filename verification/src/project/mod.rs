//! project: the editable carrier model, and the planning logic of `decompile`
//! and `compile`.
use vstd::prelude::*;

use crate::nvtable::{crc32_id, law_table_ids_are_name_crc32, nv_id_spec, nv_table_spec, NvTable};
use crate::text::{dec_digits, lemma_dec_digits_parse, parse_u32_from, parse_u32_spec, push_decimal};
use vstd::string::StrSliceExecFns;

verus! {

/// The prefix of the key of an NV item the table does not name.
pub open spec fn unknown_prefix() -> Seq<char> {
    seq!['u', 'n', 'k', 'n', 'o', 'w', 'n', '_']
}

/// The key of NV item `id`: its name from the table, or `unknown_<id>`.
pub open spec fn item_key_spec(id: u32) -> Seq<char> {
    match nv_table_spec(id) {
        Some(n) => n,
        None => unknown_prefix() + dec_digits(id as nat),
    }
}

/// The id for a key: `unknown_<u32>` read literally, otherwise `crc32(key)`.
pub open spec fn key_to_id_spec(key: Seq<char>) -> u32 {
    if key.len() >= 8 && key.take(8) == unknown_prefix() && parse_u32_spec(key.skip(8)) is Some {
        parse_u32_spec(key.skip(8))->Some_0
    } else {
        nv_id_spec(key)
    }
}

/// Return the human-readable key for NV item `id`: name from `table`, or
/// `unknown_<id>`.
pub fn item_key(table: &NvTable, id: u32) -> (k: String)
    ensures
        k@ == item_key_spec(id),
{
    match table.name(id) {
        Some(n) => n.to_owned(),
        None => {
            let mut s = "unknown_".to_owned();
            proof {
                reveal_strlit("unknown_");
            }
            assert(s@ =~= unknown_prefix());
            push_decimal(&mut s, id as u64);
            s
        },
    }
}

/// Return the numeric NV item id for `key`: parses `unknown_<u32>` literally;
/// otherwise computes `crc32_id(key)`.
pub fn key_to_id(key: &str) -> (id: u32)
    ensures
        id == key_to_id_spec(key@),
{
    if is_unknown_key(key) {
        match parse_u32_from(key, 8) {
            Some(id) => return id,
            None => {},
        }
    }
    crc32_id(key)
}

/// A key of the `unknown_<id>` form's prefix.
pub open spec fn is_unknown_key_spec(key: Seq<char>) -> bool {
    key.len() >= 8 && key.take(8) == unknown_prefix()
}

/// Whether `key` starts with `unknown_`.
pub fn is_unknown_key(key: &str) -> (r: bool)
    ensures
        r == is_unknown_key_spec(key@),
{
    let n = key.unicode_len();
    if n < 8 {
        return false;
    }
    let prefix = key.get_char(0) == 'u' && key.get_char(1) == 'n' && key.get_char(2) == 'k'
        && key.get_char(3) == 'n' && key.get_char(4) == 'o' && key.get_char(5) == 'w'
        && key.get_char(6) == 'n' && key.get_char(7) == '_';
    if prefix {
        assert(key@.take(8) =~= unknown_prefix());
    } else {
        assert(key@.take(8) != unknown_prefix()) by {
            if key@.take(8) == unknown_prefix() {
                assert(key@.take(8)[0] == key@[0]);
                assert(key@.take(8)[1] == key@[1]);
                assert(key@.take(8)[2] == key@[2]);
                assert(key@.take(8)[3] == key@[3]);
                assert(key@.take(8)[4] == key@[4]);
                assert(key@.take(8)[5] == key@[5]);
                assert(key@.take(8)[6] == key@[6]);
                assert(key@.take(8)[7] == key@[7]);
            }
        }
    }
    prefix
}

/// Keys round-trip to ids: the key of an id the table does not name reads back
/// as that id, and the key of a named id reads back as the crc32 of its name,
/// which is the id itself (every row obeys `id == crc32(name)`).
pub proof fn law_item_key_roundtrip(id: u32)
    ensures
        key_to_id_spec(item_key_spec(id)) == id,
{
    law_table_ids_are_name_crc32(id);
    reveal_strlit("TCS_GV_OPT_CARRIER_TYPE");
    reveal_strlit("gTCS_FCI_info");
    reveal_strlit("NV.ITEM.GUARD");
    match nv_table_spec(id) {
        Some(n) => {
            assert(n.len() >= 8 ==> n.take(8)[0] != 'u');
        },
        None => {
            let k = unknown_prefix() + dec_digits(id as nat);
            lemma_dec_digits_parse(id as nat);
            assert(k.take(8) =~= unknown_prefix());
            assert(k.skip(8) =~= dec_digits(id as nat));
        },
    }
}

} // verus!
pub mod model;
pub mod decompile;
pub mod compile;
pub mod roundtrip;
pub mod edits;
