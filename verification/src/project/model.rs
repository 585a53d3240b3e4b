//! The editable carrier model (the TOML projection of a cfgdb).
use vstd::prelude::*;

use crate::confseq::groups_view;
use crate::sorted::{as_map, keys_of, keys_sorted};
use indexmap::IndexMap;
use std::hash::RandomState;

verus! {

/// Declares `indexmap::IndexMap` to the verifier; its contents are only seen
/// through the trusted functions below.
#[verifier::external_type_specification]
#[verifier::external_body]
#[verifier::reject_recursive_types(K)]
#[verifier::reject_recursive_types(V)]
#[verifier::reject_recursive_types(S)]
pub struct ExIndexMap<K, V, S>(IndexMap<K, V, S>);

/// The NV items of a module: insertion-ordered, keyed by NV name (or
/// `unknown_<id>`), each value the item's `Val` groups.
pub type ItemMap = IndexMap<String, Vec<Vec<i64>>, RandomState>;

/// The entries of an item map, in its order: each key with its value groups.
pub uninterp spec fn item_entries(m: ItemMap) -> Seq<(Seq<char>, Seq<Seq<i64>>)>;

/// Whether some entry has key `k`.
pub open spec fn has_key(m: Seq<(Seq<char>, Seq<Seq<i64>>)>, k: Seq<char>) -> bool {
    exists|i: int| 0 <= i < m.len() && (#[trigger] m[i]).0 == k
}

/// The place of the first entry with key `k` (the length when there is none).
pub open spec fn key_index(m: Seq<(Seq<char>, Seq<Seq<i64>>)>, k: Seq<char>) -> int
    decreases m.len(),
{
    if m.len() == 0 {
        0
    } else if m[0].0 == k {
        0
    } else {
        1 + key_index(m.drop_first(), k)
    }
}

/// `IndexMap::insert` on the entries: an existing key keeps its place and gets
/// the new value; a new key goes last.
pub open spec fn entries_insert(
    m: Seq<(Seq<char>, Seq<Seq<i64>>)>,
    k: Seq<char>,
    v: Seq<Seq<i64>>,
) -> Seq<(Seq<char>, Seq<Seq<i64>>)> {
    if has_key(m, k) {
        m.update(key_index(m, k), (k, v))
    } else {
        m.push((k, v))
    }
}

/// The first entry with a key that occurs is at `key_index`.
pub proof fn lemma_key_index(m: Seq<(Seq<char>, Seq<Seq<i64>>)>, k: Seq<char>)
    ensures
        has_key(m, k) ==> 0 <= key_index(m, k) < m.len() && m[key_index(m, k)].0 == k,
    decreases m.len(),
{
    if m.len() > 0 && m[0].0 != k {
        lemma_key_index(m.drop_first(), k);
        if has_key(m, k) {
            let i = choose|i: int| 0 <= i < m.len() && (#[trigger] m[i]).0 == k;
            assert(m.drop_first()[i - 1] == m[i]);
        }
    }
}

/// `entries_insert` keeps every key in its place; a new key goes last.
pub proof fn lemma_entries_insert_keys(m: Seq<(Seq<char>, Seq<Seq<i64>>)>, k: Seq<char>, v: Seq<Seq<i64>>)
    ensures
        entries_insert(m, k, v).len() == (if has_key(m, k) {
            m.len()
        } else {
            m.len() + 1
        }),
        forall|x: int| 0 <= x < m.len() ==> (#[trigger] entries_insert(m, k, v)[x]).0 == m[x].0,
        !has_key(m, k) ==> entries_insert(m, k, v)[m.len() as int] == (k, v),
{
    lemma_key_index(m, k);
}

/// Calls `IndexMap::new`. Trusted: the new map is empty.
#[verifier::external_body]
pub(crate) fn item_map_new() -> (m: ItemMap)
    ensures
        item_entries(m).len() == 0,
{
    IndexMap::new()
}

/// Calls `IndexMap::insert`. Trusted, as its documentation states: an
/// equivalent key keeps its place and gets the new value (the old one is
/// returned); otherwise the pair goes last and `None` is returned.
#[verifier::external_body]
pub(crate) fn item_map_insert(m: &mut ItemMap, k: String, v: Vec<Vec<i64>>) -> (r: Option<Vec<Vec<i64>>>)
    ensures
        item_entries(*final(m)) == entries_insert(item_entries(*old(m)), k@, groups_view(v@)),
        r is Some <==> has_key(item_entries(*old(m)), k@),
{
    m.insert(k, v)
}

/// Calls `IndexMap::len`. Trusted: the number of entries.
#[verifier::external_body]
pub(crate) fn item_map_len(m: &ItemMap) -> (r: usize)
    ensures
        r == item_entries(*m).len(),
{
    m.len()
}

/// Calls `IndexMap::get_index` for a place inside the map. Trusted: the key
/// of the entry at that place in the order.
#[verifier::external_body]
pub(crate) fn item_map_key_at(m: &ItemMap, i: usize) -> (k: &String)
    requires
        i < item_entries(*m).len(),
    ensures
        k@ == item_entries(*m)[i as int].0,
{
    m.get_index(i).unwrap().0
}

/// Calls `IndexMap`'s positional index (`m[i]`) for a place inside the map.
/// Trusted: the value groups of the entry at that place in the order.
#[verifier::external_body]
pub(crate) fn item_map_value_at(m: &ItemMap, i: usize) -> (v: &Vec<Vec<i64>>)
    requires
        i < item_entries(*m).len(),
    ensures
        groups_view(v@) == item_entries(*m)[i as int].1,
{
    &m[i]
}

/// A single SIM-identity matching rule.
pub struct MatchRuleToml {
    pub mccmnc: String,
    pub imsi_prefix_xpattern: Option<String>,
    pub spn: Option<String>,
    pub gid1: Option<String>,
    pub gid2: Option<String>,
    pub iccid_prefix: Option<String>,
}

/// One module entry of a carrier.
pub struct ModuleToml {
    pub revision: String,
    pub compressed: bool,
    /// NV items in their original order, so that re-encoding reproduces it.
    pub items: ItemMap,
}

/// The content of a [`ModuleToml`].
pub struct ModuleView {
    pub revision: Seq<char>,
    pub compressed: bool,
    pub items: Seq<(Seq<char>, Seq<Seq<i64>>)>,
}

impl View for ModuleToml {
    type V = ModuleView;

    open spec fn view(&self) -> ModuleView {
        ModuleView { revision: self.revision@, compressed: self.compressed, items: item_entries(self.items) }
    }
}

/// The document for one carrier. `confseq` maps module name to module, kept
/// sorted by name with unique names (the order of a `BTreeMap`).
pub struct CarrierFile {
    pub carrier_id: i64,
    pub parent_id: Option<i64>,
    pub matching: Vec<MatchRuleToml>,
    pub confseq: Vec<(String, ModuleToml)>,
}

impl CarrierFile {
    /// The module map is sorted by name, each name once.
    pub open spec fn wf(&self) -> bool {
        keys_sorted(keys_of(self.confseq@))
    }

    /// The modules as a map from name to content.
    pub open spec fn modules(&self) -> Map<Seq<char>, ModuleView> {
        as_map(self.confseq@).map_values(|m: ModuleToml| m@)
    }
}

/// One lock: routes a carrier's module back to its original confseq hash.
pub struct Lock {
    pub carrier: String,
    pub module: String,
    pub orig_hash: String,
}

/// The content of a [`Lock`].
pub struct LockView {
    pub carrier: Seq<char>,
    pub module: Seq<char>,
    pub orig_hash: Seq<char>,
}

impl View for Lock {
    type V = LockView;

    open spec fn view(&self) -> LockView {
        LockView { carrier: self.carrier@, module: self.module@, orig_hash: self.orig_hash@ }
    }
}

/// The contents of a list of locks.
pub open spec fn locks_view(l: Seq<Lock>) -> Seq<LockView> {
    l.map_values(|x: Lock| x@)
}

/// Project-level metadata.
pub struct Meta {
    pub release_label: String,
    pub build_info: String,
    /// `(name, version)` pairs from the `versions` table.
    pub versions: Vec<(String, String)>,
    pub iin: Option<String>,
    pub regional_fallback: Option<String>,
    pub carrier_parent: Option<String>,
    pub nv_table: String,
    pub locks: Vec<Lock>,
}

} // verus!
