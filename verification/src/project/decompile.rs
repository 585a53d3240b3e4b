//! decompile: decide what a cfgdb directory becomes as an editable project.
//!
//! Each carrier's confseqs (in confman order, duplicates once) become either an
//! editable module of its carrier file or an opaque `blob:<hash>` lock.
//! `originals/` keeps what `compile` cannot rebuild from a carrier file:
//! CLZ4-compressed modules, blobs, and confseqs no carrier references.
use vstd::prelude::*;

use crate::cfgdb::{Carrier, Cfgdb, MatchRule};
use crate::clz4::{is_clz4, is_clz4_spec};
use crate::confseq::{decode_spec, groups_view, ConfSeq, NvItemView};
use crate::error::opt_view;
use crate::nvtable::NvTable;
use crate::project::model::{
    entries_insert, item_entries, item_map_insert, item_map_len, item_map_new, locks_view,
    CarrierFile, ItemMap, Lock, LockView, MatchRuleToml, ModuleToml, ModuleView,
};
use crate::project::{item_key, item_key_spec};
use crate::sorted::{as_map, keys_of, keys_sorted, sorted_insert};
use crate::text::{dec_i64, push_i64, string_push};

verus! {

/// `id_` — the slug prefix of a carrier without a slug.
pub open spec fn id_prefix() -> Seq<char> {
    seq!['i', 'd', '_']
}

/// `blob:` — the module prefix of an opaque lock.
pub open spec fn blob_prefix() -> Seq<char> {
    seq!['b', 'l', 'o', 'b', ':']
}

/// A carrier's file stem: its slug, or `id_<carrier_id>`.
pub open spec fn slug_spec(c: Carrier) -> Seq<char> {
    match c.slug {
        Some(s) => s@,
        None => id_prefix() + dec_i64(c.carrier_id),
    }
}

/// A carrier's file stem: its slug, or `id_<carrier_id>`.
pub fn carrier_slug(c: &Carrier) -> (s: String)
    ensures
        s@ == slug_spec(*c),
{
    match &c.slug {
        Some(s) => s.clone(),
        None => {
            let mut s = String::new();
            string_push(&mut s, 'i');
            string_push(&mut s, 'd');
            string_push(&mut s, '_');
            push_i64(&mut s, c.carrier_id);
            assert(s@ =~= id_prefix() + dec_i64(c.carrier_id));
            s
        },
    }
}

/// The items of a decoded confseq keyed by NV name, inserted in wire order
/// into an insertion-ordered map (a repeated key keeps its first place and
/// takes the later value).
pub open spec fn keyed_items(items: Seq<NvItemView>) -> Seq<(Seq<char>, Seq<Seq<i64>>)>
    decreases items.len(),
{
    if items.len() == 0 {
        Seq::empty()
    } else {
        entries_insert(
            keyed_items(items.drop_last()),
            item_key_spec(items.last().id),
            items.last().vals,
        )
    }
}

/// What one confseq file becomes.
pub enum ModuleOutcome {
    /// An editable module: its name and content.
    Editable(Seq<char>, ModuleView),
    /// An opaque blob (undecodable, or two items share a key).
    Blob,
}

/// What one confseq file becomes: an editable module when it decodes and no
/// two of its items share a key, a blob otherwise.
#[verifier::opaque]
pub open spec fn module_outcome(bytes: Seq<u8>) -> ModuleOutcome {
    match decode_spec(bytes) {
        Ok(cs) => {
            let items = keyed_items(cs.items);
            if items.len() == cs.items.len() {
                ModuleOutcome::Editable(
                    cs.name,
                    ModuleView { revision: cs.revision, compressed: is_clz4_spec(bytes), items },
                )
            } else {
                ModuleOutcome::Blob
            }
        },
        Err(_) => ModuleOutcome::Blob,
    }
}

/// Whether `originals/` must keep a confseq's bytes: blobs, and CLZ4 modules
/// (recompression does not reproduce the original bytes).
pub open spec fn needs_store(bytes: Seq<u8>) -> bool {
    match module_outcome(bytes) {
        ModuleOutcome::Editable(_, mv) => mv.compressed,
        ModuleOutcome::Blob => true,
    }
}

/// The module a lock names: the module name, or `blob:<hash>`.
pub open spec fn lock_module(h: Seq<char>, bytes: Seq<u8>) -> Seq<char> {
    match module_outcome(bytes) {
        ModuleOutcome::Editable(n, _) => n,
        ModuleOutcome::Blob => blob_prefix() + h,
    }
}

/// The bytes of the first file named `h`.
pub open spec fn file_of(files: Seq<(Seq<char>, Seq<u8>)>, h: Seq<char>) -> Seq<u8>
    decreases files.len(),
{
    if files.len() == 0 {
        Seq::empty()
    } else if files[0].0 == h {
        files[0].1
    } else {
        file_of(files.drop_first(), h)
    }
}

/// Whether some file is named `h`.
pub open spec fn has_file(files: Seq<(Seq<char>, Seq<u8>)>, h: Seq<char>) -> bool {
    exists|i: int| 0 <= i < files.len() && (#[trigger] files[i]).0 == h
}

/// The files as name and bytes.
pub open spec fn files_view(files: Seq<(String, Vec<u8>)>) -> Seq<(Seq<char>, Seq<u8>)> {
    files.map_values(|p: (String, Vec<u8>)| (p.0@, p.1@))
}

/// The texts of a list of strings.
pub open spec fn strings_view(v: Seq<String>) -> Seq<Seq<char>> {
    v.map_values(|s: String| s@)
}

/// Each text once, at its first occurrence.
pub open spec fn dedup(hs: Seq<Seq<char>>) -> Seq<Seq<char>>
    decreases hs.len(),
{
    if hs.len() == 0 {
        Seq::empty()
    } else if dedup(hs.drop_last()).contains(hs.last()) {
        dedup(hs.drop_last())
    } else {
        dedup(hs.drop_last()).push(hs.last())
    }
}

/// A carrier's modules: every editable confseq it references, by name (a
/// later confseq with the same name replaces an earlier one).
pub open spec fn modules_spec(hs: Seq<Seq<char>>, files: Seq<(Seq<char>, Seq<u8>)>) -> Map<
    Seq<char>,
    ModuleView,
>
    decreases hs.len(),
{
    if hs.len() == 0 {
        Map::empty()
    } else {
        let m = modules_spec(hs.drop_last(), files);
        match module_outcome(file_of(files, hs.last())) {
            ModuleOutcome::Editable(n, mv) => m.insert(n, mv),
            ModuleOutcome::Blob => m,
        }
    }
}

/// A carrier's locks: one per referenced confseq, in confman order.
pub open spec fn carrier_locks(slug: Seq<char>, hs: Seq<Seq<char>>, files: Seq<(Seq<char>, Seq<u8>)>) -> Seq<LockView> {
    hs.map_values(|h: Seq<char>| LockView { carrier: slug, module: lock_module(h, file_of(files, h)), orig_hash: h })
}

/// The locks of the first `k` carriers, in order.
pub open spec fn all_locks(
    carriers: Seq<Carrier>,
    hashes: Seq<Seq<Seq<char>>>,
    files: Seq<(Seq<char>, Seq<u8>)>,
    k: int,
) -> Seq<LockView>
    decreases k,
{
    if k <= 0 {
        Seq::empty()
    } else {
        all_locks(carriers, hashes, files, k - 1) + carrier_locks(
            slug_spec(carriers[k - 1]),
            dedup(hashes[k - 1]),
            files,
        )
    }
}

/// `acc` with `h` added unless already there.
pub open spec fn push_new(acc: Seq<Seq<char>>, h: Seq<char>) -> Seq<Seq<char>> {
    if acc.contains(h) {
        acc
    } else {
        acc.push(h)
    }
}

/// The confseqs that must be stored, visiting each carrier's references in
/// turn (each once per carrier), each stored hash once.
pub open spec fn stored_from(acc: Seq<Seq<char>>, hs: Seq<Seq<char>>, files: Seq<(Seq<char>, Seq<u8>)>) -> Seq<Seq<char>>
    decreases hs.len(),
{
    if hs.len() == 0 {
        acc
    } else {
        let a = stored_from(acc, hs.drop_last(), files);
        if needs_store(file_of(files, hs.last())) {
            push_new(a, hs.last())
        } else {
            a
        }
    }
}

/// The stored confseqs after the first `k` carriers.
pub open spec fn stored_after(hashes: Seq<Seq<Seq<char>>>, files: Seq<(Seq<char>, Seq<u8>)>, k: int) -> Seq<Seq<char>>
    decreases k,
{
    if k <= 0 {
        Seq::empty()
    } else {
        stored_from(stored_after(hashes, files, k - 1), dedup(hashes[k - 1]), files)
    }
}

/// Whether any carrier references `h`.
pub open spec fn referenced(hashes: Seq<Seq<Seq<char>>>, h: Seq<char>) -> bool {
    exists|i: int| 0 <= i < hashes.len() && (#[trigger] hashes[i]).contains(h)
}

/// Then every orphan: a confseq file no carrier references, each once.
pub open spec fn with_orphans(acc: Seq<Seq<char>>, names: Seq<Seq<char>>, hashes: Seq<Seq<Seq<char>>>) -> Seq<Seq<char>>
    decreases names.len(),
{
    if names.len() == 0 {
        acc
    } else {
        let a = with_orphans(acc, names.drop_last(), hashes);
        if !referenced(hashes, names.last()) {
            push_new(a, names.last())
        } else {
            a
        }
    }
}

/// The matching rules of a carrier, as its carrier file lists them.
pub open spec fn rule_matches(r: MatchRule, t: MatchRuleToml) -> bool {
    &&& t.mccmnc@ == r.mccmnc@
    &&& opt_view(t.imsi_prefix_xpattern) == opt_view(r.imsi_prefix_xpattern)
    &&& opt_view(t.spn) == opt_view(r.spn)
    &&& opt_view(t.gid1) == opt_view(r.gid1)
    &&& opt_view(t.gid2) == opt_view(r.gid2)
    &&& opt_view(t.iccid_prefix) == opt_view(r.iccid_prefix)
}

/// What decompiling yields: one carrier file per carrier (with its file
/// stem), the locks, and the hashes `originals/` keeps, in order.
pub struct DecompilePlan {
    pub carriers: Vec<(String, CarrierFile)>,
    pub locks: Vec<Lock>,
    pub originals: Vec<String>,
}

fn clone_opt(s: &Option<String>) -> (r: Option<String>)
    ensures
        opt_view(r) == opt_view(*s),
{
    match s {
        Some(x) => Some(x.clone()),
        None => None,
    }
}

pub(crate) fn clone_groups(v: &Vec<Vec<i64>>) -> (r: Vec<Vec<i64>>)
    ensures
        groups_view(r@) == groups_view(v@),
{
    let mut r: Vec<Vec<i64>> = Vec::new();
    let mut i: usize = 0;
    while i < v.len()
        invariant
            i <= v.len(),
            groups_view(r@) == groups_view(v@.take(i as int)),
        decreases v.len() - i,
    {
        let g = &v[i];
        let mut c: Vec<i64> = Vec::new();
        let mut j: usize = 0;
        while j < g.len()
            invariant
                j <= g.len(),
                c@ == g@.take(j as int),
            decreases g.len() - j,
        {
            c.push(g[j]);
            j = j + 1;
            assert(c@ =~= g@.take(j as int));
        }
        assert(g@.take(g.len() as int) =~= g@);
        let ghost prev = groups_view(r@);
        r.push(c);
        assert(groups_view(r@) =~= prev.push(g@));
        assert(v@.take(i + 1) =~= v@.take(i as int).push(v@[i as int]));
        assert(groups_view(v@.take(i + 1)) =~= groups_view(v@.take(i as int)).push(g@));
        assert(groups_view(r@) =~= groups_view(v@.take(i + 1)));
        i = i + 1;
    }
    assert(v@.take(v.len() as int) =~= v@);
    r
}

/// What one confseq file becomes.
pub enum ModuleChoice {
    Editable(String, ModuleToml),
    Blob,
}

/// Decide what one confseq file becomes.
pub fn classify_confseq(bytes: &[u8], nv: &NvTable) -> (r: ModuleChoice)
    ensures
        match module_outcome(bytes@) {
            ModuleOutcome::Editable(n, mv) => r matches ModuleChoice::Editable(name, m) && name@ == n
                && m@ == mv,
            ModuleOutcome::Blob => r is Blob,
        },
{
    reveal(module_outcome);
    let compressed = is_clz4(bytes);
    match ConfSeq::decode(bytes) {
        Ok(cs) => {
            let mut items: ItemMap = item_map_new();
            let mut k: usize = 0;
            assert(cs@.items.take(0) =~= Seq::<NvItemView>::empty());
            while k < cs.items.len()
                invariant
                    k <= cs.items.len(),
                    item_entries(items) == keyed_items(cs@.items.take(k as int)),
                decreases cs.items.len() - k,
            {
                let it = &cs.items[k];
                let key = item_key(nv, it.id);
                let vals = clone_groups(&it.vals);
                item_map_insert(&mut items, key, vals);
                assert(cs@.items.take(k + 1).drop_last() =~= cs@.items.take(k as int));
                assert(cs@.items.take(k + 1).last() == it@);
                k = k + 1;
            }
            assert(cs@.items.take(cs.items.len() as int) =~= cs@.items);
            let n = item_map_len(&items);
            if n == cs.items.len() {
                let m = ModuleToml { revision: cs.revision, compressed, items };
                ModuleChoice::Editable(cs.name, m)
            } else {
                ModuleChoice::Blob
            }
        },
        Err(_) => ModuleChoice::Blob,
    }
}


pub(crate) fn find_file(files: &[(String, Vec<u8>)], h: &String) -> (r: Option<usize>)
    ensures
        match r {
            Some(i) => i < files@.len() && files@[i as int].0@ == h@ && files@[i as int].1@ == file_of(
                files_view(files@),
                h@,
            ),
            None => !has_file(files_view(files@), h@),
        },
{
    let ghost fv = files_view(files@);
    let mut i: usize = 0;
    assert(fv.skip(0) =~= fv);
    while i < files.len()
        invariant
            i <= files.len(),
            fv == files_view(files@),
            file_of(fv, h@) == file_of(fv.skip(i as int), h@),
            forall|j: int| 0 <= j < i ==> (#[trigger] fv[j]).0 != h@,
        decreases files.len() - i,
    {
        assert(fv.skip(i as int)[0] == fv[i as int]);
        if files[i].0 == *h {
            return Some(i);
        }
        assert(fv.skip(i as int).drop_first() =~= fv.skip(i + 1));
        i = i + 1;
    }
    None
}

pub(crate) fn contains_str(v: &Vec<String>, h: &String) -> (r: bool)
    ensures
        r == strings_view(v@).contains(h@),
{
    let mut i: usize = 0;
    while i < v.len()
        invariant
            i <= v.len(),
            forall|j: int| 0 <= j < i ==> (#[trigger] strings_view(v@)[j]) != h@,
        decreases v.len() - i,
    {
        if v[i] == *h {
            assert(strings_view(v@)[i as int] == h@);
            return true;
        }
        i = i + 1;
    }
    false
}

fn blob_module(h: &String) -> (s: String)
    ensures
        s@ == blob_prefix() + h@,
{
    let mut s = String::new();
    string_push(&mut s, 'b');
    string_push(&mut s, 'l');
    string_push(&mut s, 'o');
    string_push(&mut s, 'b');
    string_push(&mut s, ':');
    let mut i: usize = 0;
    let n = vstd::string::StrSliceExecFns::unicode_len(h.as_str());
    assert(s@ =~= blob_prefix());
    while i < n
        invariant
            i <= n,
            n == h@.len(),
            s@ == blob_prefix() + h@.take(i as int),
        decreases n - i,
    {
        let c = vstd::string::StrSliceExecFns::get_char(h.as_str(), i);
        string_push(&mut s, c);
        assert(h@.take(i + 1) =~= h@.take(i as int).push(c));
        assert(s@ =~= blob_prefix() + h@.take(i + 1));
        i = i + 1;
    }
    assert(h@.take(n as int) =~= h@);
    s
}

fn copy_rules(rules: &Vec<MatchRule>) -> (r: Vec<MatchRuleToml>)
    ensures
        r@.len() == rules@.len(),
        forall|i: int| 0 <= i < rules@.len() ==> rule_matches(#[trigger] rules@[i], r@[i]),
{
    let mut out: Vec<MatchRuleToml> = Vec::new();
    let mut i: usize = 0;
    while i < rules.len()
        invariant
            i <= rules.len(),
            out@.len() == i,
            forall|j: int| 0 <= j < i ==> rule_matches(#[trigger] rules@[j], out@[j]),
        decreases rules.len() - i,
    {
        let r = &rules[i];
        out.push(
            MatchRuleToml {
                mccmnc: r.mccmnc.clone(),
                imsi_prefix_xpattern: clone_opt(&r.imsi_prefix_xpattern),
                spn: clone_opt(&r.spn),
                gid1: clone_opt(&r.gid1),
                gid2: clone_opt(&r.gid2),
                iccid_prefix: clone_opt(&r.iccid_prefix),
            },
        );
        i = i + 1;
    }
    out
}

/// The modules of a carrier file, by name.
pub open spec fn modules_view(m: Seq<(String, ModuleToml)>) -> Map<Seq<char>, ModuleView> {
    as_map(m).map_values(|x: ModuleToml| x@)
}

/// Whether any of the carriers' reference lists holds `h`.
fn is_referenced(hashes: &[Vec<String>], h: &String) -> (r: bool)
    ensures
        r == referenced(hashes@.map_values(|v: Vec<String>| strings_view(v@)), h@),
{
    let ghost hv = hashes@.map_values(|v: Vec<String>| strings_view(v@));
    let mut i: usize = 0;
    while i < hashes.len()
        invariant
            i <= hashes.len(),
            hv == hashes@.map_values(|v: Vec<String>| strings_view(v@)),
            forall|j: int| 0 <= j < i ==> !(#[trigger] hv[j]).contains(h@),
        decreases hashes.len() - i,
    {
        assert(hv[i as int] == strings_view(hashes@[i as int]@));
        if contains_str(&hashes[i], h) {
            return true;
        }
        i = i + 1;
    }
    false
}


proof fn lemma_dedup_step(hs: Seq<Seq<char>>, j: int)
    requires
        0 <= j < hs.len(),
    ensures
        dedup(hs.take(j + 1)) == (if dedup(hs.take(j)).contains(hs[j]) {
            dedup(hs.take(j))
        } else {
            dedup(hs.take(j)).push(hs[j])
        }),
{
    assert(hs.take(j + 1).drop_last() =~= hs.take(j));
    assert(hs.take(j + 1).last() == hs[j]);
}

fn plan_carrier(
    slug: &String,
    hs: &Vec<String>,
    files: &[(String, Vec<u8>)],
    nv: &NvTable,
    locks: &mut Vec<Lock>,
    stored: &mut Vec<String>,
) -> (modules: Vec<(String, ModuleToml)>)
    requires
        forall|j: int| 0 <= j < hs@.len() ==> has_file(files_view(files@), #[trigger] hs@[j]@),
    ensures
        keys_sorted(keys_of(modules@)),
        modules_view(modules@) == modules_spec(dedup(strings_view(hs@)), files_view(files@)),
        locks_view(final(locks)@) == locks_view(old(locks)@) + carrier_locks(
            slug@,
            dedup(strings_view(hs@)),
            files_view(files@),
        ),
        strings_view(final(stored)@) == stored_from(
            strings_view(old(stored)@),
            dedup(strings_view(hs@)),
            files_view(files@),
        ),
{
    let ghost fv = files_view(files@);
    let ghost hv = strings_view(hs@);
    let ghost locks0 = locks_view(locks@);
    let ghost stored0 = strings_view(stored@);
    let mut seen: Vec<String> = Vec::new();
    let mut modules: Vec<(String, ModuleToml)> = Vec::new();
    let mut j: usize = 0;
    assert(hv.take(0) =~= Seq::<Seq<char>>::empty());
    assert(modules_view(modules@) =~= Map::<Seq<char>, ModuleView>::empty());
    assert(locks0 + carrier_locks(slug@, Seq::empty(), fv) =~= locks0);
    while j < hs.len()
        invariant
            j <= hs.len(),
            fv == files_view(files@),
            hv == strings_view(hs@),
            forall|k: int| 0 <= k < hs@.len() ==> has_file(fv, #[trigger] hs@[k]@),
            strings_view(seen@) == dedup(hv.take(j as int)),
            keys_sorted(keys_of(modules@)),
            modules_view(modules@) == modules_spec(dedup(hv.take(j as int)), fv),
            locks_view(locks@) == locks0 + carrier_locks(slug@, dedup(hv.take(j as int)), fv),
            strings_view(stored@) == stored_from(stored0, dedup(hv.take(j as int)), fv),
        decreases hs.len() - j,
    {
        let h = &hs[j];
        proof {
            lemma_dedup_step(hv, j as int);
        }
        assert(hv[j as int] == h@);
        if contains_str(&seen, h) {
            j = j + 1;
            continue;
        }
        let ghost d0 = dedup(hv.take(j as int));
        let ghost d1 = d0.push(h@);
        assert(d1.drop_last() =~= d0);
        assert(d1.last() == h@);
        let ghost pseen = strings_view(seen@);
        seen.push(h.clone());
        assert(strings_view(seen@) =~= pseen.push(h@));
        assert(has_file(fv, hs@[j as int]@));
        let fi = match find_file(files, h) {
            Some(i) => i,
            None => {
                assert(false);
                return modules;
            },
        };
        let bytes = &files[fi].1;
        let ghost b = bytes@;
        assert(b == file_of(fv, h@));
        let ghost plocks = locks_view(locks@);
        let ghost pstored = strings_view(stored@);
        assert(carrier_locks(slug@, d1, fv) =~= carrier_locks(slug@, d0, fv).push(
            LockView { carrier: slug@, module: lock_module(h@, b), orig_hash: h@ },
        ));
        match classify_confseq(bytes, nv) {
            ModuleChoice::Editable(name, m) => {
                let compressed = m.compressed;
                locks.push(Lock { carrier: slug.clone(), module: name.clone(), orig_hash: h.clone() });
                assert(locks_view(locks@) =~= plocks.push(
                    LockView { carrier: slug@, module: lock_module(h@, b), orig_hash: h@ },
                ));
                let ghost pm = modules@;
                let ghost mv = m@;
                let ghost nm = name@;
                sorted_insert(&mut modules, name, m);
                assert(modules_view(modules@) =~= modules_view(pm).insert(nm, mv));
                if compressed && !contains_str(stored, h) {
                    stored.push(h.clone());
                    assert(strings_view(stored@) =~= pstored.push(h@));
                }
            },
            ModuleChoice::Blob => {
                let module = blob_module(h);
                locks.push(Lock { carrier: slug.clone(), module, orig_hash: h.clone() });
                assert(locks_view(locks@) =~= plocks.push(
                    LockView { carrier: slug@, module: lock_module(h@, b), orig_hash: h@ },
                ));
                if !contains_str(stored, h) {
                    stored.push(h.clone());
                    assert(strings_view(stored@) =~= pstored.push(h@));
                }
            },
        }
        assert(locks0 + carrier_locks(slug@, d1, fv) =~= (locks0 + carrier_locks(slug@, d0, fv)).push(
            LockView { carrier: slug@, module: lock_module(h@, b), orig_hash: h@ },
        ));
        j = j + 1;
    }
    assert(hv.take(hs.len() as int) =~= hv);
    modules
}

/// The reference lists as texts.
pub open spec fn hashes_view(hashes: Seq<Vec<String>>) -> Seq<Seq<Seq<char>>> {
    hashes.map_values(|v: Vec<String>| strings_view(v@))
}

/// Plan the decompilation of a cfgdb: `hashes[i]` lists carrier `i`'s confman
/// (its `confman_<hash>` rows, in order), `files` holds the bytes of every
/// referenced confseq, and `confseq_names` the regular files of `confseqs/`.
pub fn plan_decompile(
    db: &Cfgdb,
    hashes: &[Vec<String>],
    files: &[(String, Vec<u8>)],
    confseq_names: &[String],
    nv: &NvTable,
) -> (plan: DecompilePlan)
    requires
        hashes@.len() == db.carriers@.len(),
        forall|i: int, j: int|
            0 <= i < hashes@.len() && 0 <= j < hashes@[i]@.len() ==> has_file(
                files_view(files@),
                #[trigger] hashes@[i]@[j]@,
            ),
    ensures
        plan.carriers@.len() == db.carriers@.len(),
        forall|i: int|
            0 <= i < db.carriers@.len() ==> {
                let c = #[trigger] db.carriers@[i];
                let (slug, cf) = plan.carriers@[i];
                &&& slug@ == slug_spec(c)
                &&& cf.carrier_id == c.carrier_id
                &&& cf.parent_id == c.parent_id
                &&& cf.matching@.len() == c.matching@.len()
                &&& forall|k: int| 0 <= k < c.matching@.len() ==> rule_matches(#[trigger] c.matching@[k], cf.matching@[k])
                &&& cf.wf()
                &&& modules_view(cf.confseq@) == modules_spec(dedup(hashes_view(hashes@)[i]), files_view(files@))
            },
        locks_view(plan.locks@) == all_locks(db.carriers@, hashes_view(hashes@), files_view(files@), db.carriers@.len() as int),
        strings_view(plan.originals@) == with_orphans(
            stored_after(hashes_view(hashes@), files_view(files@), db.carriers@.len() as int),
            strings_view(confseq_names@),
            hashes_view(hashes@),
        ),
{
    let ghost fv = files_view(files@);
    let ghost hv = hashes_view(hashes@);
    let mut carriers: Vec<(String, CarrierFile)> = Vec::new();
    let mut locks: Vec<Lock> = Vec::new();
    let mut stored: Vec<String> = Vec::new();
    let mut i: usize = 0;
    assert(locks_view(locks@) =~= Seq::<LockView>::empty());
    assert(strings_view(stored@) =~= Seq::<Seq<char>>::empty());
    while i < db.carriers.len()
        invariant
            i <= db.carriers.len(),
            hashes@.len() == db.carriers@.len(),
            fv == files_view(files@),
            hv == hashes_view(hashes@),
            forall|a: int, b: int|
                0 <= a < hashes@.len() && 0 <= b < hashes@[a]@.len() ==> has_file(
                    fv,
                    #[trigger] hashes@[a]@[b]@,
                ),
            carriers@.len() == i,
            forall|a: int|
                0 <= a < i ==> {
                    let c = #[trigger] db.carriers@[a];
                    let (slug, cf) = carriers@[a];
                    &&& slug@ == slug_spec(c)
                    &&& cf.carrier_id == c.carrier_id
                    &&& cf.parent_id == c.parent_id
                    &&& cf.matching@.len() == c.matching@.len()
                    &&& forall|k: int| 0 <= k < c.matching@.len() ==> rule_matches(#[trigger] c.matching@[k], cf.matching@[k])
                    &&& cf.wf()
                    &&& modules_view(cf.confseq@) == modules_spec(dedup(hv[a]), fv)
                },
            locks_view(locks@) == all_locks(db.carriers@, hv, fv, i as int),
            strings_view(stored@) == stored_after(hv, fv, i as int),
        decreases db.carriers.len() - i,
    {
        let c = &db.carriers[i];
        let hs = &hashes[i];
        assert(hv[i as int] == strings_view(hs@));
        let slug = carrier_slug(c);
        assert forall|j: int| 0 <= j < hs@.len() implies has_file(fv, #[trigger] hs@[j]@) by {
            assert(hashes@[i as int]@[j] == hs@[j]);
        }
        let modules = plan_carrier(&slug, hs, files, nv, &mut locks, &mut stored);
        let matching = copy_rules(&c.matching);
        let cf = CarrierFile { carrier_id: c.carrier_id, parent_id: c.parent_id, matching, confseq: modules };
        carriers.push((slug, cf));
        i = i + 1;
    }
    let mut k: usize = 0;
    let ghost st = strings_view(stored@);
    let ghost nv_names = strings_view(confseq_names@);
    assert(nv_names.take(0) =~= Seq::<Seq<char>>::empty());
    while k < confseq_names.len()
        invariant
            k <= confseq_names.len(),
            hv == hashes_view(hashes@),
            nv_names == strings_view(confseq_names@),
            strings_view(stored@) == with_orphans(st, nv_names.take(k as int), hv),
        decreases confseq_names.len() - k,
    {
        let n = &confseq_names[k];
        assert(nv_names.take(k + 1).drop_last() =~= nv_names.take(k as int));
        assert(nv_names.take(k + 1).last() == n@);
        let ghost prev = strings_view(stored@);
        if !is_referenced(hashes, n) && !contains_str(&stored, n) {
            stored.push(n.clone());
            assert(strings_view(stored@) =~= prev.push(n@));
        }
        k = k + 1;
    }
    assert(nv_names.take(confseq_names.len() as int) =~= nv_names);
    DecompilePlan { carriers, locks, originals: stored }
}

} // verus!
