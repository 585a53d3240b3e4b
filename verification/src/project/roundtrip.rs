//! The round trip of an unedited project: what `decompile` makes of a cfgdb
//! compiles back into that cfgdb, with no reference moved.
use vstd::prelude::*;

use crate::cfgdb::Carrier;
use crate::clz4::is_clz4_spec;
use crate::confseq::{content_hash_spec, decode_spec, encode_spec, NvItemView};
use crate::project::compile::{
    carriers_steps, file_for, is_blob_module, lock_for, module_step, modules_steps, rebuilt_spec,
    CompileState,
};
use crate::project::decompile::{
    all_locks, blob_prefix, carrier_locks, dedup, file_of, has_file, keyed_items, lock_module,
    module_outcome, modules_spec, modules_view, needs_store, referenced, slug_spec, stored_after,
    stored_from, with_orphans, ModuleOutcome,
};
use crate::project::model::{has_key, lemma_entries_insert_keys, CarrierFile, LockView, ModuleToml, ModuleView};
use crate::project::{item_key_spec, key_to_id_spec, law_item_key_roundtrip};
use crate::sorted::{as_map, keys_of, keys_sorted, lemma_as_map_at};
use crate::project::edits::written;

verus! {

/// A referenced confseq of a well-formed cfgdb: its file exists and is named
/// by its content hash; an editable module's name is not a `blob:` name; and
/// a plain (not CLZ4) editable module encodes back to its own bytes.
pub open spec fn faithful_confseq(files: Seq<(Seq<char>, Seq<u8>)>, h: Seq<char>) -> bool {
    let b = file_of(files, h);
    &&& has_file(files, h)
    &&& content_hash_spec(b) == h
    &&& match module_outcome(b) {
        ModuleOutcome::Editable(n, mv) => !is_blob_module(n) && (!mv.compressed ==> (decode_spec(b) matches Ok(cs)
            && encode_spec(cs) == b)),
        ModuleOutcome::Blob => true,
    }
}

/// What decompiling made of a carrier: its file stem, and a carrier file with
/// the carrier's modules.
pub open spec fn decompiled_carrier(
    p: (String, CarrierFile),
    c: Carrier,
    hs: Seq<Seq<char>>,
    files: Seq<(Seq<char>, Seq<u8>)>,
) -> bool {
    &&& p.0@ == slug_spec(c)
    &&& p.1.wf()
    &&& modules_view(p.1.confseq@) == modules_spec(dedup(hs), files)
}

/// Nothing remapped, and every confseq written is a source file, byte for
/// byte.
pub open spec fn reproduces(st: CompileState, files: Seq<(Seq<char>, Seq<u8>)>) -> bool {
    &&& st.remap.len() == 0
    &&& forall|w: int|
        0 <= w < st.writes.len() ==> has_file(files, #[trigger] st.writes[w].0) && file_of(
            files,
            st.writes[w].0,
        ) == st.writes[w].1
}

proof fn lemma_keyed_items_distinct(items: Seq<NvItemView>)
    ensures
        keyed_items(items).len() <= items.len(),
        keyed_items(items).len() == items.len() ==> forall|i: int|
            0 <= i < items.len() ==> #[trigger] keyed_items(items)[i] == (
                item_key_spec(items[i].id),
                items[i].vals,
            ),
    decreases items.len(),
{
    if items.len() > 0 {
        let p = items.drop_last();
        lemma_keyed_items_distinct(p);
        let m = keyed_items(p);
        let k = item_key_spec(items.last().id);
        lemma_entries_insert_keys(m, k, items.last().vals);
        if has_key(m, k) {
            assert(keyed_items(items).len() == m.len());
        } else {
            assert(keyed_items(items) == m.push((k, items.last().vals)));
            if keyed_items(items).len() == items.len() {
                assert forall|i: int| 0 <= i < items.len() implies #[trigger] keyed_items(items)[i] == (
                    item_key_spec(items[i].id),
                    items[i].vals,
                ) by {
                    if i < items.len() - 1 {
                        assert(p[i] == items[i]);
                    }
                }
            }
        }
    }
}

/// An editable module rebuilds into exactly the confseq it was decoded from.
proof fn lemma_rebuilt_is_decoded(b: Seq<u8>)
    requires
    ensures
        module_outcome(b) matches ModuleOutcome::Editable(n, mv) ==> (decode_spec(b) matches Ok(cs)
            && rebuilt_spec(n, mv) == cs),
{
    reveal(module_outcome);
    if let ModuleOutcome::Editable(n, mv) = module_outcome(b) {
        if let Ok(cs) = decode_spec(b) {
            lemma_keyed_items_distinct(cs.items);
            let rb = rebuilt_spec(n, mv);
            assert forall|i: int| 0 <= i < cs.items.len() implies #[trigger] rb.items[i] == cs.items[i] by {
                let id = cs.items[i].id;
                law_item_key_roundtrip(id);
                assert(mv.items[i] == (item_key_spec(id), cs.items[i].vals));
            }
            assert(rb.items =~= cs.items);
        }
    }
}

/// No editable module of these confseqs has a `blob:` name.
pub open spec fn names_ok(hs: Seq<Seq<char>>, files: Seq<(Seq<char>, Seq<u8>)>) -> bool {
    forall|h: Seq<char>|
        hs.contains(h) ==> (#[trigger] module_outcome(file_of(files, h)) matches ModuleOutcome::Editable(
            n,
            _,
        ) ==> !is_blob_module(n))
}

proof fn lemma_carrier_locks_drop_last(s: Seq<char>, hs: Seq<Seq<char>>, fv: Seq<(Seq<char>, Seq<u8>)>)
    requires
        hs.len() > 0,
    ensures
        carrier_locks(s, hs, fv).drop_last() == carrier_locks(s, hs.drop_last(), fv),
        carrier_locks(s, hs, fv).last() == (LockView {
            carrier: s,
            module: lock_module(hs.last(), file_of(fv, hs.last())),
            orig_hash: hs.last(),
        }),
{
    assert(carrier_locks(s, hs, fv).drop_last() =~= carrier_locks(s, hs.drop_last(), fv));
}

/// Within one carrier, the lock of a module names the confseq the module came
/// from: the last one with that name.
proof fn lemma_carrier_module_lock(
    s: Seq<char>,
    hs: Seq<Seq<char>>,
    fv: Seq<(Seq<char>, Seq<u8>)>,
    n: Seq<char>,
)
    requires
        names_ok(hs, fv),
        modules_spec(hs, fv).contains_key(n),
    ensures
        lock_for(carrier_locks(s, hs, fv), s, n) matches Some(h) && hs.contains(h) && module_outcome(
            file_of(fv, h),
        ) == ModuleOutcome::Editable(n, modules_spec(hs, fv)[n]),
    decreases hs.len(),
{
    let p = hs.drop_last();
    let h = hs.last();
    lemma_carrier_locks_drop_last(s, hs, fv);
    assert(hs.contains(h)) by {
        assert(hs[hs.len() - 1] == h);
    }
    assert(names_ok(p, fv)) by {
        assert forall|x: Seq<char>| p.contains(x) implies hs.contains(x) by {
            let k = choose|k: int| 0 <= k < p.len() && p[k] == x;
            assert(hs[k] == x);
        }
    }
    let b = file_of(fv, h);
    assert(module_outcome(b) matches ModuleOutcome::Editable(n2, _) ==> !is_blob_module(n2));
    match module_outcome(b) {
        ModuleOutcome::Editable(n2, mv) => {
            if n2 != n {
                lemma_carrier_module_lock(s, p, fv, n);
                let h2 = lock_for(carrier_locks(s, p, fv), s, n)->Some_0;
                assert(hs.contains(h2)) by {
                    let k = choose|k: int| 0 <= k < p.len() && p[k] == h2;
                    assert(hs[k] == h2);
                }
            }
        },
        ModuleOutcome::Blob => {
            assert(is_blob_module(blob_prefix() + h)) by {
                assert((blob_prefix() + h).take(5) =~= blob_prefix());
            }
            lemma_carrier_module_lock(s, p, fv, n);
            let h2 = lock_for(carrier_locks(s, p, fv), s, n)->Some_0;
            assert(hs.contains(h2)) by {
                let k = choose|k: int| 0 <= k < p.len() && p[k] == h2;
                assert(hs[k] == h2);
            }
        },
    }
}

proof fn lemma_lock_for_concat(a: Seq<LockView>, b: Seq<LockView>, s: Seq<char>, n: Seq<char>)
    ensures
        lock_for(a + b, s, n) == (match lock_for(b, s, n) {
            Some(x) => Some(x),
            None => lock_for(a, s, n),
        }),
    decreases b.len(),
{
    if b.len() > 0 {
        assert((a + b).drop_last() =~= a + b.drop_last());
        assert((a + b).last() == b.last());
        lemma_lock_for_concat(a, b.drop_last(), s, n);
    } else {
        assert(a + b =~= a);
    }
}

proof fn lemma_lock_for_other_carrier(
    s2: Seq<char>,
    hs: Seq<Seq<char>>,
    fv: Seq<(Seq<char>, Seq<u8>)>,
    s: Seq<char>,
    n: Seq<char>,
)
    requires
        s2 != s,
    ensures
        lock_for(carrier_locks(s2, hs, fv), s, n) is None,
    decreases hs.len(),
{
    if hs.len() > 0 {
        lemma_carrier_locks_drop_last(s2, hs, fv);
        lemma_lock_for_other_carrier(s2, hs.drop_last(), fv, s, n);
    }
}

/// Carrier slugs differ pairwise.
pub open spec fn slugs_distinct(carriers: Seq<Carrier>) -> bool {
    forall|i: int, j: int|
        0 <= i < j < carriers.len() ==> slug_spec(#[trigger] carriers[i]) != slug_spec(#[trigger] carriers[j])
}

proof fn lemma_all_locks_none(
    carriers: Seq<Carrier>,
    hashes: Seq<Seq<Seq<char>>>,
    fv: Seq<(Seq<char>, Seq<u8>)>,
    k: int,
    s: Seq<char>,
    n: Seq<char>,
)
    requires
        forall|j: int| 0 <= j < k ==> slug_spec(#[trigger] carriers[j]) != s,
    ensures
        lock_for(all_locks(carriers, hashes, fv, k), s, n) is None,
    decreases k,
{
    if k > 0 {
        lemma_all_locks_none(carriers, hashes, fv, k - 1, s, n);
        lemma_lock_for_concat(
            all_locks(carriers, hashes, fv, k - 1),
            carrier_locks(slug_spec(carriers[k - 1]), dedup(hashes[k - 1]), fv),
            s,
            n,
        );
        lemma_lock_for_other_carrier(slug_spec(carriers[k - 1]), dedup(hashes[k - 1]), fv, s, n);
    } else {
        assert(all_locks(carriers, hashes, fv, k) =~= Seq::<LockView>::empty());
    }
}

/// With distinct slugs, a carrier's module is looked up among its own locks.
proof fn lemma_all_locks_own(
    carriers: Seq<Carrier>,
    hashes: Seq<Seq<Seq<char>>>,
    fv: Seq<(Seq<char>, Seq<u8>)>,
    i: int,
    k: int,
    n: Seq<char>,
)
    requires
        0 <= i < k <= carriers.len(),
        slugs_distinct(carriers),
    ensures
        lock_for(all_locks(carriers, hashes, fv, k), slug_spec(carriers[i]), n) == lock_for(
            carrier_locks(slug_spec(carriers[i]), dedup(hashes[i]), fv),
            slug_spec(carriers[i]),
            n,
        ),
    decreases k,
{
    let s = slug_spec(carriers[i]);
    lemma_lock_for_concat(
        all_locks(carriers, hashes, fv, k - 1),
        carrier_locks(slug_spec(carriers[k - 1]), dedup(hashes[k - 1]), fv),
        s,
        n,
    );
    if k - 1 == i {
        assert forall|j: int| 0 <= j < i implies slug_spec(#[trigger] carriers[j]) != s by {
            assert(slug_spec(carriers[j]) != slug_spec(carriers[i]));
        }
        lemma_all_locks_none(carriers, hashes, fv, i, s, n);
    } else {
        assert(slug_spec(carriers[i]) != slug_spec(carriers[k - 1]));
        lemma_lock_for_other_carrier(slug_spec(carriers[k - 1]), dedup(hashes[k - 1]), fv, s, n);
        lemma_all_locks_own(carriers, hashes, fv, i, k - 1, n);
    }
}

proof fn lemma_dedup_contains(hs: Seq<Seq<char>>, x: Seq<char>)
    ensures
        dedup(hs).contains(x) <==> hs.contains(x),
    decreases hs.len(),
{
    if hs.len() > 0 {
        let p = hs.drop_last();
        lemma_dedup_contains(p, x);
        if hs.contains(x) && !p.contains(x) {
            let k = choose|k: int| 0 <= k < hs.len() && hs[k] == x;
            if k < hs.len() - 1 {
                assert(p[k] == x);
            }
            assert(x == hs.last());
            if !dedup(p).contains(x) {
                assert(dedup(hs) == dedup(p).push(x));
                assert(dedup(hs)[dedup(p).len() as int] == x);
            }
        }
        if p.contains(x) {
            let k = choose|k: int| 0 <= k < p.len() && p[k] == x;
            assert(hs[k] == x);
        }
        if dedup(hs).contains(x) && !dedup(p).contains(x) {
            assert(dedup(hs) == dedup(p).push(hs.last()));
            let k = choose|k: int| 0 <= k < dedup(hs).len() && dedup(hs)[k] == x;
            assert(k == dedup(p).len());
            assert(hs[hs.len() - 1] == x);
        }
        if dedup(p).contains(x) {
            let k = choose|k: int| 0 <= k < dedup(p).len() && dedup(p)[k] == x;
            if !dedup(p).contains(hs.last()) {
                assert(dedup(hs)[k] == x);
            }
        }
    }
}

proof fn lemma_push_new(acc: Seq<Seq<char>>, h: Seq<char>, x: Seq<char>)
    ensures
        crate::project::decompile::push_new(acc, h).contains(x) <==> (acc.contains(x) || x == h),
{
    if !acc.contains(h) {
        let a2 = acc.push(h);
        if acc.contains(x) {
            let k = choose|k: int| 0 <= k < acc.len() && acc[k] == x;
            assert(a2[k] == x);
        }
        if x == h {
            assert(a2[acc.len() as int] == x);
        }
        if a2.contains(x) {
            let k = choose|k: int| 0 <= k < a2.len() && a2[k] == x;
            if k < acc.len() {
                assert(acc[k] == x);
            }
        }
    }
}

proof fn lemma_stored_from(acc: Seq<Seq<char>>, hs: Seq<Seq<char>>, fv: Seq<(Seq<char>, Seq<u8>)>, x: Seq<char>)
    ensures
        stored_from(acc, hs, fv).contains(x) <==> (acc.contains(x) || (hs.contains(x) && needs_store(
            file_of(fv, x),
        ))),
    decreases hs.len(),
{
    if hs.len() > 0 {
        let p = hs.drop_last();
        lemma_stored_from(acc, p, fv, x);
        lemma_push_new(stored_from(acc, p, fv), hs.last(), x);
        if hs.contains(x) && !p.contains(x) {
            let k = choose|k: int| 0 <= k < hs.len() && hs[k] == x;
            if k < hs.len() - 1 {
                assert(p[k] == x);
            }
        }
        if p.contains(x) {
            let k = choose|k: int| 0 <= k < p.len() && p[k] == x;
            assert(hs[k] == x);
        }
        if x == hs.last() {
            assert(hs[hs.len() - 1] == x);
        }
    }
}

proof fn lemma_stored_after(hashes: Seq<Seq<Seq<char>>>, fv: Seq<(Seq<char>, Seq<u8>)>, k: int, x: Seq<char>)
    requires
        0 <= k <= hashes.len(),
    ensures
        stored_after(hashes, fv, k).contains(x) <==> ((exists|i: int| 0 <= i < k && #[trigger] hashes[i].contains(x))
            && needs_store(file_of(fv, x))),
    decreases k,
{
    if k > 0 {
        lemma_stored_after(hashes, fv, k - 1, x);
        lemma_stored_from(stored_after(hashes, fv, k - 1), dedup(hashes[k - 1]), fv, x);
        lemma_dedup_contains(hashes[k - 1], x);
        if exists|i: int| 0 <= i < k && #[trigger] hashes[i].contains(x) {
            let i = choose|i: int| 0 <= i < k && #[trigger] hashes[i].contains(x);
            if i < k - 1 {
                assert(exists|j: int| 0 <= j < k - 1 && #[trigger] hashes[j].contains(x));
            }
        }
    } else {
        assert(stored_after(hashes, fv, k) =~= Seq::<Seq<char>>::empty());
    }
}

proof fn lemma_with_orphans(acc: Seq<Seq<char>>, names: Seq<Seq<char>>, hashes: Seq<Seq<Seq<char>>>, x: Seq<char>)
    requires
        referenced(hashes, x),
    ensures
        with_orphans(acc, names, hashes).contains(x) <==> acc.contains(x),
    decreases names.len(),
{
    if names.len() > 0 {
        lemma_with_orphans(acc, names.drop_last(), hashes, x);
        lemma_push_new(with_orphans(acc, names.drop_last(), hashes), names.last(), x);
    }
}

/// A confseq some carrier references is kept in `originals/` exactly when it
/// needs storing.
proof fn lemma_originals_hold(
    hashes: Seq<Seq<Seq<char>>>,
    fv: Seq<(Seq<char>, Seq<u8>)>,
    names: Seq<Seq<char>>,
    i: int,
    x: Seq<char>,
)
    requires
        0 <= i < hashes.len(),
        hashes[i].contains(x),
    ensures
        with_orphans(stored_after(hashes, fv, hashes.len() as int), names, hashes).contains(x) <==> needs_store(
            file_of(fv, x),
        ),
{
    assert(referenced(hashes, x));
    lemma_with_orphans(stored_after(hashes, fv, hashes.len() as int), names, hashes, x);
    lemma_stored_after(hashes, fv, hashes.len() as int, x);
}

/// Reading back stored files: each stored entry carries its source bytes.
proof fn lemma_stored_file(stored: Seq<(Seq<char>, Seq<u8>)>, fv: Seq<(Seq<char>, Seq<u8>)>, h: Seq<char>)
    requires
        forall|k: int| 0 <= k < stored.len() ==> (#[trigger] stored[k]).1 == file_of(fv, stored[k].0),
        has_file(stored, h),
    ensures
        file_of(stored, h) == file_of(fv, h),
    decreases stored.len(),
{
    if stored[0].0 != h {
        let k = choose|k: int| 0 <= k < stored.len() && (#[trigger] stored[k]).0 == h;
        assert(stored.drop_first()[k - 1] == stored[k]);
        assert(has_file(stored.drop_first(), h));
        assert forall|j: int| 0 <= j < stored.drop_first().len() implies (#[trigger] stored.drop_first()[j]).1
            == file_of(fv, stored.drop_first()[j].0) by {
            assert(stored.drop_first()[j] == stored[j + 1]);
        }
        lemma_stored_file(stored.drop_first(), fv, h);
    }
}

proof fn lemma_file_for(pc: Seq<(String, CarrierFile)>, s: Seq<char>, i: int)
    requires
        0 <= i < pc.len(),
        pc[i].0@ == s,
        forall|j: int| 0 <= j < pc.len() && j != i ==> (#[trigger] pc[j]).0@ != s,
    ensures
        file_for(pc, s) == Some(pc[i].1),
    decreases i,
{
    if i > 0 {
        assert(pc[0].0@ != s);
        assert forall|j: int| 0 <= j < pc.drop_first().len() && j != i - 1 implies (#[trigger] pc.drop_first()[j]).0@
            != s by {
            assert(pc.drop_first()[j] == pc[j + 1]);
        }
        lemma_file_for(pc.drop_first(), s, i - 1);
    }
}

/// The stored files are the originals, each with its source bytes.
pub open spec fn stored_of(
    stored: Seq<(Seq<char>, Seq<u8>)>,
    originals: Seq<Seq<char>>,
    files: Seq<(Seq<char>, Seq<u8>)>,
) -> bool {
    &&& stored.len() == originals.len()
    &&& forall|k: int| 0 <= k < originals.len() ==> #[trigger] stored[k] == (originals[k], file_of(files, originals[k]))
}

proof fn lemma_stored_has(
    stored: Seq<(Seq<char>, Seq<u8>)>,
    originals: Seq<Seq<char>>,
    fv: Seq<(Seq<char>, Seq<u8>)>,
    h: Seq<char>,
)
    requires
        stored_of(stored, originals, fv),
    ensures
        has_file(stored, h) <==> originals.contains(h),
        originals.contains(h) ==> file_of(stored, h) == file_of(fv, h),
{
    if originals.contains(h) {
        let k = choose|k: int| 0 <= k < originals.len() && originals[k] == h;
        assert(stored[k].0 == h);
        assert forall|j: int| 0 <= j < stored.len() implies (#[trigger] stored[j]).1 == file_of(fv, stored[j].0) by {
            assert(stored[j] == (originals[j], file_of(fv, originals[j])));
        }
        lemma_stored_file(stored, fv, h);
    }
    if has_file(stored, h) {
        let k = choose|k: int| 0 <= k < stored.len() && (#[trigger] stored[k]).0 == h;
        assert(stored[k] == (originals[k], file_of(fv, originals[k])));
        assert(originals[k] == h);
    }
}

/// `b` keeps the writes of `a`, in place, and may add more.
pub open spec fn extends(a: Seq<(Seq<char>, Seq<u8>)>, b: Seq<(Seq<char>, Seq<u8>)>) -> bool {
    a.len() <= b.len() && forall|w: int| 0 <= w < a.len() ==> #[trigger] b[w] == a[w]
}

/// The confseq a module is locked to is kept in `originals/`, or written.
pub open spec fn plain_written(
    writes: Seq<(Seq<char>, Seq<u8>)>,
    locks: Seq<LockView>,
    s: Seq<char>,
    n: Seq<char>,
    fv: Seq<(Seq<char>, Seq<u8>)>,
) -> bool {
    lock_for(locks, s, n) matches Some(h) && (needs_store(file_of(fv, h)) || written(writes, h))
}

proof fn lemma_written_extends(a: Seq<(Seq<char>, Seq<u8>)>, b: Seq<(Seq<char>, Seq<u8>)>, h: Seq<char>)
    requires
        extends(a, b),
        written(a, h),
    ensures
        written(b, h),
{
    let w = choose|w: int| 0 <= w < a.len() && (#[trigger] a[w]).0 == h;
    assert(b[w] == a[w]);
}

/// Compiling one carrier's unedited modules writes only source files and
/// remaps nothing.
proof fn lemma_modules_reproduce(
    st: CompileState,
    s: Seq<char>,
    cm: Seq<char>,
    mods: Seq<(String, ModuleToml)>,
    j: int,
    locks: Seq<LockView>,
    stored: Seq<(Seq<char>, Seq<u8>)>,
    hs: Seq<Seq<char>>,
    fv: Seq<(Seq<char>, Seq<u8>)>,
    originals: Seq<Seq<char>>,
    cz: spec_fn(int, Seq<u8>) -> Seq<u8>,
)
    requires
        0 <= j <= mods.len(),
        reproduces(st, fv),
        keys_sorted(keys_of(mods)),
        modules_view(mods) == modules_spec(hs, fv),
        names_ok(hs, fv),
        forall|n: Seq<char>| #[trigger] lock_for(locks, s, n) == lock_for(carrier_locks(s, hs, fv), s, n),
        forall|h: Seq<char>|
            #[trigger] hs.contains(h) ==> faithful_confseq(fv, h) && (originals.contains(h) <==> needs_store(
                file_of(fv, h),
            )),
        stored_of(stored, originals, fv),
    ensures
        modules_steps(st, s, cm, mods, j, locks, stored, cz) matches Ok(st2) && reproduces(st2, fv) && extends(
            st.writes,
            st2.writes,
        ) && forall|m: int| 0 <= m < j ==> plain_written(st2.writes, locks, s, (#[trigger] mods[m]).0@, fv),
    decreases j,
{
    if j == 0 {
        assert(extends(st.writes, st.writes));
    }
    if j > 0 {
        lemma_modules_reproduce(st, s, cm, mods, j - 1, locks, stored, hs, fv, originals, cz);
        let s1 = modules_steps(st, s, cm, mods, j - 1, locks, stored, cz)->Ok_0;
        let name = mods[j - 1].0@;
        let mv = mods[j - 1].1@;
        lemma_as_map_at(mods, j - 1);
        assert(modules_view(mods).contains_key(name));
        assert(modules_view(mods)[name] == as_map(mods)[name]@);
        assert(modules_view(mods)[name] == mv);
        assert(modules_spec(hs, fv).contains_key(name));
        lemma_carrier_module_lock(s, hs, fv, name);
        let h = lock_for(carrier_locks(s, hs, fv), s, name)->Some_0;
        assert(lock_for(locks, s, name) == Some(h));
        let b = file_of(fv, h);
        assert(faithful_confseq(fv, h));
        assert(module_outcome(b) == ModuleOutcome::Editable(name, mv));
        lemma_rebuilt_is_decoded(b);
        lemma_stored_has(stored, originals, fv, h);
        assert(needs_store(b) == mv.compressed);
        let cs = decode_spec(b)->Ok_0;
        assert(rebuilt_spec(name, mv) == cs);
        if mv.compressed {
            assert(has_file(stored, h));
            assert(module_step(s1, s, cm, name, mv, locks, stored, cz) == Ok::<CompileState, crate::error::ErrorView>(s1));
            assert(plain_written(s1.writes, locks, s, name, fv));
        } else {
            assert(!has_file(stored, h));
            assert(encode_spec(cs) == b);
            let st2 = CompileState { writes: s1.writes.push((h, b)), ..s1 };
            assert(module_step(s1, s, cm, name, mv, locks, stored, cz) == Ok::<CompileState, crate::error::ErrorView>(st2));
            assert forall|w: int| 0 <= w < st2.writes.len() implies has_file(fv, #[trigger] st2.writes[w].0)
                && file_of(fv, st2.writes[w].0) == st2.writes[w].1 by {
                if w < s1.writes.len() {
                    assert(st2.writes[w] == s1.writes[w]);
                }
            }
            assert(extends(s1.writes, st2.writes));
            assert(st2.writes[s1.writes.len() as int].0 == h);
            assert(written(st2.writes, h));
            assert(plain_written(st2.writes, locks, s, name, fv));
            assert forall|m: int| 0 <= m < j - 1 implies plain_written(st2.writes, locks, s, (#[trigger] mods[m]).0@, fv) by {
                assert(plain_written(s1.writes, locks, s, mods[m].0@, fv));
                let hm = lock_for(locks, s, mods[m].0@)->Some_0;
                if !needs_store(file_of(fv, hm)) {
                    lemma_written_extends(s1.writes, st2.writes, hm);
                }
            }
            assert(extends(st.writes, st2.writes));
        }
    }
}

/// The module name a confseq decodes to, if it becomes an editable module.
pub open spec fn editable_name(b: Seq<u8>) -> Option<Seq<char>> {
    match module_outcome(b) {
        ModuleOutcome::Editable(n, _) => Some(n),
        ModuleOutcome::Blob => None,
    }
}

/// No two confseqs of a carrier decode to modules with the same name.
pub open spec fn module_names_unique(hs: Seq<Seq<char>>, files: Seq<(Seq<char>, Seq<u8>)>) -> bool {
    forall|a: Seq<char>, b: Seq<char>|
        #![trigger hs.contains(a), hs.contains(b)]
        hs.contains(a) && hs.contains(b) && editable_name(file_of(files, a)) is Some && editable_name(
            file_of(files, a),
        ) == editable_name(file_of(files, b)) ==> a == b
}

proof fn lemma_modules_spec_has(hs: Seq<Seq<char>>, fv: Seq<(Seq<char>, Seq<u8>)>, h: Seq<char>)
    requires
        hs.contains(h),
        module_outcome(file_of(fv, h)) is Editable,
    ensures
        modules_spec(hs, fv).contains_key(module_outcome(file_of(fv, h))->Editable_0),
    decreases hs.len(),
{
    let p = hs.drop_last();
    let n = module_outcome(file_of(fv, h))->Editable_0;
    if hs.last() != h {
        let k = choose|k: int| 0 <= k < hs.len() && hs[k] == h;
        assert(p[k] == h);
        lemma_modules_spec_has(p, fv, h);
    }
}

proof fn lemma_carriers_reproduce(
    carriers: Seq<Carrier>,
    hashes: Seq<Seq<Seq<char>>>,
    files: Seq<(Seq<char>, Seq<u8>)>,
    names: Seq<Seq<char>>,
    plan_carriers: Seq<(String, CarrierFile)>,
    locks: Seq<LockView>,
    originals: Seq<Seq<char>>,
    stored: Seq<(Seq<char>, Seq<u8>)>,
    k: int,
    cz: spec_fn(int, Seq<u8>) -> Seq<u8>,
)
    requires
        0 <= k <= carriers.len(),
        hashes.len() == carriers.len(),
        slugs_distinct(carriers),
        forall|i: int, j: int|
            0 <= i < hashes.len() && 0 <= j < hashes[i].len() ==> faithful_confseq(files, #[trigger] hashes[i][j]),
        plan_carriers.len() == carriers.len(),
        forall|i: int|
            0 <= i < carriers.len() ==> decompiled_carrier(#[trigger] plan_carriers[i], carriers[i], hashes[i], files),
        locks == all_locks(carriers, hashes, files, carriers.len() as int),
        originals == with_orphans(stored_after(hashes, files, carriers.len() as int), names, hashes),
        stored_of(stored, originals, files),
        forall|i: int| 0 <= i < hashes.len() ==> module_names_unique(#[trigger] hashes[i], files),
    ensures
        carriers_steps(carriers, k, plan_carriers, locks, stored, cz) matches Ok(st) && reproduces(st, files)
            && forall|i: int, h: Seq<char>|
            0 <= i < k && #[trigger] hashes[i].contains(h) ==> needs_store(file_of(files, h)) || written(
                st.writes,
                h,
            ),
    decreases k,
{
    if k > 0 {
        lemma_carriers_reproduce(carriers, hashes, files, names, plan_carriers, locks, originals, stored, k - 1, cz);
        let i = k - 1;
        let c = carriers[i];
        let s = slug_spec(c);
        assert(decompiled_carrier(plan_carriers[i], carriers[i], hashes[i], files));
        assert forall|j: int| 0 <= j < plan_carriers.len() && j != i implies (#[trigger] plan_carriers[j]).0@ != s by {
            assert(decompiled_carrier(plan_carriers[j], carriers[j], hashes[j], files));
            if j < i {
                assert(slug_spec(carriers[j]) != slug_spec(carriers[i]));
            } else {
                assert(slug_spec(carriers[i]) != slug_spec(carriers[j]));
            }
        }
        lemma_file_for(plan_carriers, s, i);
        let cf = plan_carriers[i].1;
        let hs = dedup(hashes[i]);
        assert forall|n: Seq<char>| #[trigger] lock_for(locks, s, n) == lock_for(carrier_locks(s, hs, files), s, n) by {
            lemma_all_locks_own(carriers, hashes, files, i, carriers.len() as int, n);
        }
        assert forall|h: Seq<char>|
            #[trigger] hs.contains(h) implies faithful_confseq(files, h) && (originals.contains(h) <==> needs_store(
                file_of(files, h),
            )) by {
            lemma_dedup_contains(hashes[i], h);
            let j = choose|j: int| 0 <= j < hashes[i].len() && hashes[i][j] == h;
            assert(faithful_confseq(files, hashes[i][j]));
            lemma_originals_hold(hashes, files, names, i, h);
        }
        assert(names_ok(hs, files)) by {
            assert forall|h: Seq<char>| hs.contains(h) implies (#[trigger] module_outcome(file_of(files, h)) matches ModuleOutcome::Editable(
                n,
                _,
            ) ==> !is_blob_module(n)) by {
                assert(faithful_confseq(files, h));
            }
        }
        let s1 = carriers_steps(carriers, k - 1, plan_carriers, locks, stored, cz)->Ok_0;
        lemma_modules_reproduce(
            s1,
            s,
            c.confman@,
            cf.confseq@,
            cf.confseq@.len() as int,
            locks,
            stored,
            hs,
            files,
            originals,
            cz,
        );
        let st = carriers_steps(carriers, k, plan_carriers, locks, stored, cz)->Ok_0;
        assert(st == modules_steps(s1, s, c.confman@, cf.confseq@, cf.confseq@.len() as int, locks, stored, cz)->Ok_0);
        assert forall|a: int, h: Seq<char>|
            0 <= a < k && #[trigger] hashes[a].contains(h) implies needs_store(file_of(files, h)) || written(
                st.writes,
                h,
            ) by {
            if a < i {
                if !needs_store(file_of(files, h)) {
                    lemma_written_extends(s1.writes, st.writes, h);
                }
            } else if !needs_store(file_of(files, h)) {
                lemma_dedup_contains(hashes[i], h);
                let b = file_of(files, h);
                assert(module_outcome(b) is Editable);
                let n = module_outcome(b)->Editable_0;
                lemma_modules_spec_has(hs, files, h);
                lemma_carrier_module_lock(s, hs, files, n);
                let h2 = lock_for(carrier_locks(s, hs, files), s, n)->Some_0;
                lemma_dedup_contains(hashes[i], h2);
                assert(module_names_unique(hashes[i], files));
                assert(editable_name(file_of(files, h2)) == Some(n));
                assert(editable_name(b) == Some(n));
                assert(h2 == h);
                assert(modules_view(cf.confseq@).contains_key(n));
                let m = choose|m: int| 0 <= m < cf.confseq@.len() && cf.confseq@[m].0@ == n;
                assert(plain_written(st.writes, locks, s, cf.confseq@[m].0@, files));
            }
        }
    }
}

proof fn lemma_with_orphans_adds(acc: Seq<Seq<char>>, names: Seq<Seq<char>>, hashes: Seq<Seq<Seq<char>>>, x: Seq<char>)
    requires
        names.contains(x),
        !referenced(hashes, x),
    ensures
        with_orphans(acc, names, hashes).contains(x),
    decreases names.len(),
{
    let p = names.drop_last();
    lemma_push_new(with_orphans(acc, p, hashes), names.last(), x);
    if names.last() != x {
        let k = choose|k: int| 0 <= k < names.len() && names[k] == x;
        assert(p[k] == x);
        lemma_with_orphans_adds(acc, p, hashes, x);
        lemma_push_new(with_orphans(acc, p, hashes), names.last(), x);
    }
}

/// An unedited project compiles back to its source. Take a cfgdb whose
/// carriers have distinct slugs, whose referenced confseqs are named by their
/// content hash, whose editable modules have no `blob:` name and whose plain
/// editable modules encode back to their own bytes, and where no two confseqs
/// of a carrier decode to modules with the same name. Give `compile` exactly
/// what `decompile` made of it: the carrier files, the locks, and the files `originals/` keeps. Then
/// compiling remaps no reference (so no manifest and no `confman_<hash>`
/// table changes), every confseq it writes is a source file with its source
/// bytes, and every confseq file of the source (every name listed, and every
/// referenced hash) is either kept in `originals/` or written. This holds
/// whatever CLZ4 containers `cz` the run's compressions gave (an unedited
/// project compresses nothing).
pub proof fn law_unedited_project_compiles_to_its_source(
    carriers: Seq<Carrier>,
    hashes: Seq<Seq<Seq<char>>>,
    files: Seq<(Seq<char>, Seq<u8>)>,
    names: Seq<Seq<char>>,
    plan_carriers: Seq<(String, CarrierFile)>,
    locks: Seq<LockView>,
    originals: Seq<Seq<char>>,
    stored: Seq<(Seq<char>, Seq<u8>)>,
    cz: spec_fn(int, Seq<u8>) -> Seq<u8>,
)
    requires
        hashes.len() == carriers.len(),
        slugs_distinct(carriers),
        forall|i: int, j: int|
            0 <= i < hashes.len() && 0 <= j < hashes[i].len() ==> faithful_confseq(files, #[trigger] hashes[i][j]),
        forall|i: int| 0 <= i < hashes.len() ==> module_names_unique(#[trigger] hashes[i], files),
        plan_carriers.len() == carriers.len(),
        forall|i: int|
            0 <= i < carriers.len() ==> decompiled_carrier(#[trigger] plan_carriers[i], carriers[i], hashes[i], files),
        locks == all_locks(carriers, hashes, files, carriers.len() as int),
        originals == with_orphans(stored_after(hashes, files, carriers.len() as int), names, hashes),
        stored_of(stored, originals, files),
    ensures
        carriers_steps(carriers, carriers.len() as int, plan_carriers, locks, stored, cz) matches Ok(st)
            && reproduces(st, files) && (forall|x: Seq<char>|
            #[trigger] names.contains(x) ==> originals.contains(x) || written(st.writes, x)) && (forall|
            i: int,
            x: Seq<char>,
        | 0 <= i < hashes.len() && #[trigger] hashes[i].contains(x) ==> originals.contains(x) || written(
            st.writes,
            x,
        )),
{
    lemma_carriers_reproduce(
        carriers,
        hashes,
        files,
        names,
        plan_carriers,
        locks,
        originals,
        stored,
        carriers.len() as int,
        cz,
    );
    let st = carriers_steps(carriers, carriers.len() as int, plan_carriers, locks, stored, cz)->Ok_0;
    assert forall|i: int, x: Seq<char>|
        0 <= i < hashes.len() && #[trigger] hashes[i].contains(x) implies originals.contains(x) || written(
            st.writes,
            x,
        ) by {
        lemma_originals_hold(hashes, files, names, i, x);
    }
    assert forall|x: Seq<char>| #[trigger] names.contains(x) implies originals.contains(x) || written(st.writes, x) by {
        if referenced(hashes, x) {
            let i = choose|i: int| 0 <= i < hashes.len() && (#[trigger] hashes[i]).contains(x);
            lemma_originals_hold(hashes, files, names, i, x);
        } else {
            lemma_with_orphans_adds(stored_after(hashes, files, carriers.len() as int), names, hashes, x);
        }
    }
}

/// No two items of a confseq have the same key.
pub open spec fn keys_distinct(items: Seq<NvItemView>) -> bool {
    forall|i: int, j: int|
        0 <= i < j < items.len() ==> item_key_spec(#[trigger] items[i].id) != item_key_spec(#[trigger] items[j].id)
}

proof fn lemma_keyed_items_keys(items: Seq<NvItemView>, k: Seq<char>)
    ensures
        has_key(keyed_items(items), k) <==> exists|i: int| 0 <= i < items.len() && item_key_spec(#[trigger] items[i].id) == k,
    decreases items.len(),
{
    if items.len() > 0 {
        let p = items.drop_last();
        lemma_keyed_items_keys(p, k);
        let m = keyed_items(p);
        let kl = item_key_spec(items.last().id);
        let r = keyed_items(items);
        lemma_entries_insert_keys(m, kl, items.last().vals);
        if has_key(m, k) {
            let x = choose|i: int| 0 <= i < m.len() && (#[trigger] m[i]).0 == k;
            assert(r[x].0 == k);
        }
        if has_key(r, k) {
            let x = choose|i: int| 0 <= i < r.len() && (#[trigger] r[i]).0 == k;
            if x < m.len() {
                assert(m[x].0 == k);
            }
        }
        if exists|i: int| 0 <= i < items.len() && item_key_spec(#[trigger] items[i].id) == k {
            let i = choose|i: int| 0 <= i < items.len() && item_key_spec(#[trigger] items[i].id) == k;
            if i < p.len() {
                assert(item_key_spec(p[i].id) == k);
            }
        }
        if exists|i: int| 0 <= i < p.len() && item_key_spec(#[trigger] p[i].id) == k {
            let i = choose|i: int| 0 <= i < p.len() && item_key_spec(#[trigger] p[i].id) == k;
            assert(item_key_spec(items[i].id) == k);
        }
    }
}

proof fn lemma_keyed_items_len(items: Seq<NvItemView>)
    ensures
        keyed_items(items).len() <= items.len(),
        keyed_items(items).len() == items.len() <==> keys_distinct(items),
    decreases items.len(),
{
    if items.len() > 0 {
        let p = items.drop_last();
        lemma_keyed_items_len(p);
        let kl = item_key_spec(items.last().id);
        lemma_keyed_items_keys(p, kl);
        lemma_entries_insert_keys(keyed_items(p), kl, items.last().vals);
        let last = items.len() - 1;
        if keys_distinct(items) {
            assert(keys_distinct(p)) by {
                assert forall|i: int, j: int| 0 <= i < j < p.len() implies item_key_spec(#[trigger] p[i].id) != item_key_spec(#[trigger] p[j].id) by {
                    assert(items[i] == p[i] && items[j] == p[j]);
                }
            }
            if exists|i: int| 0 <= i < p.len() && item_key_spec(#[trigger] p[i].id) == kl {
                let i = choose|i: int| 0 <= i < p.len() && item_key_spec(#[trigger] p[i].id) == kl;
                assert(items[i] == p[i]);
                assert(item_key_spec(items[i].id) != item_key_spec(items[last].id));
            }
        } else {
            let (i, j) = choose|i: int, j: int|
                0 <= i < j < items.len() && item_key_spec(#[trigger] items[i].id) == item_key_spec(#[trigger] items[j].id);
            if j == last {
                assert(p[i] == items[i]);
                assert(item_key_spec(p[i].id) == kl);
            } else {
                assert(p[i] == items[i] && p[j] == items[j]);
                assert(!keys_distinct(p));
            }
        }
    }
}

/// A confseq becomes an editable module exactly when it decodes and no two
/// of its items share a key; otherwise (undecodable, or an NV id repeated) it
/// is kept as an opaque blob.
pub proof fn law_editable_iff_keys_distinct(b: Seq<u8>)
    ensures
        module_outcome(b) is Editable <==> (decode_spec(b) matches Ok(cs) && keys_distinct(cs.items)),
{
    reveal(module_outcome);
    if let Ok(cs) = decode_spec(b) {
        lemma_keyed_items_len(cs.items);
    }
}

/// A module's keys each read back as themselves (`item_key(key_to_id(k)) ==
/// k`: a table name, or `unknown_<id>` in its own spelling), and no key twice.
pub open spec fn canonical_keys(items: Seq<(Seq<char>, Seq<Seq<i64>>)>) -> bool {
    &&& forall|i: int| 0 <= i < items.len() ==> item_key_spec(key_to_id_spec(#[trigger] items[i].0)) == items[i].0
    &&& forall|i: int, j: int| 0 <= i < j < items.len() ==> (#[trigger] items[i]).0 != (#[trigger] items[j]).0
}

/// An edit round-trips: the plain confseq `compile` writes for a module whose
/// keys are canonical decompiles into that same module (its name, revision and
/// items in order, with their exact value groups), as a plain module.
pub proof fn law_edit_roundtrips(name: Seq<char>, mv: ModuleView)
    requires
        canonical_keys(mv.items),
        encode_spec(rebuilt_spec(name, mv)).len() <= usize::MAX,
    ensures
        module_outcome(encode_spec(rebuilt_spec(name, mv))) == ModuleOutcome::Editable(
            name,
            ModuleView { revision: mv.revision, compressed: false, items: mv.items },
        ),
{
    reveal(module_outcome);
    let rb = rebuilt_spec(name, mv);
    let b = encode_spec(rb);
    crate::confseq::law_encode_decode_roundtrip(rb);
    crate::confseq::lemma_encode_not_clz4(rb);
    assert(keys_distinct(rb.items)) by {
        assert forall|i: int, j: int| 0 <= i < j < rb.items.len() implies item_key_spec(#[trigger] rb.items[i].id)
            != item_key_spec(#[trigger] rb.items[j].id) by {
            assert(rb.items[i].id == key_to_id_spec(mv.items[i].0));
            assert(rb.items[j].id == key_to_id_spec(mv.items[j].0));
            assert(mv.items[i].0 != mv.items[j].0);
        }
    }
    lemma_keyed_items_len(rb.items);
    lemma_keyed_items_distinct(rb.items);
    assert forall|i: int| 0 <= i < mv.items.len() implies #[trigger] keyed_items(rb.items)[i] == mv.items[i] by {
        assert(keyed_items(rb.items)[i] == (item_key_spec(rb.items[i].id), rb.items[i].vals));
    }
    assert(keyed_items(rb.items) =~= mv.items);
}

/// What `originals/` keeps: a confseq some carrier references is kept exactly
/// when compile cannot rebuild it from a carrier file (an opaque blob, or a
/// CLZ4-compressed module); a listed confseq no carrier references (an
/// orphan) is always kept.
pub proof fn law_originals_keep_what_compile_cannot_rebuild(
    hashes: Seq<Seq<Seq<char>>>,
    files: Seq<(Seq<char>, Seq<u8>)>,
    names: Seq<Seq<char>>,
    x: Seq<char>,
)
    ensures
        referenced(hashes, x) ==> (with_orphans(stored_after(hashes, files, hashes.len() as int), names, hashes).contains(x)
            <==> needs_store(file_of(files, x))),
        !referenced(hashes, x) && names.contains(x) ==> with_orphans(
            stored_after(hashes, files, hashes.len() as int),
            names,
            hashes,
        ).contains(x),
        needs_store(file_of(files, x)) <==> (module_outcome(file_of(files, x)) is Blob || is_clz4_spec(file_of(files, x))),
{
    if referenced(hashes, x) {
        let i = choose|i: int| 0 <= i < hashes.len() && (#[trigger] hashes[i]).contains(x);
        lemma_originals_hold(hashes, files, names, i, x);
    } else if names.contains(x) {
        lemma_with_orphans_adds(stored_after(hashes, files, hashes.len() as int), names, hashes, x);
    }
    reveal(module_outcome);
}

} // verus!
