//! What compiling an edited project may touch: every confseq written is named
//! by its content hash, and every remap entry belongs to a carrier that has a
//! module locked to the remapped hash (so confmans of other carriers keep
//! their confseqs).
use vstd::prelude::*;

use crate::cfgdb::Carrier;
use crate::confseq::content_hash_spec;
use crate::confseq::{decode_spec, encode_spec};
use crate::project::compile::{
    carriers_steps, file_for, item_map_spec, lock_for, module_step, modules_steps, rebuilt_spec,
    remap_insert, remap_lookup, CompileState, RemapView,
};
use crate::project::decompile::{file_of, has_file};
use crate::project::decompile::slug_spec;
use crate::project::model::{CarrierFile, LockView};

verus! {

/// Every confseq written is named by the content hash of its bytes.
pub open spec fn writes_addressed(st: CompileState) -> bool {
    forall|w: int| 0 <= w < st.writes.len() ==> content_hash_spec(#[trigger] st.writes[w].1) == st.writes[w].0
}

/// Some confseq written is named `h`.
pub open spec fn written(writes: Seq<(Seq<char>, Seq<u8>)>, h: Seq<char>) -> bool {
    exists|w: int| 0 <= w < writes.len() && (#[trigger] writes[w]).0 == h
}

/// Every remap entry's new hash names a confseq that is written.
pub open spec fn remap_written(st: CompileState) -> bool {
    forall|i: int| 0 <= i < st.remap.len() ==> written(st.writes, (#[trigger] st.remap[i]).new)
}

/// The carrier file with stem `slug` has, at place `j`, a module locked to
/// `old`.
pub open spec fn locked_module(
    files: Seq<(String, CarrierFile)>,
    locks: Seq<LockView>,
    slug: Seq<char>,
    j: int,
    old: Seq<char>,
) -> bool {
    match file_for(files, slug) {
        Some(cf) => 0 <= j < cf.confseq@.len() && lock_for(locks, slug, cf.confseq@[j].0@) == Some(old),
        None => false,
    }
}

/// A remap entry comes from a carrier with that confman whose carrier file
/// has a module locked to the entry's old hash.
pub open spec fn remap_origin(
    carriers: Seq<Carrier>,
    files: Seq<(String, CarrierFile)>,
    locks: Seq<LockView>,
    r: RemapView,
) -> bool {
    exists|k: int, j: int|
        #![trigger carriers[k], locked_module(files, locks, slug_spec(carriers[k]), j, r.old)]
        0 <= k < carriers.len() && carriers[k].confman@ == r.confman && locked_module(
            files,
            locks,
            slug_spec(carriers[k]),
            j,
            r.old,
        )
}

/// Every remap entry has its origin.
pub open spec fn remaps_from(
    st: CompileState,
    carriers: Seq<Carrier>,
    files: Seq<(String, CarrierFile)>,
    locks: Seq<LockView>,
) -> bool {
    forall|i: int| 0 <= i < st.remap.len() ==> remap_origin(carriers, files, locks, #[trigger] st.remap[i])
}

/// The three together.
pub open spec fn compile_state_ok(
    st: CompileState,
    carriers: Seq<Carrier>,
    files: Seq<(String, CarrierFile)>,
    locks: Seq<LockView>,
) -> bool {
    &&& writes_addressed(st)
    &&& remap_written(st)
    &&& remaps_from(st, carriers, files, locks)
}

proof fn lemma_push_write(st: CompileState, nh: Seq<char>, bytes: Seq<u8>, carriers: Seq<Carrier>, files: Seq<(String, CarrierFile)>, locks: Seq<LockView>)
    requires
        compile_state_ok(st, carriers, files, locks),
        content_hash_spec(bytes) == nh,
    ensures
        compile_state_ok(CompileState { writes: st.writes.push((nh, bytes)), ..st }, carriers, files, locks),
{
    let st2 = CompileState { writes: st.writes.push((nh, bytes)), ..st };
    assert(st2.remap == st.remap);
    assert(remaps_from(st2, carriers, files, locks));
    assert forall|w: int| 0 <= w < st2.writes.len() implies content_hash_spec(#[trigger] st2.writes[w].1) == st2.writes[w].0 by {
        if w < st.writes.len() {
            assert(st2.writes[w] == st.writes[w]);
        }
    }
    assert forall|i: int| 0 <= i < st2.remap.len() implies written(st2.writes, (#[trigger] st2.remap[i]).new) by {
        assert(st2.remap[i] == st.remap[i]);
        assert(written(st.writes, st.remap[i].new));
        let w = choose|w: int| 0 <= w < st.writes.len() && (#[trigger] st.writes[w]).0 == st.remap[i].new;
        assert(st2.writes[w] == st.writes[w]);
    }
}

proof fn lemma_remap_insert_ok(
    s: CompileState,
    orig: Seq<char>,
    nh: Seq<char>,
    carriers: Seq<Carrier>,
    files: Seq<(String, CarrierFile)>,
    locks: Seq<LockView>,
    k: int,
    cf: CarrierFile,
    j: int,
)
    requires
        compile_state_ok(s, carriers, files, locks),
        s.writes.len() > 0,
        s.writes.last().0 == nh,
        0 <= k < carriers.len(),
        file_for(files, slug_spec(carriers[k])) == Some(cf),
        0 <= j < cf.confseq@.len(),
        lock_for(locks, slug_spec(carriers[k]), cf.confseq@[j].0@) == Some(orig),
    ensures
        remap_insert(s, carriers[k].confman@, orig, nh) matches Ok(s2) ==> compile_state_ok(s2, carriers, files, locks),
{
    let cm = carriers[k].confman@;
    if remap_lookup(s.remap, cm, orig) is None {
        let e = RemapView { confman: cm, old: orig, new: nh };
        let s2 = CompileState { remap: s.remap.push(e), ..s };
        assert(locked_module(files, locks, slug_spec(carriers[k]), j, orig));
        assert(0 <= k < carriers.len() && carriers[k].confman@ == e.confman && locked_module(
            files,
            locks,
            slug_spec(carriers[k]),
            j,
            e.old,
        ));
        assert(remap_origin(carriers, files, locks, e));
        assert forall|i: int| 0 <= i < s2.remap.len() implies remap_origin(carriers, files, locks, #[trigger] s2.remap[i]) by {
            if i < s.remap.len() {
                assert(s2.remap[i] == s.remap[i]);
            }
        }
        assert forall|i: int| 0 <= i < s2.remap.len() implies written(s2.writes, (#[trigger] s2.remap[i]).new) by {
            if i < s.remap.len() {
                assert(s2.remap[i] == s.remap[i]);
            } else {
                assert(s2.writes[s2.writes.len() - 1].0 == nh);
            }
        }
    }
}

proof fn lemma_module_step_ok(
    st: CompileState,
    carriers: Seq<Carrier>,
    files: Seq<(String, CarrierFile)>,
    locks: Seq<LockView>,
    stored: Seq<(Seq<char>, Seq<u8>)>,
    k: int,
    cf: CarrierFile,
    j: int,
    cz: spec_fn(int, Seq<u8>) -> Seq<u8>,
)
    requires
        compile_state_ok(st, carriers, files, locks),
        0 <= k < carriers.len(),
        file_for(files, slug_spec(carriers[k])) == Some(cf),
        0 <= j < cf.confseq@.len(),
    ensures
        module_step(
            st,
            slug_spec(carriers[k]),
            carriers[k].confman@,
            cf.confseq@[j].0@,
            cf.confseq@[j].1@,
            locks,
            stored,
            cz,
        ) matches Ok(st2) ==> compile_state_ok(st2, carriers, files, locks),
{
    let slug = slug_spec(carriers[k]);
    let cm = carriers[k].confman@;
    let name = cf.confseq@[j].0@;
    let mv = cf.confseq@[j].1@;
    if let Some(orig) = lock_for(locks, slug, name) {
        let rb = rebuilt_spec(name, mv);
        if has_file(stored, orig) {
            if let Ok(ocs) = decode_spec(file_of(stored, orig)) {
                if !(ocs.revision == rb.revision && item_map_spec(ocs.items) == item_map_spec(rb.items)) {
                    let bytes = if mv.compressed {
                        cz(st.writes.len() as int, encode_spec(rb))
                    } else {
                        encode_spec(rb)
                    };
                    let nh = content_hash_spec(bytes);
                    let s1 = CompileState { writes: st.writes.push((nh, bytes)), ..st };
                    lemma_push_write(st, nh, bytes, carriers, files, locks);
                    lemma_remap_insert_ok(s1, orig, nh, carriers, files, locks, k, cf, j);
                }
            }
        } else {
            let bytes = encode_spec(rb);
            let nh = content_hash_spec(bytes);
            let s1 = CompileState { writes: st.writes.push((nh, bytes)), ..st };
            lemma_push_write(st, nh, bytes, carriers, files, locks);
            lemma_remap_insert_ok(s1, orig, nh, carriers, files, locks, k, cf, j);
        }
    }
}

proof fn lemma_modules_steps_ok(
    st: CompileState,
    carriers: Seq<Carrier>,
    files: Seq<(String, CarrierFile)>,
    locks: Seq<LockView>,
    stored: Seq<(Seq<char>, Seq<u8>)>,
    k: int,
    cf: CarrierFile,
    j: int,
    cz: spec_fn(int, Seq<u8>) -> Seq<u8>,
)
    requires
        compile_state_ok(st, carriers, files, locks),
        0 <= k < carriers.len(),
        file_for(files, slug_spec(carriers[k])) == Some(cf),
        0 <= j <= cf.confseq@.len(),
    ensures
        modules_steps(st, slug_spec(carriers[k]), carriers[k].confman@, cf.confseq@, j, locks, stored, cz) matches Ok(st2)
            ==> compile_state_ok(st2, carriers, files, locks),
    decreases j,
{
    if j > 0 {
        lemma_modules_steps_ok(st, carriers, files, locks, stored, k, cf, j - 1, cz);
        let prev = modules_steps(st, slug_spec(carriers[k]), carriers[k].confman@, cf.confseq@, j - 1, locks, stored, cz);
        if let Ok(s1) = prev {
            lemma_module_step_ok(s1, carriers, files, locks, stored, k, cf, j - 1, cz);
        }
    }
}

proof fn lemma_carriers_steps_ok(
    carriers: Seq<Carrier>,
    k: int,
    files: Seq<(String, CarrierFile)>,
    locks: Seq<LockView>,
    stored: Seq<(Seq<char>, Seq<u8>)>,
    cz: spec_fn(int, Seq<u8>) -> Seq<u8>,
)
    requires
        0 <= k <= carriers.len(),
    ensures
        carriers_steps(carriers, k, files, locks, stored, cz) matches Ok(st) ==> compile_state_ok(st, carriers, files, locks),
    decreases k,
{
    if k > 0 {
        lemma_carriers_steps_ok(carriers, k - 1, files, locks, stored, cz);
        if let Ok(s1) = carriers_steps(carriers, k - 1, files, locks, stored, cz) {
            if let Some(cf) = file_for(files, slug_spec(carriers[k - 1])) {
                lemma_modules_steps_ok(s1, carriers, files, locks, stored, k - 1, cf, cf.confseq@.len() as int, cz);
            }
        }
    } else {
        let st = CompileState { writes: Seq::empty(), remap: Seq::empty() };
        assert(compile_state_ok(st, carriers, files, locks));
    }
}

/// What a compile touches. Whatever the project holds, when compiling
/// succeeds: every confseq it writes is named by the content hash of its
/// bytes; every remapped hash is replaced by one it writes; and every remap
/// entry `(confman, old, new)` comes from a carrier with that confman whose
/// carrier file has a module locked to `old`. A confman no such carrier uses
/// keeps its table and its manifest. This holds whatever CLZ4 containers
/// `cz` the run's compressions gave.
pub proof fn law_compile_touches_only_edited_confmans(
    carriers: Seq<Carrier>,
    files: Seq<(String, CarrierFile)>,
    locks: Seq<LockView>,
    stored: Seq<(Seq<char>, Seq<u8>)>,
    cz: spec_fn(int, Seq<u8>) -> Seq<u8>,
)
    ensures
        carriers_steps(carriers, carriers.len() as int, files, locks, stored, cz) matches Ok(st)
            ==> compile_state_ok(st, carriers, files, locks),
{
    lemma_carriers_steps_ok(carriers, carriers.len() as int, files, locks, stored, cz);
}

} // verus!
