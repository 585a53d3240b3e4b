//! report: the decisions behind `check`, `inspect` and `self-test`.
use vstd::prelude::*;

use crate::error::{opt_view, Error, ErrorView, ProjectError, ProjectErrorView};
use crate::manifest::{manifest_decode_spec, Manifest};
use crate::project::decompile::{contains_str, strings_view};
use crate::project::model::{ItemMap, item_entries, item_map_key_at, item_map_len, locks_view, CarrierFile, Lock, LockView, ModuleToml};
use crate::project::{is_unknown_key, is_unknown_key_spec, key_to_id, key_to_id_spec};
use crate::text::{dec_digits, dec_i64, push_decimal, push_i64, string_push_str};
use crate::project::model::item_map_value_at;
use crate::confseq::{content_hash, groups_view, ConfSeq, ConfSeqView, NvItem, NvItemView};
use crate::clz4::{compress, decompress, is_clz4};
use crate::nvtable::{crc32_id, law_table_ids_are_name_crc32};
use crate::text::string_push;
use vstd::string::StrSliceExecFns;
use crate::sorted::{as_map, key_lt, lemma_key_order, str_lt};

verus! {

/// The carrier file read for a lock's carrier, if it could be read.
pub open spec fn cached_file(files: Seq<(String, Option<CarrierFile>)>, carrier: Seq<char>) -> Option<CarrierFile>
    decreases files.len(),
{
    if files.len() == 0 {
        None
    } else if files[0].0@ == carrier {
        files[0].1
    } else {
        cached_file(files.drop_first(), carrier)
    }
}

/// A lock is reproducible when its original is stored in `originals/`, or
/// when its carrier file has the module (it re-encodes from there).
pub open spec fn lock_ok(l: LockView, stored: Seq<Seq<char>>, files: Seq<(String, Option<CarrierFile>)>) -> bool {
    stored.contains(l.orig_hash) || (cached_file(files, l.carrier) matches Some(cf) && as_map(
        cf.confseq@,
    ).contains_key(l.module))
}

/// The first lock, in order, that is not reproducible.
pub open spec fn first_dangling(locks: Seq<LockView>, stored: Seq<Seq<char>>, files: Seq<(String, Option<CarrierFile>)>) -> Option<LockView>
    decreases locks.len(),
{
    if locks.len() == 0 {
        None
    } else if !lock_ok(locks[0], stored, files) {
        Some(locks[0])
    } else {
        first_dangling(locks.drop_first(), stored, files)
    }
}

fn find_cached(files: &Vec<(String, Option<CarrierFile>)>, carrier: &String) -> (r: Option<usize>)
    ensures
        match r {
            Some(i) => i < files@.len() && cached_file(files@, carrier@) == files@[i as int].1,
            None => cached_file(files@, carrier@) is None,
        },
{
    let mut i: usize = 0;
    assert(files@.skip(0) =~= files@);
    while i < files.len()
        invariant
            i <= files.len(),
            cached_file(files@, carrier@) == cached_file(files@.skip(i as int), carrier@),
        decreases files.len() - i,
    {
        assert(files@.skip(i as int)[0] == files@[i as int]);
        if files[i].0 == *carrier {
            return Some(i);
        }
        assert(files@.skip(i as int).drop_first() =~= files@.skip(i + 1));
        i = i + 1;
    }
    None
}

fn has_module(cf: &CarrierFile, module: &String) -> (r: bool)
    ensures
        r == as_map(cf.confseq@).contains_key(module@),
{
    let mut i: usize = 0;
    while i < cf.confseq.len()
        invariant
            i <= cf.confseq.len(),
            forall|j: int| 0 <= j < i ==> (#[trigger] cf.confseq@[j]).0@ != module@,
        decreases cf.confseq.len() - i,
    {
        if cf.confseq[i].0 == *module {
            assert(cf.confseq@[i as int].0@ == module@);
            return true;
        }
        i = i + 1;
    }
    false
}

/// Every lock must be reproducible: stored verbatim in `originals/` (`stored`
/// lists the hashes found there), or re-encodable from its carrier file
/// (`files` holds each lock carrier's file, `None` when it could not be read).
pub fn check_locks(locks: &Vec<Lock>, stored: &Vec<String>, files: &Vec<(String, Option<CarrierFile>)>) -> (r: Result<(), Error>)
    ensures
        match first_dangling(locks_view(locks@), strings_view(stored@), files@) {
            None => r is Ok,
            Some(l) => r matches Err(Error::Project(e)) && e@ == ProjectErrorView::DanglingLock(
                l.carrier,
                l.module,
                l.orig_hash,
            ),
        },
{
    let ghost lv = locks_view(locks@);
    let ghost sv = strings_view(stored@);
    let mut i: usize = 0;
    assert(lv.skip(0) =~= lv);
    while i < locks.len()
        invariant
            i <= locks.len(),
            lv == locks_view(locks@),
            sv == strings_view(stored@),
            first_dangling(lv, sv, files@) == first_dangling(lv.skip(i as int), sv, files@),
        decreases locks.len() - i,
    {
        let l = &locks[i];
        assert(lv.skip(i as int)[0] == l@);
        assert(lv.skip(i as int).drop_first() =~= lv.skip(i + 1));
        if contains_str(stored, &l.orig_hash) {
            i = i + 1;
            continue;
        }
        let ok = match find_cached(files, &l.carrier) {
            Some(fi) => match &files[fi].1 {
                Some(cf) => has_module(cf, &l.module),
                None => false,
            },
            None => false,
        };
        if !ok {
            return Err(
                Error::Project(
                    ProjectError::DanglingLock(l.carrier.clone(), l.module.clone(), l.orig_hash.clone()),
                ),
            );
        }
        i = i + 1;
    }
    Ok(())
}

/// How many times `x` occurs.
pub open spec fn count_of(s: Seq<Seq<char>>, x: Seq<char>) -> nat
    decreases s.len(),
{
    if s.len() == 0 {
        0
    } else {
        count_of(s.drop_last(), x) + (if s.last() == x {
            1nat
        } else {
            0nat
        })
    }
}

/// The same hashes the same number of times (equal once sorted).
pub open spec fn same_multiset(a: Seq<Seq<char>>, b: Seq<Seq<char>>) -> bool {
    forall|x: Seq<char>| #[trigger] count_of(a, x) == count_of(b, x)
}

/// The least element of `a`, in `String` order, that `b` lacks (the first
/// such in sorted order).
pub open spec fn least_missing(a: Seq<Seq<char>>, b: Seq<Seq<char>>) -> Option<Seq<char>> {
    if exists|i: int| 0 <= i < a.len() && !b.contains(a[i]) {
        Some(
            choose|x: Seq<char>|
                a.contains(x) && !b.contains(x) && forall|y: Seq<char>|
                    a.contains(y) && !b.contains(y) && y != x ==> key_lt(x, y),
        )
    } else {
        None
    }
}

fn count_str(v: &Vec<String>, x: &String) -> (r: usize)
    ensures
        r == count_of(strings_view(v@), x@),
{
    let ghost sv = strings_view(v@);
    let mut c: usize = 0;
    let mut i: usize = 0;
    assert(sv.take(0) =~= Seq::<Seq<char>>::empty());
    while i < v.len()
        invariant
            i <= v.len(),
            sv == strings_view(v@),
            c == count_of(sv.take(i as int), x@),
            c <= i,
        decreases v.len() - i,
    {
        assert(sv.take(i + 1).drop_last() =~= sv.take(i as int));
        assert(sv.take(i + 1).last() == v@[i as int]@);
        if v[i] == *x {
            c = c + 1;
        }
        i = i + 1;
    }
    assert(sv.take(v.len() as int) =~= sv);
    c
}

proof fn lemma_count_pos(s: Seq<Seq<char>>, x: Seq<char>)
    ensures
        count_of(s, x) > 0 <==> s.contains(x),
    decreases s.len(),
{
    if s.len() > 0 {
        lemma_count_pos(s.drop_last(), x);
        if s.contains(x) {
            let i = choose|i: int| 0 <= i < s.len() && s[i] == x;
            if i < s.len() - 1 {
                assert(s.drop_last()[i] == x);
            }
        }
        if s.drop_last().contains(x) {
            let i = choose|i: int| 0 <= i < s.drop_last().len() && s.drop_last()[i] == x;
            assert(s[i] == x);
        }
    }
}

fn least_missing_exec(a: &Vec<String>, b: &Vec<String>) -> (r: Option<String>)
    ensures
        opt_view(r) == least_missing(strings_view(a@), strings_view(b@)),
{
    let ghost av = strings_view(a@);
    let ghost bv = strings_view(b@);
    let mut best: Option<usize> = None;
    let mut i: usize = 0;
    while i < a.len()
        invariant
            i <= a.len(),
            av == strings_view(a@),
            bv == strings_view(b@),
            match best {
                Some(k) => k < i && !bv.contains(av[k as int]) && forall|j: int|
                    0 <= j < i && !bv.contains(av[j]) && av[j] != av[k as int] ==> key_lt(av[k as int], #[trigger] av[j]),
                None => forall|j: int| 0 <= j < i ==> bv.contains(#[trigger] av[j]),
            },
        decreases a.len() - i,
    {
        if !contains_str(b, &a[i]) {
            match best {
                None => {
                    best = Some(i);
                },
                Some(k) => {
                    if str_lt(a[i].as_str(), a[k].as_str()) {
                        proof {
                            assert forall|j: int| 0 <= j < i + 1 && !bv.contains(av[j]) && av[j] != av[i as int] implies key_lt(av[i as int], #[trigger] av[j]) by {
                                if j < i && av[j] != av[k as int] {
                                    lemma_key_order(av[i as int], av[k as int], av[j]);
                                }
                            }
                        }
                        best = Some(i);
                    } else {
                        proof {
                            lemma_key_order(av[i as int], av[k as int], av[k as int]);
                        }
                    }
                },
            }
        }
        i = i + 1;
    }
    match best {
        None => {
            assert(!(exists|j: int| 0 <= j < av.len() && !bv.contains(av[j])));
            None
        },
        Some(k) => {
            let ghost x = av[k as int];
            proof {
                assert(av.contains(x) && !bv.contains(x));
                assert forall|y: Seq<char>| av.contains(y) && !bv.contains(y) && y != x implies key_lt(x, y) by {
                    let j = choose|j: int| 0 <= j < av.len() && av[j] == y;
                }
                let c = choose|c: Seq<char>|
                    av.contains(c) && !bv.contains(c) && forall|y: Seq<char>|
                        av.contains(y) && !bv.contains(y) && y != c ==> key_lt(c, y);
                if c != x {
                    lemma_key_order(x, c, c);
                }
            }
            Some(a[k].clone())
        },
    }
}

/// Compare a confman's table rows with its manifest's refs as multisets: a
/// mismatch reports both counts, the least table hash the manifest lacks and
/// the least manifest hash the table lacks.
pub fn check_confman_manifest(confman: &String, db_hashes: &Vec<String>, manifest: &[u8]) -> (r: Result<(), Error>)
    ensures
        match manifest_decode_spec(manifest@) {
            Err(e) => r matches Err(x) && x@ == ErrorView::Confseq(e),
            Ok(m) => if same_multiset(strings_view(db_hashes@), m.refs) {
                r is Ok
            } else {
                r matches Err(Error::Project(e)) && e@ == ProjectErrorView::ConfmanMismatch(
                    confman@,
                    db_hashes@.len() as usize,
                    m.refs.len() as usize,
                    least_missing(strings_view(db_hashes@), m.refs),
                    least_missing(m.refs, strings_view(db_hashes@)),
                )
            },
        },
{
    let m = match Manifest::decode(manifest) {
        Ok(m) => m,
        Err(e) => return Err(e),
    };
    let mut mf: Vec<String> = Vec::new();
    let mut i: usize = 0;
    while i < m.refs.len()
        invariant
            i <= m.refs.len(),
            strings_view(mf@) == m@.refs.take(i as int),
        decreases m.refs.len() - i,
    {
        let ghost prev = strings_view(mf@);
        mf.push(m.refs[i].hash.clone());
        assert(strings_view(mf@) =~= prev.push(m.refs@[i as int].hash@));
        assert(m@.refs.take(i + 1) =~= m@.refs.take(i as int).push(m.refs@[i as int].hash@));
        i = i + 1;
    }
    assert(m@.refs.take(m.refs.len() as int) =~= m@.refs);
    let ghost dv = strings_view(db_hashes@);
    let ghost mv = strings_view(mf@);
    let mut same = true;
    let mut k: usize = 0;
    while k < db_hashes.len()
        invariant
            k <= db_hashes.len(),
            dv == strings_view(db_hashes@),
            mv == strings_view(mf@),
            same ==> forall|j: int| 0 <= j < k ==> count_of(dv, #[trigger] dv[j]) == count_of(mv, dv[j]),
            !same ==> !same_multiset(dv, mv),
        decreases db_hashes.len() - k,
    {
        if same && count_str(db_hashes, &db_hashes[k]) != count_str(&mf, &db_hashes[k]) {
            same = false;
        }
        k = k + 1;
    }
    let mut k: usize = 0;
    while k < mf.len()
        invariant
            k <= mf.len(),
            dv == strings_view(db_hashes@),
            mv == strings_view(mf@),
            same ==> forall|j: int| 0 <= j < dv.len() ==> count_of(dv, #[trigger] dv[j]) == count_of(mv, dv[j]),
            same ==> forall|j: int| 0 <= j < k ==> count_of(dv, #[trigger] mv[j]) == count_of(mv, mv[j]),
            !same ==> !same_multiset(dv, mv),
        decreases mf.len() - k,
    {
        if same && count_str(db_hashes, &mf[k]) != count_str(&mf, &mf[k]) {
            same = false;
        }
        k = k + 1;
    }
    if same {
        proof {
            assert forall|x: Seq<char>| #[trigger] count_of(dv, x) == count_of(mv, x) by {
                lemma_count_pos(dv, x);
                lemma_count_pos(mv, x);
                if dv.contains(x) {
                    let j = choose|j: int| 0 <= j < dv.len() && dv[j] == x;
                } else if mv.contains(x) {
                    let j = choose|j: int| 0 <= j < mv.len() && mv[j] == x;
                }
            }
        }
        Ok(())
    } else {
        let db_only = least_missing_exec(db_hashes, &mf);
        let mf_only = least_missing_exec(&mf, db_hashes);
        Err(
            Error::Project(
                ProjectError::ConfmanMismatch(confman.clone(), db_hashes.len(), mf.len(), db_only, mf_only),
            ),
        )
    }
}

/// How many entries have an `unknown_<id>` key.
pub open spec fn unknown_in_items(items: Seq<(Seq<char>, Seq<Seq<i64>>)>) -> nat
    decreases items.len(),
{
    if items.len() == 0 {
        0
    } else {
        unknown_in_items(items.drop_last()) + (if is_unknown_key_spec(items.last().0) {
            1nat
        } else {
            0nat
        })
    }
}

/// How many items of the modules have an `unknown_<id>` key.
pub open spec fn unknown_in_modules(ms: Seq<(String, ModuleToml)>) -> nat
    decreases ms.len(),
{
    if ms.len() == 0 {
        0
    } else {
        unknown_in_modules(ms.drop_last()) + unknown_in_items(item_entries(ms.last().1.items))
    }
}

/// How many items of the carrier files have an `unknown_<id>` key.
pub open spec fn unknown_total(fs: Seq<CarrierFile>) -> nat
    decreases fs.len(),
{
    if fs.len() == 0 {
        0
    } else {
        unknown_total(fs.drop_last()) + unknown_in_modules(fs.last().confseq@)
    }
}

proof fn lemma_unknown_items_prefix(items: Seq<(Seq<char>, Seq<Seq<i64>>)>, k: int)
    requires
        0 <= k <= items.len(),
    ensures
        unknown_in_items(items.take(k)) <= unknown_in_items(items),
    decreases items.len() - k,
{
    if k < items.len() {
        lemma_unknown_items_prefix(items, k + 1);
        assert(items.take(k + 1).drop_last() =~= items.take(k));
    } else {
        assert(items.take(k) =~= items);
    }
}

proof fn lemma_unknown_modules_prefix(ms: Seq<(String, ModuleToml)>, k: int)
    requires
        0 <= k <= ms.len(),
    ensures
        unknown_in_modules(ms.take(k)) <= unknown_in_modules(ms),
    decreases ms.len() - k,
{
    if k < ms.len() {
        lemma_unknown_modules_prefix(ms, k + 1);
        assert(ms.take(k + 1).drop_last() =~= ms.take(k));
    } else {
        assert(ms.take(k) =~= ms);
    }
}

proof fn lemma_unknown_total_prefix(fs: Seq<CarrierFile>, k: int)
    requires
        0 <= k <= fs.len(),
    ensures
        unknown_total(fs.take(k)) <= unknown_total(fs),
    decreases fs.len() - k,
{
    if k < fs.len() {
        lemma_unknown_total_prefix(fs, k + 1);
        assert(fs.take(k + 1).drop_last() =~= fs.take(k));
    } else {
        assert(fs.take(k) =~= fs);
    }
}

/// Count the NV items, over every module of every carrier file, whose key is
/// `unknown_<id>` (an id the bundled table does not name). The count must fit
/// in a `usize`.
pub fn count_unknown(files: &Vec<CarrierFile>) -> (n: usize)
    requires
        unknown_total(files@) <= usize::MAX,
    ensures
        n == unknown_total(files@),
{
    let mut n: usize = 0;
    let mut f: usize = 0;
    assert(files@.take(0) =~= Seq::<CarrierFile>::empty());
    while f < files.len()
        invariant
            f <= files.len(),
            n == unknown_total(files@.take(f as int)),
            unknown_total(files@) <= usize::MAX,
        decreases files.len() - f,
    {
        let ms = &files[f].confseq;
        proof {
            lemma_unknown_total_prefix(files@, f + 1);
            assert(files@.take(f + 1).drop_last() =~= files@.take(f as int));
        }
        let ghost base = n as nat;
        let mut m: usize = 0;
        assert(ms@.take(0) =~= Seq::<(String, ModuleToml)>::empty());
        while m < ms.len()
            invariant
                m <= ms.len(),
                n == base + unknown_in_modules(ms@.take(m as int)),
                base + unknown_in_modules(ms@) <= usize::MAX,
            decreases ms.len() - m,
        {
            let items = &ms[m].1.items;
            let ghost ent = item_entries(*items);
            proof {
                lemma_unknown_modules_prefix(ms@, m + 1);
                assert(ms@.take(m + 1).drop_last() =~= ms@.take(m as int));
            }
            let ghost base2 = n as nat;
            let len = item_map_len(items);
            let mut k: usize = 0;
            assert(ent.take(0) =~= Seq::<(Seq<char>, Seq<Seq<i64>>)>::empty());
            while k < len
                invariant
                    k <= len,
                    len == ent.len(),
                    ent == item_entries(*items),
                    n == base2 + unknown_in_items(ent.take(k as int)),
                    base2 + unknown_in_items(ent) <= usize::MAX,
                decreases len - k,
            {
                proof {
                    lemma_unknown_items_prefix(ent, k + 1);
                    assert(ent.take(k + 1).drop_last() =~= ent.take(k as int));
                }
                let key = item_map_key_at(items, k);
                if is_unknown_key(key.as_str()) {
                    n = n + 1;
                }
                k = k + 1;
            }
            assert(ent.take(len as int) =~= ent);
            m = m + 1;
        }
        assert(ms@.take(ms.len() as int) =~= ms@);
        f = f + 1;
    }
    assert(files@.take(files.len() as int) =~= files@);
    n
}

/// The values of a group joined with `, `.
pub open spec fn join_i64(g: Seq<i64>) -> Seq<char>
    decreases g.len(),
{
    if g.len() == 0 {
        Seq::empty()
    } else if g.len() == 1 {
        dec_i64(g[0])
    } else {
        join_i64(g.drop_last()) + ", "@ + dec_i64(g.last())
    }
}

/// The groups of an item as its TOML writes them, without the outer
/// brackets: `[1, 2], [3]`.
pub open spec fn render_groups(gs: Seq<Seq<i64>>) -> Seq<char>
    decreases gs.len(),
{
    if gs.len() == 0 {
        Seq::empty()
    } else if gs.len() == 1 {
        "["@ + join_i64(gs[0]) + "]"@
    } else {
        render_groups(gs.drop_last()) + ", "@ + "["@ + join_i64(gs.last()) + "]"@
    }
}

/// The line of one NV item; with `full`, its id too.
pub open spec fn item_line(key: Seq<char>, gs: Seq<Seq<i64>>, full: bool) -> Seq<char> {
    "    "@ + key + (if full {
        " (id "@ + dec_digits(key_to_id_spec(key) as nat) + ")"@
    } else {
        Seq::empty()
    }) + " = ["@ + render_groups(gs) + "]\n"@
}

/// The lines of a module's items, in the module's order.
pub open spec fn items_text(items: Seq<(Seq<char>, Seq<Seq<i64>>)>, full: bool) -> Seq<char>
    decreases items.len(),
{
    if items.len() == 0 {
        Seq::empty()
    } else {
        items_text(items.drop_last(), full) + item_line(items.last().0, items.last().1, full)
    }
}

/// The hash of the last lock of carrier `slug` for `module`.
pub open spec fn last_lock(locks: Seq<LockView>, slug: Seq<char>, module: Seq<char>) -> Option<Seq<char>>
    decreases locks.len(),
{
    if locks.len() == 0 {
        None
    } else if locks.last().carrier == slug && locks.last().module == module {
        Some(locks.last().orig_hash)
    } else {
        last_lock(locks.drop_last(), slug, module)
    }
}

/// The line of a module; with `full`, its original hash (`unknown` when no
/// lock names it).
pub open spec fn module_line(name: Seq<char>, full: bool, orig: Option<Seq<char>>) -> Seq<char> {
    "  ["@ + name + "]"@ + (if full {
        "  (orig_hash "@ + (match orig {
            Some(h) => h,
            None => "unknown"@,
        }) + ")"@
    } else {
        Seq::empty()
    }) + "\n"@
}

/// Each module's line followed by its items' lines.
pub open spec fn modules_text(
    ms: Seq<(String, ModuleToml)>,
    locks: Seq<LockView>,
    slug: Seq<char>,
    full: bool,
) -> Seq<char>
    decreases ms.len(),
{
    if ms.len() == 0 {
        Seq::empty()
    } else {
        modules_text(ms.drop_last(), locks, slug, full) + module_line(
            ms.last().0@,
            full,
            last_lock(locks, slug, ms.last().0@),
        ) + items_text(item_entries(ms.last().1.items), full)
    }
}

/// The header line: slug, id and parent.
pub open spec fn header_line(slug: Seq<char>, carrier_id: i64, parent_id: Option<i64>) -> Seq<char> {
    "carrier "@ + slug + " (id "@ + dec_i64(carrier_id) + ")"@ + (match parent_id {
        Some(p) => " parent "@ + dec_i64(p),
        None => Seq::empty(),
    }) + "\n"@
}

/// What `inspect` prints for a carrier.
pub open spec fn inspect_text(slug: Seq<char>, cf: CarrierFile, locks: Seq<LockView>, full: bool) -> Seq<char> {
    header_line(slug, cf.carrier_id, cf.parent_id) + modules_text(cf.confseq@, locks, slug, full)
}

fn push_join_i64(s: &mut String, g: &Vec<i64>)
    ensures
        final(s)@ == old(s)@ + join_i64(g@),
{
    let mut i: usize = 0;
    assert(g@.take(0) =~= Seq::<i64>::empty());
    assert(old(s)@ + join_i64(g@.take(0)) =~= old(s)@);
    while i < g.len()
        invariant
            i <= g.len(),
            s@ == old(s)@ + join_i64(g@.take(i as int)),
        decreases g.len() - i,
    {
        if i > 0 {
            string_push_str(s, ", ");
        }
        push_i64(s, g[i]);
        assert(g@.take(i + 1).drop_last() =~= g@.take(i as int));
        if i == 0 {
            assert(g@.take(1)[0] == g@[0]);
        }
        assert(s@ =~= old(s)@ + join_i64(g@.take(i + 1)));
        i = i + 1;
    }
    assert(g@.take(g.len() as int) =~= g@);
}

fn push_groups(s: &mut String, gs: &Vec<Vec<i64>>)
    ensures
        final(s)@ == old(s)@ + render_groups(groups_view(gs@)),
{
    let ghost gv = groups_view(gs@);
    let mut i: usize = 0;
    assert(gv.take(0) =~= Seq::<Seq<i64>>::empty());
    assert(old(s)@ + render_groups(gv.take(0)) =~= old(s)@);
    while i < gs.len()
        invariant
            i <= gs.len(),
            gv == groups_view(gs@),
            s@ == old(s)@ + render_groups(gv.take(i as int)),
        decreases gs.len() - i,
    {
        if i > 0 {
            string_push_str(s, ", ");
        }
        string_push_str(s, "[");
        push_join_i64(s, &gs[i]);
        string_push_str(s, "]");
        assert(gv.take(i + 1).drop_last() =~= gv.take(i as int));
        assert(gv.take(i + 1).last() == gs@[i as int]@);
        if i == 0 {
            assert(gv.take(1)[0] == gs@[0]@);
        }
        assert(s@ =~= old(s)@ + render_groups(gv.take(i + 1)));
        i = i + 1;
    }
    assert(gv.take(gs.len() as int) =~= gv);
}

fn find_last_lock(locks: &Vec<Lock>, slug: &String, module: &String) -> (r: Option<usize>)
    ensures
        match last_lock(locks_view(locks@), slug@, module@) {
            Some(h) => r matches Some(i) && i < locks@.len() && locks@[i as int].orig_hash@ == h,
            None => r is None,
        },
{
    let ghost lv = locks_view(locks@);
    let mut k: usize = locks.len();
    assert(lv.take(k as int) =~= lv);
    while k > 0
        invariant
            k <= locks.len(),
            lv == locks_view(locks@),
            last_lock(lv, slug@, module@) == last_lock(lv.take(k as int), slug@, module@),
        decreases k,
    {
        let l = &locks[k - 1];
        assert(lv.take(k as int).last() == l@);
        assert(lv.take(k as int).drop_last() =~= lv.take(k - 1));
        if l.carrier == *slug && l.module == *module {
            return Some(k - 1);
        }
        k = k - 1;
    }
    None
}

fn push_item_line(s: &mut String, key: &String, gs: &Vec<Vec<i64>>, full: bool)
    ensures
        final(s)@ == old(s)@ + item_line(key@, groups_view(gs@), full),
{
    string_push_str(s, "    ");
    string_push_str(s, key.as_str());
    if full {
        string_push_str(s, " (id ");
        let id = key_to_id(key.as_str());
        push_decimal(s, id as u64);
        string_push_str(s, ")");
    }
    string_push_str(s, " = [");
    push_groups(s, gs);
    string_push_str(s, "]\n");
    assert(final(s)@ =~= old(s)@ + item_line(key@, groups_view(gs@), full));
}

fn push_items(s: &mut String, items: &ItemMap, full: bool)
    ensures
        final(s)@ == old(s)@ + items_text(item_entries(*items), full),
{
    let ghost ent = item_entries(*items);
    let len = item_map_len(items);
    let mut k: usize = 0;
    assert(ent.take(0) =~= Seq::<(Seq<char>, Seq<Seq<i64>>)>::empty());
    assert(s@ =~= old(s)@ + items_text(ent.take(0), full));
    while k < len
        invariant
            k <= len,
            len == ent.len(),
            ent == item_entries(*items),
            s@ == old(s)@ + items_text(ent.take(k as int), full),
        decreases len - k,
    {
        let key = item_map_key_at(items, k);
        let gs = item_map_value_at(items, k);
        let ghost before = s@;
        push_item_line(s, key, gs, full);
        assert(ent.take(k + 1).drop_last() =~= ent.take(k as int));
        assert(ent.take(k + 1).last() == ent[k as int]);
        assert(s@ =~= old(s)@ + items_text(ent.take(k + 1), full));
        k = k + 1;
    }
    assert(ent.take(len as int) =~= ent);
}

fn push_module_line(s: &mut String, name: &String, full: bool, locks: &Vec<Lock>, slug: &String)
    ensures
        final(s)@ == old(s)@ + module_line(name@, full, last_lock(locks_view(locks@), slug@, name@)),
{
    string_push_str(s, "  [");
    string_push_str(s, name.as_str());
    string_push_str(s, "]");
    if full {
        string_push_str(s, "  (orig_hash ");
        match find_last_lock(locks, slug, name) {
            Some(i) => string_push_str(s, locks[i].orig_hash.as_str()),
            None => string_push_str(s, "unknown"),
        }
        string_push_str(s, ")");
    }
    string_push_str(s, "\n");
    assert(final(s)@ =~= old(s)@ + module_line(name@, full, last_lock(locks_view(locks@), slug@, name@)));
}

/// Render what `inspect` prints for carrier `slug` with file `cf`: a header
/// line, then each module (in name order) followed by its items (in the
/// module's order) with their value groups. With `full`, each module shows its
/// original hash from `locks` (the last lock of this carrier for it, else
/// `unknown`) and each item its id.
pub fn render_inspect(slug: &str, cf: &CarrierFile, locks: &Vec<Lock>, full: bool) -> (r: String)
    ensures
        r@ == inspect_text(slug@, *cf, locks_view(locks@), full),
{
    let ghost lv = locks_view(locks@);
    let slug_owned = slug.to_owned();
    let mut s = "carrier ".to_owned();
    string_push_str(&mut s, slug);
    string_push_str(&mut s, " (id ");
    push_i64(&mut s, cf.carrier_id);
    string_push_str(&mut s, ")");
    match cf.parent_id {
        Some(p) => {
            string_push_str(&mut s, " parent ");
            push_i64(&mut s, p);
        },
        None => {},
    }
    string_push_str(&mut s, "\n");
    let ghost head = s@;
    assert(head =~= header_line(slug@, cf.carrier_id, cf.parent_id));
    let ms = &cf.confseq;
    let mut m: usize = 0;
    assert(ms@.take(0) =~= Seq::<(String, ModuleToml)>::empty());
    assert(s@ =~= head + modules_text(ms@.take(0), lv, slug@, full));
    while m < ms.len()
        invariant
            m <= ms.len(),
            lv == locks_view(locks@),
            slug_owned@ == slug@,
            s@ == head + modules_text(ms@.take(m as int), lv, slug@, full),
        decreases ms.len() - m,
    {
        push_module_line(&mut s, &ms[m].0, full, locks, &slug_owned);
        push_items(&mut s, &ms[m].1.items, full);
        assert(ms@.take(m + 1).drop_last() =~= ms@.take(m as int));
        assert(ms@.take(m + 1).last() == ms@[m as int]);
        assert(s@ =~= head + modules_text(ms@.take(m + 1), lv, slug@, full));
        m = m + 1;
    }
    assert(ms@.take(ms.len() as int) =~= ms@);
    s
}

/// The fixture confseq of the self-test.
pub open spec fn fixture_spec() -> ConfSeqView {
    ConfSeqView {
        revision: "v1.0"@,
        name: "test.sim1"@,
        items: seq![
            NvItemView { id: 922_505_959, vals: seq![seq![4097i64]] },
            NvItemView { id: 287_538_830, vals: seq![seq![85i64, 83i64], seq![65i64, 53i64, 48i64]] },
            NvItemView { id: 1, vals: seq![Seq::<i64>::empty()] },
        ],
    }
}

/// The fixture confseq of the self-test: three items, one with two value
/// groups and one with an empty group.
fn fixture_confseq() -> (c: ConfSeq)
    ensures
        c@ == fixture_spec(),
{
    let mut g0: Vec<i64> = Vec::new();
    g0.push(4097);
    let mut g1: Vec<i64> = Vec::new();
    g1.push(85);
    g1.push(83);
    let mut g2: Vec<i64> = Vec::new();
    g2.push(65);
    g2.push(53);
    g2.push(48);
    let g3: Vec<i64> = Vec::new();
    assert(g0@ =~= seq![4097i64]);
    assert(g1@ =~= seq![85i64, 83i64]);
    assert(g2@ =~= seq![65i64, 53i64, 48i64]);
    assert(g3@ =~= Seq::<i64>::empty());
    let mut v0: Vec<Vec<i64>> = Vec::new();
    v0.push(g0);
    let mut v1: Vec<Vec<i64>> = Vec::new();
    v1.push(g1);
    v1.push(g2);
    let mut v2: Vec<Vec<i64>> = Vec::new();
    v2.push(g3);
    let mut items: Vec<NvItem> = Vec::new();
    items.push(NvItem { id: 922_505_959, vals: v0 });
    items.push(NvItem { id: 287_538_830, vals: v1 });
    items.push(NvItem { id: 1, vals: v2 });
    let c = ConfSeq { revision: "v1.0".to_owned(), name: "test.sim1".to_owned(), items };
    proof {
        let f = fixture_spec();
        assert(c@.items[0].vals =~= f.items[0].vals);
        assert(c@.items[1].vals[0] =~= f.items[1].vals[0]);
        assert(c@.items[1].vals[1] =~= f.items[1].vals[1]);
        assert(c@.items[1].vals =~= f.items[1].vals);
        assert(c@.items[2].vals =~= f.items[2].vals);
        assert(c@.items =~= f.items);
    }
    c
}

/// Run the codec sanity checks on in-code fixtures: the crc32 id of a known
/// name, a CLZ4 round trip of the 256 byte values with the magic told apart
/// from plain data, the shape of a content hash, and a confseq encoded,
/// decoded and encoded again byte for byte. Every check is proved to pass.
pub fn self_test() -> (r: Result<(), String>)
    ensures
        r is Ok,
{
    proof {
        law_table_ids_are_name_crc32(922505959);
    }
    let id = crc32_id("TCS_GV_OPT_CARRIER_TYPE");
    if id != 922_505_959 {
        let mut m = "crc32_id(\"TCS_GV_OPT_CARRIER_TYPE\") = ".to_owned();
        push_decimal(&mut m, id as u64);
        string_push_str(&mut m, ", want 922505959");
        return Err(m);
    }
    let mut data: Vec<u8> = Vec::new();
    let mut b: u32 = 0;
    while b < 256
        invariant
            b <= 256,
            data@.len() == b,
            forall|i: int| 0 <= i < b ==> data@[i] == i,
        decreases 256 - b,
    {
        data.push(b as u8);
        b = b + 1;
    }
    let compressed = compress(data.as_slice());
    if !is_clz4(compressed.as_slice()) {
        return Err("clz4::is_clz4 returned false for a compressed blob".to_owned());
    }
    if is_clz4(data.as_slice()) {
        return Err("clz4::is_clz4 returned true for plaintext data".to_owned());
    }
    let decompressed = match decompress(compressed.as_slice()) {
        Ok(d) => d,
        Err(_) => return Err("clz4 round-trip: decompress failed".to_owned()),
    };
    if !(decompressed == data) {
        return Err("clz4 round-trip: decompressed != original".to_owned());
    }
    let h = content_hash("pixel-carrierconfig-toolbox self-test".as_bytes());
    let n = h.as_str().unicode_len();
    if n != 40 {
        let mut m = "content_hash length = ".to_owned();
        push_decimal(&mut m, n as u64);
        string_push_str(&mut m, ", want 40");
        return Err(m);
    }
    let mut i: usize = 0;
    while i < 40
        invariant
            i <= 40,
            h@.len() == 40,
            n == 40,
            forall|j: int| 0 <= j < 40 ==> crate::text::is_lower_hex_char(#[trigger] h@[j]),
        decreases 40 - i,
    {
        let c = h.as_str().get_char(i);
        if !(('0' <= c && c <= '9') || ('a' <= c && c <= 'f')) {
            let mut m = "content_hash is not all lowercase hex: ".to_owned();
            string_push_str(&mut m, h.as_str());
            return Err(m);
        }
        i = i + 1;
    }
    let cs = fixture_confseq();
    let encoded = cs.encode();
    let decoded = match ConfSeq::decode(encoded.as_slice()) {
        Ok(d) => d,
        Err(_) => return Err("ConfSeq decode failed".to_owned()),
    };
    if decoded.revision != cs.revision || decoded.name != cs.name {
        return Err("ConfSeq decode: revision/name mismatch".to_owned());
    }
    if decoded.items.len() != cs.items.len() {
        let mut m = "ConfSeq decode: ".to_owned();
        push_decimal(&mut m, decoded.items.len() as u64);
        string_push_str(&mut m, " items, want ");
        push_decimal(&mut m, cs.items.len() as u64);
        return Err(m);
    }
    let re_encoded = decoded.encode();
    if !(re_encoded == encoded) {
        return Err("ConfSeq encode\u{2192}decode\u{2192}encode is not byte-identical".to_owned());
    }
    Ok(())
}


/// `files[i]` is the first file read for `carrier`.
pub open spec fn first_file_for(files: Seq<(String, Option<CarrierFile>)>, i: int, carrier: Seq<char>) -> bool {
    &&& 0 <= i < files.len()
    &&& files[i].0@ == carrier
    &&& forall|k: int| 0 <= k < i ==> (#[trigger] files[k]).0@ != carrier
}

/// A lock can be reproduced: its original is stored, or the first file read
/// for its carrier was read and has a module of the lock's name.
pub open spec fn lock_reproducible(l: LockView, stored: Seq<Seq<char>>, files: Seq<(String, Option<CarrierFile>)>) -> bool {
    ||| stored.contains(l.orig_hash)
    ||| exists|i: int, j: int|
        #![trigger first_file_for(files, i, l.carrier), files[i].1->Some_0.confseq@[j]]
        first_file_for(files, i, l.carrier) && files[i].1 is Some && 0 <= j < files[i].1->Some_0.confseq@.len()
            && files[i].1->Some_0.confseq@[j].0@ == l.module
}

proof fn lemma_cached_file_first(files: Seq<(String, Option<CarrierFile>)>, carrier: Seq<char>)
    ensures
        match cached_file(files, carrier) {
            Some(cf) => exists|i: int| first_file_for(files, i, carrier) && files[i].1 == Some(cf),
            None => forall|i: int| first_file_for(files, i, carrier) ==> files[i].1 is None,
        },
    decreases files.len(),
{
    if files.len() > 0 {
        let rest = files.drop_first();
        lemma_cached_file_first(rest, carrier);
        if files[0].0@ == carrier {
            assert(first_file_for(files, 0, carrier));
            assert forall|i: int| first_file_for(files, i, carrier) implies i == 0 by {
                if i > 0 {
                    assert(files[0].0@ != carrier);
                }
            }
        } else {
            match cached_file(rest, carrier) {
                Some(cf) => {
                    let i = choose|i: int| first_file_for(rest, i, carrier) && rest[i].1 == Some(cf);
                    assert(rest[i] == files[i + 1]);
                    assert forall|k: int| 0 <= k < i + 1 implies (#[trigger] files[k]).0@ != carrier by {
                        if k > 0 {
                            assert(files[k] == rest[k - 1]);
                        }
                    }
                    assert(first_file_for(files, i + 1, carrier));
                },
                None => {
                    assert forall|i: int| first_file_for(files, i, carrier) implies files[i].1 is None by {
                        assert(i > 0);
                        assert(files[i] == rest[i - 1]);
                        assert forall|k: int| 0 <= k < i - 1 implies (#[trigger] rest[k]).0@ != carrier by {
                            assert(rest[k] == files[k + 1]);
                        }
                        assert(first_file_for(rest, i - 1, carrier));
                    }
                },
            }
        }
    }
}

proof fn lemma_lock_ok_reproducible(l: LockView, stored: Seq<Seq<char>>, files: Seq<(String, Option<CarrierFile>)>)
    ensures
        lock_ok(l, stored, files) == lock_reproducible(l, stored, files),
{
    lemma_cached_file_first(files, l.carrier);
    if !stored.contains(l.orig_hash) {
        if lock_reproducible(l, stored, files) {
            let (i, j) = choose|i: int, j: int|
                first_file_for(files, i, l.carrier) && files[i].1 is Some && 0 <= j < files[i].1->Some_0.confseq@.len()
                    && files[i].1->Some_0.confseq@[j].0@ == l.module;
            let cf = files[i].1->Some_0;
            match cached_file(files, l.carrier) {
                Some(c2) => {
                    let i2 = choose|i2: int| first_file_for(files, i2, l.carrier) && files[i2].1 == Some(c2);
                    if i2 < i {
                        assert(files[i2].0@ != l.carrier);
                    } else if i < i2 {
                        assert(files[i].0@ != l.carrier);
                    }
                    assert(as_map(cf.confseq@).dom().contains(l.module));
                },
                None => {
                    assert(files[i].1 is None);
                },
            }
        }
        if lock_ok(l, stored, files) {
            let cf = cached_file(files, l.carrier)->Some_0;
            let i = choose|i: int| first_file_for(files, i, l.carrier) && files[i].1 == Some(cf);
            assert(as_map(cf.confseq@).dom().contains(l.module));
            let j = choose|j: int| 0 <= j < cf.confseq@.len() && cf.confseq@[j].0@ == l.module;
            assert(first_file_for(files, i, l.carrier) && files[i].1 is Some && 0 <= j < files[i].1->Some_0.confseq@.len()
                && files[i].1->Some_0.confseq@[j].0@ == l.module);
        }
    }
}

/// Checking locks passes exactly when every lock can be reproduced: its
/// original is stored, or its carrier's file was read and has a module of the
/// lock's name. When it fails, the lock reported is the first one that
/// cannot be.
pub proof fn law_check_locks_passes_iff_reproducible(
    locks: Seq<LockView>,
    stored: Seq<Seq<char>>,
    files: Seq<(String, Option<CarrierFile>)>,
)
    ensures
        first_dangling(locks, stored, files) is None <==> forall|k: int|
            0 <= k < locks.len() ==> lock_reproducible(#[trigger] locks[k], stored, files),
        first_dangling(locks, stored, files) matches Some(l) ==> exists|k: int|
            0 <= k < locks.len() && locks[k] == l && !lock_reproducible(l, stored, files) && forall|k2: int|
                0 <= k2 < k ==> lock_reproducible(#[trigger] locks[k2], stored, files),
    decreases locks.len(),
{
    if locks.len() > 0 {
        let rest = locks.drop_first();
        law_check_locks_passes_iff_reproducible(rest, stored, files);
        lemma_lock_ok_reproducible(locks[0], stored, files);
        assert forall|k: int| 0 <= k < rest.len() implies rest[k] == locks[k + 1] by {}
        if lock_reproducible(locks[0], stored, files) {
            if first_dangling(rest, stored, files) is None {
                assert forall|k: int| 0 <= k < locks.len() implies lock_reproducible(#[trigger] locks[k], stored, files) by {
                    if k > 0 {
                        assert(lock_reproducible(rest[k - 1], stored, files));
                    }
                }
            } else {
                let l = first_dangling(rest, stored, files)->Some_0;
                let k = choose|k: int|
                    0 <= k < rest.len() && rest[k] == l && !lock_reproducible(l, stored, files) && forall|k2: int|
                        0 <= k2 < k ==> lock_reproducible(#[trigger] rest[k2], stored, files);
                assert(locks[k + 1] == l);
                assert forall|k2: int| 0 <= k2 < k + 1 implies lock_reproducible(#[trigger] locks[k2], stored, files) by {
                    if k2 > 0 {
                        assert(locks[k2] == rest[k2 - 1]);
                    }
                }
            }
        } else {
            assert(!lock_reproducible(locks[0], stored, files));
        }
    }
}

/// The original hash shown for a module of carrier `slug` comes from the last
/// lock of that carrier and that module; locks of other carriers or modules
/// never supply it, and it is unknown exactly when no lock of the carrier
/// names the module.
pub proof fn law_module_hash_from_own_lock(locks: Seq<LockView>, slug: Seq<char>, module: Seq<char>)
    ensures
        last_lock(locks, slug, module) matches Some(h) ==> exists|i: int|
            0 <= i < locks.len() && (#[trigger] locks[i]).carrier == slug && locks[i].module == module
                && locks[i].orig_hash == h && forall|j: int|
                i < j < locks.len() ==> !((#[trigger] locks[j]).carrier == slug && locks[j].module == module),
        last_lock(locks, slug, module) is None <==> forall|i: int|
            0 <= i < locks.len() ==> !((#[trigger] locks[i]).carrier == slug && locks[i].module == module),
    decreases locks.len(),
{
    if locks.len() > 0 {
        let p = locks.drop_last();
        law_module_hash_from_own_lock(p, slug, module);
        let n = locks.len() - 1;
        assert forall|i: int| 0 <= i < p.len() implies p[i] == locks[i] by {}
        if locks.last().carrier == slug && locks.last().module == module {
            assert(locks[n] == locks.last());
        } else {
            assert(locks[n] == locks.last());
            if let Some(h) = last_lock(p, slug, module) {
                let i = choose|i: int|
                    0 <= i < p.len() && (#[trigger] p[i]).carrier == slug && p[i].module == module && p[i].orig_hash == h
                        && forall|j: int| i < j < p.len() ==> !((#[trigger] p[j]).carrier == slug && p[j].module == module);
                assert(locks[i] == p[i]);
                assert forall|j: int| i < j < locks.len() implies !((#[trigger] locks[j]).carrier == slug && locks[j].module
                    == module) by {
                    if j < n {
                        assert(locks[j] == p[j]);
                    }
                }
            } else {
                assert forall|i: int| 0 <= i < locks.len() implies !((#[trigger] locks[i]).carrier == slug
                    && locks[i].module == module) by {
                    if i < n {
                        assert(locks[i] == p[i]);
                    }
                }
            }
        }
    }
}

} // verus!
