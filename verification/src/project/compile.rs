//! compile: decide what a project recompiles into.
//!
//! Only confseqs whose decoded content changed are re-encoded; unchanged ones
//! ride through verbatim. Each change is a remap `(confman, old hash) -> new
//! hash`, applied to the confman's manifest (by swapping ref hashes in place)
//! and to its `confman_<hash>` table.
use vstd::prelude::*;

use crate::cfgdb::{check_confman_hex, is_confman_hex, Carrier};
use crate::clz4::{clz4_of, compress, compress_input_ok};
use crate::confseq::{
    content_hash, content_hash_spec, decode_spec, encode_spec, groups_view, items_view, ConfSeq,
    ConfSeqView, NvItem, NvItemView,
};
use crate::error::{Error, ErrorView, ProjectError, ProjectErrorView};
use crate::manifest::{remap_view, rewrite_ref_hashes, rewrite_spec, RewriteOutcome};
use crate::project::decompile::{
    blob_prefix, carrier_slug, clone_groups, file_of, files_view, find_file, has_file, slug_spec,
};
use crate::project::model::{
    item_entries, item_map_key_at, item_map_len, item_map_value_at, locks_view, CarrierFile, Lock,
    LockView, ModuleToml, ModuleView,
};
use crate::project::{key_to_id, key_to_id_spec};
use crate::sorted::{as_map, key_lt, keys_of, keys_sorted, sorted_insert};

verus! {

/// The id -> value groups map of a confseq's items (a repeated id keeps its
/// last groups): what "unchanged" compares.
pub open spec fn last_vals(items: Seq<NvItemView>, id: u32) -> Option<Seq<Seq<i64>>>
    decreases items.len(),
{
    if items.len() == 0 {
        None
    } else if items.last().id == id {
        Some(items.last().vals)
    } else {
        last_vals(items.drop_last(), id)
    }
}

/// The `{id -> Val groups}` map of a confseq's items.
pub open spec fn item_map_spec(items: Seq<NvItemView>) -> Map<u32, Seq<Seq<i64>>> {
    Map::new(|id: u32| last_vals(items, id) is Some, |id: u32| last_vals(items, id)->Some_0)
}

fn groups_eq(a: &Vec<Vec<i64>>, b: &Vec<Vec<i64>>) -> (r: bool)
    ensures
        r == (groups_view(a@) == groups_view(b@)),
{
    if a.len() != b.len() {
        assert(groups_view(a@).len() != groups_view(b@).len());
        return false;
    }
    let mut i: usize = 0;
    while i < a.len()
        invariant
            i <= a.len(),
            a.len() == b.len(),
            forall|k: int| 0 <= k < i ==> (#[trigger] a@[k])@ == b@[k]@,
        decreases a.len() - i,
    {
        let x = &a[i];
        let y = &b[i];
        if x.len() != y.len() {
            assert(groups_view(a@)[i as int] != groups_view(b@)[i as int]);
            return false;
        }
        let mut j: usize = 0;
        while j < x.len()
            invariant
                j <= x.len(),
                x.len() == y.len(),
                i < a.len(),
                a.len() == b.len(),
                *x == a@[i as int],
                *y == b@[i as int],
                forall|k: int| 0 <= k < j ==> x@[k] == y@[k],
            decreases x.len() - j,
        {
            if x[j] != y[j] {
                assert(groups_view(a@)[i as int] == x@);
                assert(groups_view(b@)[i as int] == y@);
                assert(x@[j as int] != y@[j as int]);
                assert(groups_view(a@)[i as int] != groups_view(b@)[i as int]);
                return false;
            }
            j = j + 1;
        }
        assert(x@ =~= y@);
        i = i + 1;
    }
    assert(groups_view(a@) =~= groups_view(b@));
    true
}

/// A `{id -> groups}` map held as pairs.
pub open spec fn pairs_view(m: Seq<(u32, Vec<Vec<i64>>)>) -> Seq<(u32, Seq<Seq<i64>>)> {
    m.map_values(|p: (u32, Vec<Vec<i64>>)| (p.0, groups_view(p.1@)))
}

/// Ids strictly increase (so each id occurs once).
pub open spec fn ids_sorted(p: Seq<(u32, Seq<Seq<i64>>)>) -> bool {
    forall|i: int, j: int| 0 <= i < j < p.len() ==> #[trigger] p[i].0 < #[trigger] p[j].0
}

/// The pairs list exactly the entries of `f`.
pub open spec fn lists_map(p: Seq<(u32, Seq<Seq<i64>>)>, f: Map<u32, Seq<Seq<i64>>>) -> bool {
    &&& forall|k: int| 0 <= k < p.len() ==> f.contains_key(#[trigger] p[k].0) && f[p[k].0] == p[k].1
    &&& forall|id: u32| #[trigger] f.contains_key(id) ==> exists|k: int| 0 <= k < p.len() && p[k].0 == id
}

proof fn lemma_item_map_push(items: Seq<NvItemView>, x: NvItemView)
    ensures
        item_map_spec(items.push(x)) == item_map_spec(items).insert(x.id, x.vals),
{
    assert forall|id: u32| last_vals(items.push(x), id) == (if id == x.id {
        Some(x.vals)
    } else {
        last_vals(items, id)
    }) by {
        assert(items.push(x).drop_last() =~= items);
    }
    assert(item_map_spec(items.push(x)) =~= item_map_spec(items).insert(x.id, x.vals));
}

/// Two sorted pair lists of the same map are the same list.
proof fn lemma_lists_map_unique(p: Seq<(u32, Seq<Seq<i64>>)>, q: Seq<(u32, Seq<Seq<i64>>)>, f: Map<u32, Seq<Seq<i64>>>)
    requires
        ids_sorted(p),
        ids_sorted(q),
        lists_map(p, f),
        lists_map(q, f),
    ensures
        p == q,
    decreases p.len(),
{
    if p.len() == 0 {
        if q.len() > 0 {
            assert(f.contains_key(q[0].0));
        }
        assert(p =~= q);
    } else {
        assert(f.contains_key(p[0].0));
        let k = choose|k: int| 0 <= k < q.len() && q[k].0 == p[0].0;
        assert(f.contains_key(q[0].0));
        let k2 = choose|k2: int| 0 <= k2 < p.len() && p[k2].0 == q[0].0;
        if k2 > 0 {
            assert(p[0].0 < p[k2].0);
        }
        if k > 0 {
            assert(q[0].0 < q[k].0);
        }
        assert(p[0] == q[0]);
        let key = p[0].0;
        let f2 = f.remove(key);
        let p2 = p.drop_first();
        let q2 = q.drop_first();
        assert forall|i: int, j: int| 0 <= i < j < p2.len() implies #[trigger] p2[i].0 < #[trigger] p2[j].0 by {
            assert(p[i + 1].0 < p[j + 1].0);
        }
        assert forall|i: int, j: int| 0 <= i < j < q2.len() implies #[trigger] q2[i].0 < #[trigger] q2[j].0 by {
            assert(q[i + 1].0 < q[j + 1].0);
        }
        assert forall|m: int| 0 <= m < p2.len() implies f2.contains_key(#[trigger] p2[m].0) && f2[p2[m].0] == p2[m].1 by {
            assert(p[0].0 < p[m + 1].0);
            assert(f.contains_key(p[m + 1].0));
        }
        assert forall|m: int| 0 <= m < q2.len() implies f2.contains_key(#[trigger] q2[m].0) && f2[q2[m].0] == q2[m].1 by {
            assert(q[0].0 < q[m + 1].0);
            assert(f.contains_key(q[m + 1].0));
        }
        assert forall|id: u32| #[trigger] f2.contains_key(id) implies exists|m: int| 0 <= m < p2.len() && p2[m].0 == id by {
            assert(f.contains_key(id));
            let m = choose|m: int| 0 <= m < p.len() && p[m].0 == id;
            assert(p2[m - 1] == p[m]);
        }
        assert forall|id: u32| #[trigger] f2.contains_key(id) implies exists|m: int| 0 <= m < q2.len() && q2[m].0 == id by {
            assert(f.contains_key(id));
            let m = choose|m: int| 0 <= m < q.len() && q[m].0 == id;
            assert(q2[m - 1] == q[m]);
        }
        lemma_lists_map_unique(p2, q2, f2);
        assert(p2.len() == q2.len());
        assert(p.len() == q.len());
        assert(p =~= q) by {
            assert forall|i: int| 0 <= i < p.len() implies p[i] == q[i] by {
                if i > 0 {
                    assert(p[i] == p2[i - 1]);
                    assert(q[i] == q2[i - 1]);
                }
            }
        }
    }
}

/// Map a confseq's items to `{id -> Val groups}` for an order-insensitive
/// comparison: pairs sorted by id, each id once, a repeated id with its last
/// groups (what collecting into a `BTreeMap<u32, _>` gives).
pub fn item_map(items: &Vec<NvItem>) -> (m: Vec<(u32, Vec<Vec<i64>>)>)
    ensures
        ids_sorted(pairs_view(m@)),
        lists_map(pairs_view(m@), item_map_spec(items_view(items@))),
{
    let ghost iv = items_view(items@);
    let mut m: Vec<(u32, Vec<Vec<i64>>)> = Vec::new();
    let mut i: usize = 0;
    assert(iv.take(0) =~= Seq::<NvItemView>::empty());
    assert(item_map_spec(iv.take(0)) =~= Map::<u32, Seq<Seq<i64>>>::empty());
    while i < items.len()
        invariant
            i <= items.len(),
            iv == items_view(items@),
            ids_sorted(pairs_view(m@)),
            lists_map(pairs_view(m@), item_map_spec(iv.take(i as int))),
        decreases items.len() - i,
    {
        let id = items[i].id;
        let vals = clone_groups(&items[i].vals);
        let ghost gv = groups_view(vals@);
        let ghost f0 = item_map_spec(iv.take(i as int));
        proof {
            assert(iv.take(i + 1) =~= iv.take(i as int).push(iv[i as int]));
            lemma_item_map_push(iv.take(i as int), iv[i as int]);
        }
        let ghost f1 = item_map_spec(iv.take(i + 1));
        assert(f1 == f0.insert(id, gv));
        let ghost pv = pairs_view(m@);
        let mut pos: usize = 0;
        while pos < m.len() && m[pos].0 < id
            invariant
                pos <= m.len(),
                pv == pairs_view(m@),
                forall|k: int| 0 <= k < pos ==> (#[trigger] pv[k]).0 < id,
            decreases m.len() - pos,
        {
            pos = pos + 1;
        }
        if pos < m.len() && m[pos].0 == id {
            m.set(pos, (id, vals));
            proof {
                let nv = pairs_view(m@);
                assert(nv =~= pv.update(pos as int, (id, gv)));
                assert forall|a: int, b: int| 0 <= a < b < nv.len() implies #[trigger] nv[a].0 < #[trigger] nv[b].0 by {
                    assert(pv[a].0 < pv[b].0);
                }
                assert forall|k: int| 0 <= k < nv.len() implies f1.contains_key(#[trigger] nv[k].0) && f1[nv[k].0] == nv[k].1 by {
                    if k != pos {
                        assert(nv[k] == pv[k]);
                        assert(f0.contains_key(pv[k].0));
                        if pv[k].0 == id {
                            if k < pos {
                                assert(pv[k].0 < pv[pos as int].0);
                            } else {
                                assert(pv[pos as int].0 < pv[k].0);
                            }
                        }
                    }
                }
                assert forall|x: u32| #[trigger] f1.contains_key(x) implies exists|k: int| 0 <= k < nv.len() && nv[k].0 == x by {
                    if x == id {
                        assert(nv[pos as int].0 == x);
                    } else {
                        assert(f0.contains_key(x));
                        let k = choose|k: int| 0 <= k < pv.len() && pv[k].0 == x;
                        assert(nv[k] == pv[k]);
                    }
                }
            }
        } else {
            m.insert(pos, (id, vals));
            proof {
                let nv = pairs_view(m@);
                assert(nv =~= pv.insert(pos as int, (id, gv)));
                assert forall|a: int, b: int| 0 <= a < b < nv.len() implies #[trigger] nv[a].0 < #[trigger] nv[b].0 by {
                    if b < pos {
                        assert(nv[a] == pv[a] && nv[b] == pv[b]);
                    } else if b == pos {
                        assert(nv[a] == pv[a]);
                    } else if a == pos {
                        assert(nv[b] == pv[b - 1]);
                        if b - 1 > pos {
                            assert(pv[pos as int].0 < pv[b - 1].0);
                        }
                        assert(pv[pos as int].0 >= id);
                    } else if a < pos {
                        assert(nv[a] == pv[a] && nv[b] == pv[b - 1]);
                        if b - 1 > a {
                            assert(pv[a].0 < pv[b - 1].0);
                        }
                    } else {
                        assert(nv[a] == pv[a - 1] && nv[b] == pv[b - 1]);
                        assert(pv[a - 1].0 < pv[b - 1].0);
                    }
                }
                assert forall|k: int| 0 <= k < nv.len() implies f1.contains_key(#[trigger] nv[k].0) && f1[nv[k].0] == nv[k].1 by {
                    if k < pos {
                        assert(nv[k] == pv[k]);
                        assert(f0.contains_key(pv[k].0));
                    } else if k > pos {
                        assert(nv[k] == pv[k - 1]);
                        assert(f0.contains_key(pv[k - 1].0));
                        if pv[k - 1].0 == id {
                            if k - 1 > pos {
                                assert(pv[pos as int].0 < pv[k - 1].0);
                            }
                        }
                    }
                }
                assert forall|x: u32| #[trigger] f1.contains_key(x) implies exists|k: int| 0 <= k < nv.len() && nv[k].0 == x by {
                    if x == id {
                        assert(nv[pos as int].0 == x);
                    } else {
                        assert(f0.contains_key(x));
                        let k = choose|k: int| 0 <= k < pv.len() && pv[k].0 == x;
                        if k < pos {
                            assert(nv[k] == pv[k]);
                        } else {
                            assert(nv[k + 1] == pv[k]);
                        }
                    }
                }
            }
        }
        i = i + 1;
    }
    assert(iv.take(items.len() as int) =~= iv);
    m
}

fn pairs_eq(a: &Vec<(u32, Vec<Vec<i64>>)>, b: &Vec<(u32, Vec<Vec<i64>>)>) -> (r: bool)
    ensures
        r == (pairs_view(a@) == pairs_view(b@)),
{
    if a.len() != b.len() {
        assert(pairs_view(a@).len() != pairs_view(b@).len());
        return false;
    }
    let mut i: usize = 0;
    while i < a.len()
        invariant
            i <= a.len(),
            a.len() == b.len(),
            forall|k: int| 0 <= k < i ==> #[trigger] pairs_view(a@)[k] == pairs_view(b@)[k],
        decreases a.len() - i,
    {
        if a[i].0 != b[i].0 || !groups_eq(&a[i].1, &b[i].1) {
            assert(pairs_view(a@)[i as int] != pairs_view(b@)[i as int]);
            return false;
        }
        assert(pairs_view(a@)[i as int] == pairs_view(b@)[i as int]);
        i = i + 1;
    }
    assert(pairs_view(a@) =~= pairs_view(b@));
    true
}

/// Whether two item lists have the same `{id -> Val groups}` map, compared
/// through their sorted item maps.
fn same_item_maps(a: &Vec<NvItem>, b: &Vec<NvItem>) -> (r: bool)
    ensures
        r == (item_map_spec(items_view(a@)) == item_map_spec(items_view(b@))),
{
    let ma = item_map(a);
    let mb = item_map(b);
    let r = pairs_eq(&ma, &mb);
    proof {
        let fa = item_map_spec(items_view(a@));
        let fb = item_map_spec(items_view(b@));
        let pa = pairs_view(ma@);
        let pb = pairs_view(mb@);
        if fa == fb {
            lemma_lists_map_unique(pa, pb, fa);
        }
        if pa == pb {
            assert forall|id: u32| fa.contains_key(id) == fb.contains_key(id) by {
                if fa.contains_key(id) {
                    let k = choose|k: int| 0 <= k < pa.len() && pa[k].0 == id;
                    assert(fb.contains_key(pb[k].0));
                }
                if fb.contains_key(id) {
                    let k = choose|k: int| 0 <= k < pb.len() && pb[k].0 == id;
                    assert(fa.contains_key(pa[k].0));
                }
            }
            assert forall|id: u32| fa.contains_key(id) implies fa[id] == fb[id] by {
                let k = choose|k: int| 0 <= k < pa.len() && pa[k].0 == id;
                assert(fa[pa[k].0] == pa[k].1);
                assert(fb[pb[k].0] == pb[k].1);
            }
            assert(fa =~= fb);
        }
    }
    r
}

/// Whether a module name marks an opaque lock (`blob:...`).
pub open spec fn is_blob_module(m: Seq<char>) -> bool {
    m.len() >= 5 && m.take(5) == blob_prefix()
}

/// The original hash recorded for a carrier's module: the last lock for that
/// pair (`blob:` locks are skipped).
pub open spec fn lock_for(locks: Seq<LockView>, slug: Seq<char>, module: Seq<char>) -> Option<Seq<char>>
    decreases locks.len(),
{
    if locks.len() == 0 {
        None
    } else if locks.last().carrier == slug && locks.last().module == module && !is_blob_module(
        locks.last().module,
    ) {
        Some(locks.last().orig_hash)
    } else {
        lock_for(locks.drop_last(), slug, module)
    }
}

/// The confseq a module is rebuilt into: its revision, its name, and each item
/// with the id its key stands for.
pub open spec fn rebuilt_spec(name: Seq<char>, mv: ModuleView) -> ConfSeqView {
    ConfSeqView {
        revision: mv.revision,
        name,
        items: mv.items.map_values(
            |e: (Seq<char>, Seq<Seq<i64>>)| NvItemView { id: key_to_id_spec(e.0), vals: e.1 },
        ),
    }
}

/// One remap entry: in `confman`, the confseq `old` becomes `new`.
pub struct RemapEntry {
    pub confman: String,
    pub old: String,
    pub new: String,
}

/// The content of a [`RemapEntry`].
pub struct RemapView {
    pub confman: Seq<char>,
    pub old: Seq<char>,
    pub new: Seq<char>,
}

impl View for RemapEntry {
    type V = RemapView;

    open spec fn view(&self) -> RemapView {
        RemapView { confman: self.confman@, old: self.old@, new: self.new@ }
    }
}

/// The contents of remap entries.
pub open spec fn remaps_view(r: Seq<RemapEntry>) -> Seq<RemapView> {
    r.map_values(|e: RemapEntry| e@)
}

/// The new hash recorded for `(confman, old)`, if any.
pub open spec fn remap_lookup(r: Seq<RemapView>, confman: Seq<char>, old: Seq<char>) -> Option<Seq<char>>
    decreases r.len(),
{
    if r.len() == 0 {
        None
    } else if r.last().confman == confman && r.last().old == old {
        Some(r.last().new)
    } else {
        remap_lookup(r.drop_last(), confman, old)
    }
}

/// What compile has decided so far: the confseq files to write and the remap.
pub struct CompileState {
    pub writes: Seq<(Seq<char>, Seq<u8>)>,
    pub remap: Seq<RemapView>,
}

/// Record `(confman, old) -> new`; a different new hash for the same pair is
/// a divergent edit of a shared confman.
pub open spec fn remap_insert(st: CompileState, confman: Seq<char>, old: Seq<char>, new: Seq<char>) -> Result<CompileState, ErrorView> {
    match remap_lookup(st.remap, confman, old) {
        Some(prev) => if prev == new {
            Ok(st)
        } else {
            Err(ErrorView::Project(ProjectErrorView::DivergentEdit(confman, old)))
        },
        None => Ok(CompileState { remap: st.remap.push(RemapView { confman, old, new }), ..st }),
    }
}

/// What compiling one module decides. A module stored in `originals/` is
/// kept unless its decoded content (revision and `{id -> groups}` map)
/// changed, and is then re-encoded (CLZ4-wrapped when `compressed`); any other
/// module is re-encoded, and remapped when its hash changed. The CLZ4
/// container of a write is `cz(index of the write, plain encoding)`: what
/// `compress` made of it in this run (its bytes depend on the machine).
pub open spec fn module_step(
    st: CompileState,
    slug: Seq<char>,
    confman: Seq<char>,
    name: Seq<char>,
    mv: ModuleView,
    locks: Seq<LockView>,
    stored: Seq<(Seq<char>, Seq<u8>)>,
    cz: spec_fn(int, Seq<u8>) -> Seq<u8>,
) -> Result<CompileState, ErrorView> {
    match lock_for(locks, slug, name) {
        None => Err(ErrorView::Project(ProjectErrorView::NoLock(slug, name))),
        Some(orig) => {
            let rb = rebuilt_spec(name, mv);
            if has_file(stored, orig) {
                match decode_spec(file_of(stored, orig)) {
                    Err(e) => Err(e),
                    Ok(ocs) => if ocs.revision == rb.revision && item_map_spec(ocs.items)
                        == item_map_spec(rb.items) {
                        Ok(st)
                    } else {
                        let bytes = if mv.compressed {
                            cz(st.writes.len() as int, encode_spec(rb))
                        } else {
                            encode_spec(rb)
                        };
                        let nh = content_hash_spec(bytes);
                        remap_insert(
                            CompileState { writes: st.writes.push((nh, bytes)), ..st },
                            confman,
                            orig,
                            nh,
                        )
                    },
                }
            } else {
                let bytes = encode_spec(rb);
                let nh = content_hash_spec(bytes);
                let st2 = CompileState { writes: st.writes.push((nh, bytes)), ..st };
                if nh == orig {
                    Ok(st2)
                } else {
                    remap_insert(st2, confman, orig, nh)
                }
            }
        },
    }
}

/// Compile a carrier's modules `0..j` in order.
pub open spec fn modules_steps(
    st: CompileState,
    slug: Seq<char>,
    confman: Seq<char>,
    modules: Seq<(String, ModuleToml)>,
    j: int,
    locks: Seq<LockView>,
    stored: Seq<(Seq<char>, Seq<u8>)>,
    cz: spec_fn(int, Seq<u8>) -> Seq<u8>,
) -> Result<CompileState, ErrorView>
    decreases j,
{
    if j <= 0 {
        Ok(st)
    } else {
        match modules_steps(st, slug, confman, modules, j - 1, locks, stored, cz) {
            Err(e) => Err(e),
            Ok(s1) => module_step(s1, slug, confman, modules[j - 1].0@, modules[j - 1].1@, locks, stored, cz),
        }
    }
}

/// The first carrier file with this stem.
pub open spec fn file_for(files: Seq<(String, CarrierFile)>, slug: Seq<char>) -> Option<CarrierFile>
    decreases files.len(),
{
    if files.len() == 0 {
        None
    } else if files[0].0@ == slug {
        Some(files[0].1)
    } else {
        file_for(files.drop_first(), slug)
    }
}

/// Compile carriers `0..k` in database order; a carrier without a carrier
/// file is passed over.
pub open spec fn carriers_steps(
    carriers: Seq<Carrier>,
    k: int,
    files: Seq<(String, CarrierFile)>,
    locks: Seq<LockView>,
    stored: Seq<(Seq<char>, Seq<u8>)>,
    cz: spec_fn(int, Seq<u8>) -> Seq<u8>,
) -> Result<CompileState, ErrorView>
    decreases k,
{
    if k <= 0 {
        Ok(CompileState { writes: Seq::empty(), remap: Seq::empty() })
    } else {
        match carriers_steps(carriers, k - 1, files, locks, stored, cz) {
            Err(e) => Err(e),
            Ok(s1) => {
                let c = carriers[k - 1];
                match file_for(files, slug_spec(c)) {
                    None => Ok(s1),
                    Some(cf) => modules_steps(
                        s1,
                        slug_spec(c),
                        c.confman@,
                        cf.confseq@,
                        cf.confseq@.len() as int,
                        locks,
                        stored,
                        cz,
                    ),
                }
            },
        }
    }
}

/// What compiling a project decides: the confseq files to write (name, bytes)
/// and the remap to apply.
pub struct CompilePlan {
    pub writes: Vec<(String, Vec<u8>)>,
    pub remap: Vec<RemapEntry>,
}

/// The writes as texts and bytes.
pub open spec fn writes_view(w: Seq<(String, Vec<u8>)>) -> Seq<(Seq<char>, Seq<u8>)> {
    w.map_values(|p: (String, Vec<u8>)| (p.0@, p.1@))
}


fn is_blob_name(m: &String) -> (r: bool)
    ensures
        r == is_blob_module(m@),
{
    let s = m.as_str();
    let n = vstd::string::StrSliceExecFns::unicode_len(s);
    if n < 5 {
        return false;
    }
    let r = vstd::string::StrSliceExecFns::get_char(s, 0) == 'b'
        && vstd::string::StrSliceExecFns::get_char(s, 1) == 'l'
        && vstd::string::StrSliceExecFns::get_char(s, 2) == 'o'
        && vstd::string::StrSliceExecFns::get_char(s, 3) == 'b'
        && vstd::string::StrSliceExecFns::get_char(s, 4) == ':';
    proof {
        if r {
            assert(m@.take(5) =~= blob_prefix());
        } else if m@.take(5) == blob_prefix() {
            assert(m@.take(5)[0] == m@[0] && m@.take(5)[1] == m@[1] && m@.take(5)[2] == m@[2]
                && m@.take(5)[3] == m@[3] && m@.take(5)[4] == m@[4]);
        }
    }
    r
}

fn find_lock(locks: &Vec<Lock>, slug: &String, module: &String) -> (r: Option<usize>)
    ensures
        match lock_for(locks_view(locks@), slug@, module@) {
            Some(h) => r matches Some(i) && i < locks@.len() && locks@[i as int].orig_hash@ == h,
            None => r is None,
        },
{
    let ghost lv = locks_view(locks@);
    let mut k: usize = locks.len();
    assert(lv.take(k as int) =~= lv);
    while k > 0
        invariant
            k <= locks.len(),
            lv == locks_view(locks@),
            lock_for(lv, slug@, module@) == lock_for(lv.take(k as int), slug@, module@),
        decreases k,
    {
        let l = &locks[k - 1];
        assert(lv.take(k as int).last() == l@);
        assert(lv.take(k as int).drop_last() =~= lv.take(k - 1));
        if l.carrier == *slug && l.module == *module && !is_blob_name(&l.module) {
            return Some(k - 1);
        }
        k = k - 1;
    }
    None
}

/// Rebuild the confseq a module stands for.
pub fn rebuild(name: &String, m: &ModuleToml) -> (r: ConfSeq)
    ensures
        r@ == rebuilt_spec(name@, m@),
{
    let mut items: Vec<NvItem> = Vec::new();
    let n = item_map_len(&m.items);
    let ghost es = item_entries(m.items);
    let mut i: usize = 0;
    while i < n
        invariant
            i <= n,
            n == es.len(),
            es == item_entries(m.items),
            items_view(items@) == rebuilt_spec(name@, m@).items.take(i as int),
        decreases n - i,
    {
        let k = item_map_key_at(&m.items, i);
        let v = item_map_value_at(&m.items, i);
        let id = key_to_id(k.as_str());
        let vals = clone_groups(v);
        let ghost prev = items_view(items@);
        items.push(NvItem { id, vals });
        assert(items_view(items@) =~= prev.push(NvItemView { id, vals: groups_view(vals@) }));
        assert(rebuilt_spec(name@, m@).items.take(i + 1) =~= rebuilt_spec(name@, m@).items.take(
            i as int,
        ).push(NvItemView { id: key_to_id_spec(es[i as int].0), vals: es[i as int].1 }));
        i = i + 1;
    }
    assert(rebuilt_spec(name@, m@).items.take(n as int) =~= rebuilt_spec(name@, m@).items);
    ConfSeq { revision: m.revision.clone(), name: name.clone(), items }
}

fn find_remap(remap: &Vec<RemapEntry>, confman: &String, old_hash: &String) -> (r: Option<usize>)
    ensures
        match remap_lookup(remaps_view(remap@), confman@, old_hash@) {
            Some(h) => r matches Some(i) && i < remap@.len() && remap@[i as int].new@ == h,
            None => r is None,
        },
{
    let ghost rv = remaps_view(remap@);
    let mut k: usize = remap.len();
    assert(rv.take(k as int) =~= rv);
    while k > 0
        invariant
            k <= remap.len(),
            rv == remaps_view(remap@),
            remap_lookup(rv, confman@, old_hash@) == remap_lookup(rv.take(k as int), confman@, old_hash@),
        decreases k,
    {
        let e = &remap[k - 1];
        assert(rv.take(k as int).last() == e@);
        assert(rv.take(k as int).drop_last() =~= rv.take(k - 1));
        if e.confman == *confman && e.old == *old_hash {
            return Some(k - 1);
        }
        k = k - 1;
    }
    None
}

fn insert_remap(remap: &mut Vec<RemapEntry>, confman: &String, old_hash: &String, new_hash: String) -> (r: Result<(), Error>)
    ensures
        match remap_insert(
            CompileState { writes: Seq::empty(), remap: remaps_view(old(remap)@) },
            confman@,
            old_hash@,
            new_hash@,
        ) {
            Ok(s) => r is Ok && remaps_view(final(remap)@) == s.remap,
            Err(e) => r matches Err(x) && x@ == e,
        },
{
    match find_remap(remap, confman, old_hash) {
        Some(i) => {
            if remap[i].new == new_hash {
                Ok(())
            } else {
                Err(Error::Project(ProjectError::DivergentEdit(confman.clone(), old_hash.clone())))
            }
        },
        None => {
            let ghost prev = remaps_view(remap@);
            remap.push(RemapEntry { confman: confman.clone(), old: old_hash.clone(), new: new_hash });
            assert(remaps_view(remap@) =~= prev.push(RemapView { confman: confman@, old: old_hash@, new: new_hash@ }));
            Ok(())
        },
    }
}

/// The module is re-encoded CLZ4-wrapped only when `compress` takes its
/// encoding.
pub open spec fn module_compressible(name: Seq<char>, mv: ModuleView) -> bool {
    mv.compressed ==> compress_input_ok(encode_spec(rebuilt_spec(name, mv)).len())
}

/// `cz` gives, at the index a compression was recorded, what it made of the
/// plain bytes recorded with it.
pub open spec fn agrees(cz: spec_fn(int, Seq<u8>) -> Seq<u8>, zs: Seq<(int, Seq<u8>, Seq<u8>)>) -> bool {
    forall|t: int| 0 <= t < zs.len() ==> cz((#[trigger] zs[t]).0, zs[t].1) == zs[t].2
}

/// Recorded compressions: each a container `compress` can build for its
/// plain bytes, at increasing write indices.
pub open spec fn compressions_sound(zs: Seq<(int, Seq<u8>, Seq<u8>)>) -> bool {
    &&& forall|t: int| 0 <= t < zs.len() ==> clz4_of((#[trigger] zs[t]).1, zs[t].2) && 0 <= zs[t].0
    &&& forall|t: int, u: int| 0 <= t < u < zs.len() ==> (#[trigger] zs[t]).0 < (#[trigger] zs[u]).0
}

/// Every module of the carrier files that would be re-encoded CLZ4-wrapped
/// can be given to `compress` (see [`module_compressible`]).
pub open spec fn files_compressible(files: Seq<(String, CarrierFile)>) -> bool {
    forall|i: int, j: int|
        0 <= i < files.len() && 0 <= j < files[i].1.confseq@.len() ==> module_compressible(
            (#[trigger] files[i].1.confseq@[j]).0@,
            files[i].1.confseq@[j].1@,
        )
}

fn compile_module(
    writes: &mut Vec<(String, Vec<u8>)>,
    remap: &mut Vec<RemapEntry>,
    slug: &String,
    confman: &String,
    name: &String,
    m: &ModuleToml,
    locks: &Vec<Lock>,
    stored: &[(String, Vec<u8>)],
) -> (r: (Result<(), Error>, Ghost<Option<(Seq<u8>, Seq<u8>)>>))
    requires
        module_compressible(name@, m@),
    ensures
        writes_view(final(writes)@).len() >= writes_view(old(writes)@).len(),
        writes_view(final(writes)@).take(old(writes)@.len() as int) == writes_view(old(writes)@),
        r.1@ matches Some(z) ==> clz4_of(z.0, z.1) && final(writes)@.len() > old(writes)@.len(),
        forall|cz: spec_fn(int, Seq<u8>) -> Seq<u8>|
            (r.1@ matches Some(z) ==> cz(old(writes)@.len() as int, z.0) == z.1) ==> match #[trigger] module_step(
                CompileState { writes: writes_view(old(writes)@), remap: remaps_view(old(remap)@) },
                slug@,
                confman@,
                name@,
                m@,
                locks_view(locks@),
                files_view(stored@),
                cz,
            ) {
                Ok(s) => r.0 is Ok && writes_view(final(writes)@) == s.writes && remaps_view(
                    final(remap)@,
                ) == s.remap,
                Err(e) => r.0 matches Err(x) && x@ == e,
            },
{
    let orig = match find_lock(locks, slug, name) {
        Some(i) => &locks[i].orig_hash,
        None => return (
            Err(Error::Project(ProjectError::NoLock(slug.clone(), name.clone()))),
            Ghost(None),
        ),
    };
    let rebuilt = rebuild(name, m);
    let ghost w0 = writes_view(writes@);
    match find_file(stored, orig) {
        Some(fi) => {
            assert(files_view(stored@)[fi as int].0 == orig@);
            assert(has_file(files_view(stored@), orig@));
            let ocs = match ConfSeq::decode(&stored[fi].1) {
                Ok(c) => c,
                Err(e) => return (Err(e), Ghost(None)),
            };
            if ocs.revision == rebuilt.revision && same_item_maps(&ocs.items, &rebuilt.items) {
                assert(writes_view(writes@).take(writes@.len() as int) =~= w0);
                return (Ok(()), Ghost(None));
            }
            let plain = rebuilt.encode();
            let ghost pv = plain@;
            let ghost mut z: Option<(Seq<u8>, Seq<u8>)> = None;
            let bytes = if m.compressed {
                let c = compress(plain.as_slice());
                proof {
                    z = Some((pv, c@));
                }
                c
            } else {
                plain
            };
            let nh = content_hash(bytes.as_slice());
            writes.push((nh.clone(), bytes));
            assert(writes_view(writes@) =~= w0.push((nh@, bytes@)));
            assert(writes_view(writes@).take(w0.len() as int) =~= w0);
            (insert_remap(remap, confman, orig, nh), Ghost(z))
        },
        None => {
            let bytes = rebuilt.encode();
            let nh = content_hash(bytes.as_slice());
            writes.push((nh.clone(), bytes));
            assert(writes_view(writes@) =~= w0.push((nh@, bytes@)));
            assert(writes_view(writes@).take(w0.len() as int) =~= w0);
            if nh == *orig {
                (Ok(()), Ghost(None))
            } else {
                (insert_remap(remap, confman, orig, nh), Ghost(None))
            }
        },
    }
}


fn find_carrier_file(files: &Vec<(String, CarrierFile)>, slug: &String) -> (r: Option<usize>)
    ensures
        match file_for(files@, slug@) {
            Some(cf) => r matches Some(i) && i < files@.len() && files@[i as int].1 == cf,
            None => r is None,
        },
{
    let mut i: usize = 0;
    assert(files@.skip(0) =~= files@);
    while i < files.len()
        invariant
            i <= files.len(),
            file_for(files@, slug@) == file_for(files@.skip(i as int), slug@),
        decreases files.len() - i,
    {
        assert(files@.skip(i as int)[0] == files@[i as int]);
        if files[i].0 == *slug {
            return Some(i);
        }
        assert(files@.skip(i as int).drop_first() =~= files@.skip(i + 1));
        i = i + 1;
    }
    None
}

proof fn lemma_modules_err_sticks(
    st: CompileState,
    slug: Seq<char>,
    confman: Seq<char>,
    modules: Seq<(String, ModuleToml)>,
    j: int,
    n: int,
    locks: Seq<LockView>,
    stored: Seq<(Seq<char>, Seq<u8>)>,
    cz: spec_fn(int, Seq<u8>) -> Seq<u8>,
)
    requires
        j <= n,
        modules_steps(st, slug, confman, modules, j, locks, stored, cz) is Err,
    ensures
        modules_steps(st, slug, confman, modules, n, locks, stored, cz) == modules_steps(
            st,
            slug,
            confman,
            modules,
            j,
            locks,
            stored,
            cz,
        ),
    decreases n - j,
{
    if j < n {
        lemma_modules_err_sticks(st, slug, confman, modules, j, n - 1, locks, stored, cz);
    }
}

proof fn lemma_carriers_err_sticks(
    carriers: Seq<Carrier>,
    k: int,
    n: int,
    files: Seq<(String, CarrierFile)>,
    locks: Seq<LockView>,
    stored: Seq<(Seq<char>, Seq<u8>)>,
    cz: spec_fn(int, Seq<u8>) -> Seq<u8>,
)
    requires
        k <= n,
        carriers_steps(carriers, k, files, locks, stored, cz) is Err,
    ensures
        carriers_steps(carriers, n, files, locks, stored, cz) == carriers_steps(carriers, k, files, locks, stored, cz),
    decreases n - k,
{
    if k < n {
        lemma_carriers_err_sticks(carriers, k, n - 1, files, locks, stored, cz);
    }
}

/// Plan the compilation of a project: `carriers` are the rows of the stashed
/// `cfg.db`, `files` the carrier files by file stem, `locks` the locks of
/// `_meta.toml`, and `stored` the bytes of each lock's original that
/// `originals/` holds. The plan is the one [`carriers_steps`] gives, with the
/// CLZ4 containers of this run: each recorded compression is one `compress`
/// can build for its plain bytes, and the plan is what the steps give for any
/// `cz` that returns them.
pub fn plan_compile(
    carriers: &Vec<Carrier>,
    files: &Vec<(String, CarrierFile)>,
    locks: &Vec<Lock>,
    stored: &[(String, Vec<u8>)],
) -> (r: Result<CompilePlan, Error>)
    requires
        files_compressible(files@),
    ensures
        exists|zs: Seq<(int, Seq<u8>, Seq<u8>)>|
            {
                &&& compressions_sound(zs)
                &&& forall|cz: spec_fn(int, Seq<u8>) -> Seq<u8>|
                    #[trigger] agrees(cz, zs) ==> match carriers_steps(
                        carriers@,
                        carriers@.len() as int,
                        files@,
                        locks_view(locks@),
                        files_view(stored@),
                        cz,
                    ) {
                        Ok(st) => r matches Ok(p) && writes_view(p.writes@) == st.writes && remaps_view(
                            p.remap@,
                        ) == st.remap,
                        Err(e) => r matches Err(x) && x@ == e,
                    }
            },
{
    let ghost lv = locks_view(locks@);
    let ghost sv = files_view(stored@);
    let ghost n = carriers@.len() as int;
    let ghost mut zs: Seq<(int, Seq<u8>, Seq<u8>)> = Seq::empty();
    let mut writes: Vec<(String, Vec<u8>)> = Vec::new();
    let mut remap: Vec<RemapEntry> = Vec::new();
    let mut k: usize = 0;
    assert(writes_view(writes@) =~= Seq::<(Seq<char>, Seq<u8>)>::empty());
    assert(remaps_view(remap@) =~= Seq::<RemapView>::empty());
    while k < carriers.len()
        invariant
            k <= carriers.len(),
            n == carriers@.len(),
            lv == locks_view(locks@),
            sv == files_view(stored@),
            files_compressible(files@),
            compressions_sound(zs),
            forall|t: int| 0 <= t < zs.len() ==> (#[trigger] zs[t]).0 < writes@.len(),
            forall|cz: spec_fn(int, Seq<u8>) -> Seq<u8>|
                #[trigger] agrees(cz, zs) ==> carriers_steps(carriers@, k as int, files@, lv, sv, cz)
                    == Ok::<CompileState, ErrorView>(
                    CompileState { writes: writes_view(writes@), remap: remaps_view(remap@) },
                ),
        decreases carriers.len() - k,
    {
        let c = &carriers[k];
        let slug = carrier_slug(c);
        let ghost s1 = CompileState { writes: writes_view(writes@), remap: remaps_view(remap@) };
        let ghost zk = zs;
        match find_carrier_file(files, &slug) {
            None => {},
            Some(fi) => {
                let cf = &files[fi].1;
                let ghost mods = cf.confseq@;
                let mut j: usize = 0;
                assert(zs.take(zk.len() as int) =~= zk);
                while j < cf.confseq.len()
                    invariant
                        j <= cf.confseq.len(),
                        k < carriers.len(),
                        n == carriers@.len(),
                        mods == cf.confseq@,
                        fi < files@.len(),
                        *cf == files@[fi as int].1,
                        *c == carriers@[k as int],
                        slug@ == slug_spec(*c),
                        file_for(files@, slug@) == Some(*cf),
                        lv == locks_view(locks@),
                        sv == files_view(stored@),
                        files_compressible(files@),
                        compressions_sound(zs),
                        forall|t: int| 0 <= t < zs.len() ==> (#[trigger] zs[t]).0 < writes@.len(),
                        zk.len() <= zs.len(),
                        zs.take(zk.len() as int) == zk,
                        forall|cz: spec_fn(int, Seq<u8>) -> Seq<u8>|
                            #[trigger] agrees(cz, zk) ==> carriers_steps(carriers@, k as int, files@, lv, sv, cz)
                                == Ok::<CompileState, ErrorView>(s1),
                        forall|cz: spec_fn(int, Seq<u8>) -> Seq<u8>|
                            #[trigger] agrees(cz, zs) ==> modules_steps(s1, slug@, c.confman@, mods, j as int, lv, sv, cz)
                                == Ok::<CompileState, ErrorView>(
                                CompileState { writes: writes_view(writes@), remap: remaps_view(remap@) },
                            ),
                    decreases cf.confseq.len() - j,
                {
                    let (name, m) = &cf.confseq[j];
                    assert(mods[j as int] == (*name, *m));
                    assert(module_compressible(files@[fi as int].1.confseq@[j as int].0@, files@[fi as int].1.confseq@[j as int].1@));
                    let ghost wlen = writes@.len() as int;
                    let ghost cur = CompileState { writes: writes_view(writes@), remap: remaps_view(remap@) };
                    let ghost zs0 = zs;
                    let (res, zo) = compile_module(&mut writes, &mut remap, &slug, &c.confman, name, m, locks, stored);
                    proof {
                        if let Some(zz) = zo@ {
                            zs = zs.push((wlen, zz.0, zz.1));
                        }
                        assert(zs.take(zk.len() as int) =~= zk) by {
                            assert(zs0.take(zk.len() as int) =~= zk);
                        }
                        assert forall|cz: spec_fn(int, Seq<u8>) -> Seq<u8>| #[trigger] agrees(cz, zs) implies agrees(cz, zs0)
                            && (zo@ matches Some(zz) ==> cz(wlen, zz.0) == zz.1) by {
                            assert forall|t: int| 0 <= t < zs0.len() implies cz((#[trigger] zs0[t]).0, zs0[t].1) == zs0[t].2 by {
                                assert(zs[t] == zs0[t]);
                            }
                            if let Some(zz) = zo@ {
                                assert(zs[zs0.len() as int] == (wlen, zz.0, zz.1));
                            }
                        }
                        assert forall|cz: spec_fn(int, Seq<u8>) -> Seq<u8>| #[trigger] agrees(cz, zs) implies agrees(cz, zk) by {
                            assert forall|t: int| 0 <= t < zk.len() implies cz((#[trigger] zk[t]).0, zk[t].1) == zk[t].2 by {
                                assert(zk[t] == zs[t]);
                            }
                        }
                    }
                    match res {
                        Ok(()) => {},
                        Err(e) => {
                            proof {
                                assert forall|cz: spec_fn(int, Seq<u8>) -> Seq<u8>| #[trigger] agrees(cz, zs) implies carriers_steps(
                                    carriers@,
                                    n,
                                    files@,
                                    lv,
                                    sv,
                                    cz,
                                ) == Err::<CompileState, ErrorView>(e@) by {
                                    assert(modules_steps(s1, slug@, c.confman@, mods, j as int, lv, sv, cz) == Ok::<CompileState, ErrorView>(cur));
                                    lemma_modules_err_sticks(s1, slug@, c.confman@, mods, j + 1, mods.len() as int, lv, sv, cz);
                                    lemma_carriers_err_sticks(carriers@, k + 1, n, files@, lv, sv, cz);
                                }
                                assert(compressions_sound(zs));
                            }
                            return Err(e);
                        },
                    }
                    proof {
                        assert forall|cz: spec_fn(int, Seq<u8>) -> Seq<u8>| #[trigger] agrees(cz, zs) implies modules_steps(
                            s1,
                            slug@,
                            c.confman@,
                            mods,
                            j + 1,
                            lv,
                            sv,
                            cz,
                        ) == Ok::<CompileState, ErrorView>(
                            CompileState { writes: writes_view(writes@), remap: remaps_view(remap@) },
                        ) by {
                            assert(modules_steps(s1, slug@, c.confman@, mods, j as int, lv, sv, cz) == Ok::<CompileState, ErrorView>(cur));
                        }
                    }
                    j = j + 1;
                }
                proof {
                    assert forall|cz: spec_fn(int, Seq<u8>) -> Seq<u8>| #[trigger] agrees(cz, zs) implies carriers_steps(
                        carriers@,
                        k + 1,
                        files@,
                        lv,
                        sv,
                        cz,
                    ) == Ok::<CompileState, ErrorView>(
                        CompileState { writes: writes_view(writes@), remap: remaps_view(remap@) },
                    ) by {
                        assert(agrees(cz, zk));
                    }
                }
            },
        }
        k = k + 1;
    }
    Ok(CompilePlan { writes, remap })
}


/// The confmans the remap touches.
pub open spec fn remap_confmans(r: Seq<RemapView>) -> Set<Seq<char>> {
    Set::new(|c: Seq<char>| exists|i: int| 0 <= i < r.len() && (#[trigger] r[i]).confman == c)
}

/// The confmans a remap touches, each once, in `String` order (the order a
/// `BTreeSet` gives).
pub fn changed_confmans(remap: &Vec<RemapEntry>) -> (r: Vec<String>)
    ensures
        keys_sorted(crate::project::decompile::strings_view(r@)),
        crate::project::decompile::strings_view(r@).to_set() == remap_confmans(remaps_view(remap@)),
{
    let ghost rv = remaps_view(remap@);
    let mut set: Vec<(String, ())> = Vec::new();
    let mut i: usize = 0;
    assert(as_map(set@).dom() =~= Set::<Seq<char>>::empty());
    while i < remap.len()
        invariant
            i <= remap.len(),
            rv == remaps_view(remap@),
            keys_sorted(keys_of(set@)),
            as_map(set@).dom() == Set::new(
                |c: Seq<char>| exists|j: int| 0 <= j < i && (#[trigger] rv[j]).confman == c,
            ),
        decreases remap.len() - i,
    {
        let ghost prev = as_map(set@).dom();
        sorted_insert(&mut set, remap[i].confman.clone(), ());
        assert(rv[i as int].confman == remap@[i as int].confman@);
        assert(as_map(set@).dom() =~= Set::new(
            |c: Seq<char>| exists|j: int| 0 <= j < i + 1 && (#[trigger] rv[j]).confman == c,
        )) by {
            assert forall|c: Seq<char>| (exists|j: int| 0 <= j < i + 1 && (#[trigger] rv[j]).confman == c) <==> prev.insert(rv[i as int].confman).contains(c) by {
                if exists|j: int| 0 <= j < i + 1 && (#[trigger] rv[j]).confman == c {
                    let j = choose|j: int| 0 <= j < i + 1 && (#[trigger] rv[j]).confman == c;
                    if j < i {
                        assert(prev.contains(c));
                    }
                }
            }
        }
        i = i + 1;
    }
    let mut out: Vec<String> = Vec::new();
    let mut k: usize = 0;
    while k < set.len()
        invariant
            k <= set.len(),
            crate::project::decompile::strings_view(out@) == keys_of(set@).take(k as int),
        decreases set.len() - k,
    {
        let ghost prev = crate::project::decompile::strings_view(out@);
        out.push(set[k].0.clone());
        assert(crate::project::decompile::strings_view(out@) =~= prev.push(set@[k as int].0@));
        assert(keys_of(set@).take(k + 1) =~= keys_of(set@).take(k as int).push(set@[k as int].0@));
        k = k + 1;
    }
    assert(keys_of(set@).take(set.len() as int) =~= keys_of(set@));
    proof {
        let sv = crate::project::decompile::strings_view(out@);
        assert forall|c: Seq<char>| sv.to_set().contains(c) <==> remap_confmans(rv).contains(c) by {
            if sv.to_set().contains(c) {
                let j = choose|j: int| 0 <= j < sv.len() && sv[j] == c;
                assert(set@[j].0@ == c);
                assert(as_map(set@).dom().contains(c));
            }
            if remap_confmans(rv).contains(c) {
                assert(as_map(set@).dom().contains(c));
                let j = choose|j: int| 0 <= j < set@.len() && set@[j].0@ == c;
                assert(sv[j] == c);
            }
        }
        assert(sv.to_set() =~= remap_confmans(rv));
    }
    out
}

/// The `old -> new` map of one confman's remap entries (a later entry for the
/// same old hash wins).
pub open spec fn sub_map(r: Seq<RemapView>, confman: Seq<char>) -> Map<Seq<char>, Seq<char>>
    decreases r.len(),
{
    if r.len() == 0 {
        Map::empty()
    } else if r.last().confman == confman {
        sub_map(r.drop_last(), confman).insert(r.last().old, r.last().new)
    } else {
        sub_map(r.drop_last(), confman)
    }
}

/// The texts of a pair list, as a map.
pub open spec fn pairs_map(p: Seq<(String, String)>) -> Map<Seq<char>, Seq<char>> {
    as_map(p).map_values(|s: String| s@)
}

/// One confman's remap entries as `(old, new)` pairs sorted by old hash (the
/// order of a `BTreeMap`): what its manifest and its table are rewritten with.
pub fn confman_sub_remap(remap: &Vec<RemapEntry>, confman: &String) -> (r: Vec<(String, String)>)
    ensures
        keys_sorted(keys_of(r@)),
        pairs_map(r@) == sub_map(remaps_view(remap@), confman@),
{
    let ghost rv = remaps_view(remap@);
    let mut sub: Vec<(String, String)> = Vec::new();
    let mut i: usize = 0;
    assert(pairs_map(sub@) =~= Map::<Seq<char>, Seq<char>>::empty());
    assert(rv.take(0) =~= Seq::<RemapView>::empty());
    while i < remap.len()
        invariant
            i <= remap.len(),
            rv == remaps_view(remap@),
            keys_sorted(keys_of(sub@)),
            pairs_map(sub@) == sub_map(rv.take(i as int), confman@),
        decreases remap.len() - i,
    {
        let e = &remap[i];
        assert(rv.take(i + 1).drop_last() =~= rv.take(i as int));
        assert(rv.take(i + 1).last() == e@);
        if e.confman == *confman {
            let ghost pm = sub@;
            sorted_insert(&mut sub, e.old.clone(), e.new.clone());
            assert(pairs_map(sub@) =~= pairs_map(pm).insert(e.old@, e.new@));
        }
        i = i + 1;
    }
    assert(rv.take(remap.len() as int) =~= rv);
    sub
}


/// `items[i]` is the last item with id `id`.
pub open spec fn last_item_with(items: Seq<NvItemView>, i: int, id: u32) -> bool {
    &&& 0 <= i < items.len()
    &&& items[i].id == id
    &&& forall|k: int| i < k < items.len() ==> (#[trigger] items[k]).id != id
}

/// Both item lists have an item with id `id` or neither, and the last such
/// items hold the same value groups.
pub open spec fn same_item_for(a: Seq<NvItemView>, b: Seq<NvItemView>, id: u32) -> bool {
    &&& (exists|i: int| #[trigger] last_item_with(a, i, id)) <==> (exists|j: int|
        #[trigger] last_item_with(b, j, id))
    &&& forall|i: int, j: int|
        #[trigger] last_item_with(a, i, id) && #[trigger] last_item_with(b, j, id) ==> a[i].vals == b[j].vals
}

/// Two item lists hold the same NV items: the same ids, and for each id the
/// value groups of its last item are the same.
pub open spec fn same_items(a: Seq<NvItemView>, b: Seq<NvItemView>) -> bool {
    forall|id: u32| #[trigger] same_item_for(a, b, id)
}

proof fn lemma_last_vals_is_last_item(items: Seq<NvItemView>, id: u32)
    ensures
        last_vals(items, id) is None <==> !(exists|i: int| last_item_with(items, i, id)),
        forall|i: int| last_item_with(items, i, id) ==> last_vals(items, id) == Some(items[i].vals),
    decreases items.len(),
{
    if items.len() > 0 {
        let p = items.drop_last();
        let n = items.len() - 1;
        lemma_last_vals_is_last_item(p, id);
        if items.last().id == id {
            assert(last_item_with(items, n, id));
            assert forall|i: int| last_item_with(items, i, id) implies i == n by {
                if i < n {
                    assert(items[n].id == id);
                }
            }
        } else {
            assert forall|i: int| last_item_with(items, i, id) <==> last_item_with(p, i, id) by {
                if 0 <= i < n {
                    assert(items[i] == p[i]);
                    assert forall|k: int| i < k < n implies p[k] == items[k] by {}
                    if last_item_with(p, i, id) {
                        assert forall|k: int| i < k < items.len() implies (#[trigger] items[k]).id != id by {
                            if k < n {
                                assert(items[k] == p[k]);
                            }
                        }
                    }
                    if last_item_with(items, i, id) {
                        assert forall|k: int| i < k < p.len() implies (#[trigger] p[k]).id != id by {
                            assert(items[k] == p[k]);
                        }
                    }
                }
            }
            assert forall|i: int| last_item_with(items, i, id) implies items[i].vals == p[i].vals by {
                assert(items[i] == p[i]);
            }
        }
    }
}

proof fn lemma_same_items_maps(a: Seq<NvItemView>, b: Seq<NvItemView>)
    ensures
        same_items(a, b) <==> item_map_spec(a) == item_map_spec(b),
{
    if same_items(a, b) {
        assert forall|id: u32| #[trigger] last_vals(a, id) == last_vals(b, id) by {
            lemma_last_vals_is_last_item(a, id);
            lemma_last_vals_is_last_item(b, id);
            assert(same_item_for(a, b, id));
            if exists|i: int| last_item_with(a, i, id) {
                let i = choose|i: int| last_item_with(a, i, id);
                let j = choose|j: int| last_item_with(b, j, id);
                assert(a[i].vals == b[j].vals);
            }
        }
        assert(item_map_spec(a) =~= item_map_spec(b));
    }
    if item_map_spec(a) == item_map_spec(b) {
        assert forall|id: u32| #[trigger] same_item_for(a, b, id) by {
            lemma_last_vals_is_last_item(a, id);
            lemma_last_vals_is_last_item(b, id);
            assert(item_map_spec(a).dom().contains(id) == item_map_spec(b).dom().contains(id));
            if last_vals(a, id) is Some {
                assert(item_map_spec(a)[id] == item_map_spec(b)[id]);
            }
        }
    }
}

/// A module whose original is stored (and decodes) is kept exactly when its
/// revision and its NV items (the same ids, each with the same value groups)
/// are the original's. Otherwise it is re-encoded into one new write, and its
/// original's hash is remapped in its confman to that write's name; any
/// added, removed or changed item counts.
pub proof fn law_stored_module_kept_iff_unchanged(
    st: CompileState,
    slug: Seq<char>,
    confman: Seq<char>,
    name: Seq<char>,
    mv: ModuleView,
    locks: Seq<LockView>,
    stored: Seq<(Seq<char>, Seq<u8>)>,
    cz: spec_fn(int, Seq<u8>) -> Seq<u8>,
)
    requires
        lock_for(locks, slug, name) matches Some(orig) && has_file(stored, orig) && decode_spec(
            file_of(stored, orig),
        ) is Ok,
    ensures
        ({
            let orig = lock_for(locks, slug, name)->Some_0;
            let ocs = decode_spec(file_of(stored, orig))->Ok_0;
            let rb = rebuilt_spec(name, mv);
            let unchanged = ocs.revision == rb.revision && same_items(ocs.items, rb.items);
            let r = module_step(st, slug, confman, name, mv, locks, stored, cz);
            &&& unchanged ==> r == Ok::<CompileState, ErrorView>(st)
            &&& !unchanged ==> r != Ok::<CompileState, ErrorView>(st)
            &&& !unchanged ==> (r matches Ok(s2) ==> s2.writes.len() == st.writes.len() + 1
                && s2.writes.drop_last() == st.writes && remap_lookup(s2.remap, confman, orig) == Some(
                s2.writes.last().0,
            ))
        }),
{
    let orig = lock_for(locks, slug, name)->Some_0;
    let ocs = decode_spec(file_of(stored, orig))->Ok_0;
    let rb = rebuilt_spec(name, mv);
    lemma_same_items_maps(ocs.items, rb.items);
    if !(ocs.revision == rb.revision && same_items(ocs.items, rb.items)) {
        let bytes = if mv.compressed {
            cz(st.writes.len() as int, encode_spec(rb))
        } else {
            encode_spec(rb)
        };
        let nh = content_hash_spec(bytes);
        let s1 = CompileState { writes: st.writes.push((nh, bytes)), ..st };
        assert(s1.writes.drop_last() =~= st.writes);
        if let Ok(s2) = module_step(st, slug, confman, name, mv, locks, stored, cz) {
            assert(s2 == remap_insert(s1, confman, orig, nh)->Ok_0);
            assert(s2.writes == s1.writes);
        }
    }
}

} // verus!
