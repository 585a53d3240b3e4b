//! magisk: package a compiled cfgdb directory as a flashable Magisk module.
use vstd::prelude::*;

use crate::error::{Error, ProjectError, ProjectErrorView};
use crate::sorted::{key_lt, lemma_key_order};
use vstd::multiset::Multiset;
use crate::text::{dec_digits, push_decimal, string_push, string_push_str};
use std::io::{Cursor, Write};
use vstd::string::StrSliceExecFns;
use vstd::utf8::encode_utf8;
use zip::write::SimpleFileOptions;
use zip::{CompressionMethod, ZipWriter};

verus! {

/// The module installer script (`META-INF/com/google/android/update-binary`):
/// the stock Magisk module installer, which loads Magisk's
/// `util_functions.sh` and calls `install_module`.
pub const UPDATE_BINARY: &'static str = "#!/sbin/sh\n\n#################\n# Initialization\n#################\n\numask 022\n\n# echo before loading util_functions\nui_print() { echo \"$1\"; }\n\nrequire_new_magisk() {\n  ui_print \"*******************************\"\n  ui_print \" Please install Magisk v20.4+! \"\n  ui_print \"*******************************\"\n  exit 1\n}\n\n#########################\n# Load util_functions.sh\n#########################\n\nOUTFD=$2\nZIPFILE=$3\n\nmount /data 2>/dev/null\n\n[ -f /data/adb/magisk/util_functions.sh ] || require_new_magisk\n. /data/adb/magisk/util_functions.sh\n[ $MAGISK_VER_CODE -lt 20400 ] && require_new_magisk\n\ninstall_module\nexit 0\n";

/// The updater script Magisk expects (`META-INF/com/google/android/updater-script`).
pub const UPDATER_SCRIPT: &'static str = "#MAGISK\n";

/// The module name when none is given.
pub const DEFAULT_NAME: &'static str = "Pixel carrierconfig override";

/// `dest` without trailing slashes.
pub open spec fn trim_end_slashes(s: Seq<char>) -> Seq<char>
    decreases s.len(),
{
    if s.len() > 0 && s.last() == '/' {
        trim_end_slashes(s.drop_last())
    } else {
        s
    }
}

/// An absolute on-device directory without its leading `/` and trailing
/// slashes; a relative path, or the root, is refused.
pub open spec fn dest_prefix_spec(dest: Seq<char>) -> Result<Seq<char>, ProjectErrorView> {
    if dest.len() == 0 || dest[0] != '/' {
        Err(ProjectErrorView::DestNotAbsolute(dest))
    } else if trim_end_slashes(dest.drop_first()).len() == 0 {
        Err(ProjectErrorView::DestIsRoot)
    } else {
        Ok(trim_end_slashes(dest.drop_first()))
    }
}

/// Validate an absolute on-device directory and return it without its
/// leading `/` and trailing slashes:
/// `/vendor/firmware/carrierconfig` -> `vendor/firmware/carrierconfig`.
pub fn dest_prefix(dest: &str) -> (r: Result<String, Error>)
    ensures
        match dest_prefix_spec(dest@) {
            Ok(p) => r matches Ok(s) && s@ == p,
            Err(e) => r matches Err(Error::Project(x)) && x@ == e,
        },
{
    let n = dest.unicode_len();
    if n == 0 || dest.get_char(0) != '/' {
        return Err(Error::Project(ProjectError::DestNotAbsolute(dest.to_owned())));
    }
    let ghost body = dest@.drop_first();
    let mut end = n;
    assert(body.take(n - 1) =~= body);
    while end > 1 && dest.get_char(end - 1) == '/'
        invariant
            1 <= end <= n,
            n == dest@.len(),
            body == dest@.drop_first(),
            trim_end_slashes(body) == trim_end_slashes(body.take(end - 1)),
        decreases end,
    {
        assert(body.take(end - 1).drop_last() =~= body.take(end - 2));
        assert(body.take(end - 1).last() == dest@[end - 1]);
        end = end - 1;
    }
    proof {
        if end > 1 {
            assert(body.take(end - 1).last() == dest@[end - 1]);
        }
    }
    assert(trim_end_slashes(body.take(end - 1)) == body.take(end - 1));
    if end == 1 {
        return Err(Error::Project(ProjectError::DestIsRoot));
    }
    let mut out = String::new();
    let mut i: usize = 1;
    while i < end
        invariant
            1 <= i <= end <= n,
            n == dest@.len(),
            out@ == dest@.subrange(1, i as int),
        decreases end - i,
    {
        string_push(&mut out, dest.get_char(i));
        assert(out@ =~= dest@.subrange(1, i + 1));
        i = i + 1;
    }
    assert(out@ =~= body.take(end - 1));
    Ok(out)
}

/// The parts joined with `/`.
pub open spec fn join_slash(parts: Seq<Seq<char>>) -> Seq<char>
    decreases parts.len(),
{
    if parts.len() == 0 {
        Seq::empty()
    } else if parts.len() == 1 {
        parts[0]
    } else {
        join_slash(parts.drop_last()) + seq!['/'] + parts.last()
    }
}

/// `system/<prefix>/<components joined by />`.
pub open spec fn module_entry_path_spec(prefix: Seq<char>, rel: Seq<Seq<char>>) -> Seq<char> {
    "system/"@ + prefix + seq!['/'] + join_slash(rel)
}

/// Build the zip entry name from a dest prefix and the relative path
/// components: `system/<prefix>/<comp1>/<comp2>/...`, with forward slashes.
pub fn module_entry_path(prefix: &str, rel_components: &[String]) -> (r: String)
    ensures
        r@ == module_entry_path_spec(prefix@, rel_components@.map_values(|s: String| s@)),
{
    let ghost rv = rel_components@.map_values(|s: String| s@);
    let mut r = "system/".to_owned();
    string_push_str(&mut r, prefix);
    string_push(&mut r, '/');
    let ghost head = r@;
    let mut k: usize = 0;
    assert(rv.take(0) =~= Seq::<Seq<char>>::empty());
    assert(r@ =~= head + join_slash(rv.take(0)));
    while k < rel_components.len()
        invariant
            k <= rel_components.len(),
            rv == rel_components@.map_values(|s: String| s@),
            r@ == head + join_slash(rv.take(k as int)),
        decreases rel_components.len() - k,
    {
        if k > 0 {
            string_push(&mut r, '/');
        }
        string_push_str(&mut r, rel_components[k].as_str());
        assert(rv.take(k + 1).drop_last() =~= rv.take(k as int));
        assert(rv.take(k + 1).last() == rel_components@[k as int]@);
        if k == 0 {
            assert(rv.take(1)[0] == rel_components@[0]@);
        }
        assert(r@ =~= head + join_slash(rv.take(k + 1)));
        k = k + 1;
    }
    assert(rv.take(rel_components.len() as int) =~= rv);
    r
}

/// The text of `module.prop` for an on-device dest, a module name and a file
/// count.
pub open spec fn module_prop_spec(dest: Seq<char>, name: Seq<char>, n_files: nat) -> Seq<char> {
    "id=pixel_carrierconfig_override\nname="@ + name
        + "\nversion=v1.0\nversionCode=1\nauthor=pixel-carrierconfig-toolbox\ndescription=Overlays the carrierconfig (cfgdb) tree onto "@
        + dest + " ("@ + dec_digits(n_files) + " files).\n"@
}

/// Render `module.prop` for the given on-device dest, module name and file
/// count.
pub fn module_prop(dest: &str, name: &str, n_files: usize) -> (r: String)
    ensures
        r@ == module_prop_spec(dest@, name@, n_files as nat),
{
    let mut r = "id=pixel_carrierconfig_override\nname=".to_owned();
    string_push_str(&mut r, name);
    string_push_str(
        &mut r,
        "\nversion=v1.0\nversionCode=1\nauthor=pixel-carrierconfig-toolbox\ndescription=Overlays the carrierconfig (cfgdb) tree onto ",
    );
    string_push_str(&mut r, dest);
    string_push_str(&mut r, " (");
    push_decimal(&mut r, n_files as u64);
    string_push_str(&mut r, " files).\n");
    r
}


/// The order of `Vec<String>`: component by component, a proper prefix first.
pub open spec fn path_lt(a: Seq<Seq<char>>, b: Seq<Seq<char>>) -> bool
    decreases a.len(),
{
    if a.len() == 0 {
        b.len() > 0
    } else if b.len() == 0 {
        false
    } else if a[0] != b[0] {
        key_lt(a[0], b[0])
    } else {
        path_lt(a.drop_first(), b.drop_first())
    }
}

proof fn lemma_path_total(a: Seq<Seq<char>>, b: Seq<Seq<char>>)
    ensures
        a == b || path_lt(a, b) || path_lt(b, a),
    decreases a.len(),
{
    if a.len() > 0 && b.len() > 0 {
        lemma_key_order(a[0], b[0], b[0]);
        if a[0] == b[0] {
            lemma_path_total(a.drop_first(), b.drop_first());
            if a.drop_first() == b.drop_first() {
                assert(a =~= seq![a[0]] + a.drop_first());
                assert(b =~= seq![b[0]] + b.drop_first());
            }
        }
    } else if a.len() == 0 && b.len() == 0 {
        assert(a =~= b);
    }
}

proof fn lemma_path_trans(a: Seq<Seq<char>>, b: Seq<Seq<char>>, c: Seq<Seq<char>>)
    requires
        path_lt(a, b),
        path_lt(b, c),
    ensures
        path_lt(a, c),
    decreases a.len(),
{
    if a.len() > 0 && b.len() > 0 && c.len() > 0 {
        lemma_key_order(a[0], b[0], c[0]);
        lemma_key_order(b[0], c[0], a[0]);
        lemma_key_order(a[0], c[0], c[0]);
        if a[0] == b[0] && b[0] == c[0] {
            lemma_path_trans(a.drop_first(), b.drop_first(), c.drop_first());
        }
    }
}

proof fn lemma_path_irrefl(a: Seq<Seq<char>>)
    ensures
        !path_lt(a, a),
    decreases a.len(),
{
    if a.len() > 0 {
        lemma_path_irrefl(a.drop_first());
    }
}

/// The components of a relative path.
pub open spec fn path_view(p: Vec<String>) -> Seq<Seq<char>> {
    p@.map_values(|s: String| s@)
}

/// A file of the tree: its relative path components and its bytes.
pub open spec fn file_view(f: (Vec<String>, Vec<u8>)) -> (Seq<Seq<char>>, Seq<u8>) {
    (path_view(f.0), f.1@)
}

/// Files in path order (no file after one with a greater path).
pub open spec fn files_sorted(fs: Seq<(Seq<Seq<char>>, Seq<u8>)>) -> bool {
    forall|i: int, j: int| 0 <= i < j < fs.len() ==> !path_lt(#[trigger] fs[j].0, #[trigger] fs[i].0)
}

fn path_less(a: &Vec<String>, b: &Vec<String>) -> (r: bool)
    ensures
        r == path_lt(path_view(*a), path_view(*b)),
{
    let ghost av = path_view(*a);
    let ghost bv = path_view(*b);
    let mut i: usize = 0;
    assert(av.skip(0) =~= av);
    assert(bv.skip(0) =~= bv);
    while i < a.len() && i < b.len() && a[i] == b[i]
        invariant
            i <= a.len(),
            i <= b.len(),
            av == path_view(*a),
            bv == path_view(*b),
            path_lt(av, bv) == path_lt(av.skip(i as int), bv.skip(i as int)),
        decreases a.len() - i,
    {
        assert(av.skip(i as int).drop_first() =~= av.skip(i + 1));
        assert(bv.skip(i as int).drop_first() =~= bv.skip(i + 1));
        i = i + 1;
    }
    if i == a.len() {
        i < b.len()
    } else if i == b.len() {
        false
    } else {
        assert(av.skip(i as int)[0] == a@[i as int]@);
        assert(bv.skip(i as int)[0] == b@[i as int]@);
        crate::sorted::str_lt(a[i].as_str(), b[i].as_str())
    }
}

/// The files as paths and bytes.
pub open spec fn files_view(fs: Seq<(Vec<String>, Vec<u8>)>) -> Seq<(Seq<Seq<char>>, Seq<u8>)> {
    fs.map_values(|f: (Vec<String>, Vec<u8>)| file_view(f))
}

/// Sort the files by path, component by component (the order of
/// `Vec<Vec<String>>`): the result is in path order and holds the same files.
pub fn sort_files(files: Vec<(Vec<String>, Vec<u8>)>) -> (r: Vec<(Vec<String>, Vec<u8>)>)
    ensures
        files_sorted(files_view(r@)),
        files_view(r@).to_multiset() == files_view(files@).to_multiset(),
{
    broadcast use vstd::seq_lib::to_multiset_insert, vstd::seq_lib::to_multiset_build;

    let ghost all = files_view(files@);
    let mut rest = files;
    let mut out: Vec<(Vec<String>, Vec<u8>)> = Vec::new();
    assert(files_view(out@) + files_view(rest@) =~= all);
    while rest.len() > 0
        invariant
            files_sorted(files_view(out@)),
            (files_view(out@) + files_view(rest@)).to_multiset() == all.to_multiset(),
        decreases rest.len(),
    {
        let ghost before_rest = files_view(rest@);
        let ghost ov = files_view(out@);
        let f = match rest.pop() {
            Some(f) => f,
            None => {
                assert(false);
                return out;
            },
        };
        let ghost x = file_view(f);
        assert(before_rest =~= files_view(rest@).push(x));
        let mut pos: usize = 0;
        while pos < out.len() && path_less(&out[pos].0, &f.0)
            invariant
                pos <= out.len(),
                ov == files_view(out@),
                x == file_view(f),
                forall|j: int| 0 <= j < pos ==> path_lt(#[trigger] ov[j].0, x.0),
            decreases out.len() - pos,
        {
            pos = pos + 1;
        }
        out.insert(pos, f);
        proof {
            let nv = files_view(out@);
            assert(nv =~= ov.insert(pos as int, x));
            assert forall|i: int, j: int| 0 <= i < j < nv.len() implies !path_lt(#[trigger] nv[j].0, #[trigger] nv[i].0) by {
                if j < pos {
                    assert(nv[i] == ov[i] && nv[j] == ov[j]);
                } else if j == pos {
                    assert(nv[i] == ov[i]);
                    assert(path_lt(ov[i].0, x.0));
                    if path_lt(x.0, ov[i].0) {
                        lemma_path_trans(x.0, ov[i].0, x.0);
                        lemma_path_irrefl(x.0);
                    }
                } else if i == pos {
                    assert(nv[j] == ov[j - 1]);
                    // ov[pos] is not below x, and ov is sorted
                    lemma_path_total(ov[pos as int].0, x.0);
                    if path_lt(ov[j - 1].0, x.0) {
                        if j - 1 > pos {
                            assert(!path_lt(ov[j - 1].0, ov[pos as int].0));
                            lemma_path_total(ov[j - 1].0, ov[pos as int].0);
                            if ov[pos as int].0 == x.0 {
                                lemma_path_irrefl(x.0);
                            } else {
                                lemma_path_trans(x.0, ov[pos as int].0, ov[j - 1].0);
                                if ov[j - 1].0 != ov[pos as int].0 {
                                    lemma_path_trans(ov[j - 1].0, x.0, ov[j - 1].0);
                                    lemma_path_irrefl(ov[j - 1].0);
                                } else {
                                    lemma_path_trans(ov[j - 1].0, x.0, ov[j - 1].0);
                                    lemma_path_irrefl(ov[j - 1].0);
                                }
                            }
                        } else {
                            assert(!path_lt(ov[pos as int].0, x.0));
                        }
                    }
                } else if i < pos {
                    assert(nv[i] == ov[i] && nv[j] == ov[j - 1]);
                    if j - 1 == i {
                        assert(path_lt(ov[i].0, x.0));
                    }
                } else {
                    assert(nv[i] == ov[i - 1] && nv[j] == ov[j - 1]);
                }
            }
        }
        proof {
            let nv = files_view(out@);
            let rr = files_view(rest@);
            assert(nv =~= ov.insert(pos as int, x));
            vstd::seq_lib::lemma_multiset_commutative(nv, rr);
            vstd::seq_lib::lemma_multiset_commutative(ov, before_rest);
            vstd::seq_lib::to_multiset_insert(ov, pos as int, x);
            vstd::seq_lib::to_multiset_build(rr, x);
            assert(nv.to_multiset().add(rr.to_multiset()) =~= ov.to_multiset().add(rr.push(x).to_multiset())) by {
                broadcast use vstd::multiset::group_multiset_axioms;
            }
        }
    }
    assert(files_view(out@) + files_view(rest@) =~= files_view(out@));
    out
}

/// How an entry's bytes are kept in the archive.
#[derive(Clone, Copy, Debug)]
pub enum ZipMethod {
    /// Kept as they are, uncompressed.
    Stored,
}

/// One entry of the module archive: its name, unix mode, storage method and
/// bytes.
pub struct ZipEntry {
    pub name: String,
    pub mode: u32,
    pub method: ZipMethod,
    pub data: Vec<u8>,
}

/// An entry as name, mode, storage method and bytes.
pub open spec fn entry_view(e: ZipEntry) -> (Seq<char>, u32, ZipMethod, Seq<u8>) {
    (e.name@, e.mode, e.method, e.data@)
}

/// The entries as names, modes, storage methods and bytes.
pub open spec fn entries_view(es: Seq<ZipEntry>) -> Seq<(Seq<char>, u32, ZipMethod, Seq<u8>)> {
    es.map_values(|e: ZipEntry| entry_view(e))
}

/// The module name used: the one given, else [`DEFAULT_NAME`].
pub open spec fn name_or_default(name: Option<&str>) -> Seq<char> {
    match name {
        Some(n) => n@,
        None => DEFAULT_NAME@,
    }
}

/// The entries of a module for files already in path order: `module.prop`
/// (mode 0644), the installer (0755), the updater script (0644), then each
/// file under `system/<prefix>/` (0644); every entry is stored uncompressed.
pub open spec fn module_entries_spec(
    files: Seq<(Seq<Seq<char>>, Seq<u8>)>,
    prefix: Seq<char>,
    dest: Seq<char>,
    name: Seq<char>,
) -> Seq<(Seq<char>, u32, ZipMethod, Seq<u8>)> {
    seq![
        (
            "module.prop"@,
            0o644u32,
            ZipMethod::Stored,
            encode_utf8(module_prop_spec(dest, name, files.len())),
        ),
        (
            "META-INF/com/google/android/update-binary"@,
            0o755u32,
            ZipMethod::Stored,
            encode_utf8(UPDATE_BINARY@),
        ),
        (
            "META-INF/com/google/android/updater-script"@,
            0o644u32,
            ZipMethod::Stored,
            encode_utf8(UPDATER_SCRIPT@),
        ),
    ] + files.map_values(
        |f: (Seq<Seq<char>>, Seq<u8>)|
            (module_entry_path_spec(prefix, f.0), 0o644u32, ZipMethod::Stored, f.1),
    )
}

fn text_entry(name: &str, mode: u32, text: &str) -> (e: ZipEntry)
    ensures
        entry_view(e) == (name@, mode, ZipMethod::Stored, encode_utf8(text@)),
{
    ZipEntry {
        name: name.to_owned(),
        mode,
        method: ZipMethod::Stored,
        data: vstd::slice::slice_to_vec(text.as_bytes()),
    }
}

/// The entries of the module archive for a compiled cfgdb tree (`files`: each
/// file's relative path components and bytes), an absolute on-device `dest`
/// and an optional module name. The files come in path order; `dest` is
/// checked as [`dest_prefix`] does.
pub fn module_entries(files: Vec<(Vec<String>, Vec<u8>)>, dest: &str, name: Option<&str>) -> (r:
    Result<Vec<ZipEntry>, Error>)
    ensures
        match dest_prefix_spec(dest@) {
            Err(e) => r matches Err(Error::Project(x)) && x@ == e,
            Ok(p) => r matches Ok(es) && exists|s: Seq<(Seq<Seq<char>>, Seq<u8>)>|
                {
                    &&& files_sorted(s)
                    &&& s.to_multiset() == files_view(files@).to_multiset()
                    &&& entries_view(es@) == module_entries_spec(s, p, dest@, name_or_default(name))
                },
        },
{
    let prefix = match dest_prefix(dest) {
        Ok(p) => p,
        Err(e) => return Err(e),
    };
    let name = match name {
        Some(n) => n,
        None => DEFAULT_NAME,
    };
    let sorted = sort_files(files);
    let ghost s = files_view(sorted@);
    let mut out: Vec<ZipEntry> = Vec::new();
    let prop = module_prop(dest, name, sorted.len());
    out.push(text_entry("module.prop", 0o644, prop.as_str()));
    out.push(text_entry("META-INF/com/google/android/update-binary", 0o755, UPDATE_BINARY));
    out.push(text_entry("META-INF/com/google/android/updater-script", 0o644, UPDATER_SCRIPT));
    let ghost all = module_entries_spec(s, prefix@, dest@, name@);
    assert(entries_view(out@) =~= all.take(3));
    let mut k: usize = 0;
    while k < sorted.len()
        invariant
            k <= sorted.len(),
            s == files_view(sorted@),
            all == module_entries_spec(s, prefix@, dest@, name@),
            entries_view(out@) == all.take(3 + k),
        decreases sorted.len() - k,
    {
        let path = module_entry_path(prefix.as_str(), sorted[k].0.as_slice());
        let data = sorted[k].1.clone();
        let ghost before = out@;
        out.push(ZipEntry { name: path, mode: 0o644, method: ZipMethod::Stored, data });
        assert(entries_view(out@) =~= entries_view(before).push(all[3 + k]));
        assert(all.take(3 + k + 1) =~= all.take(3 + k).push(all[3 + k]));
        k = k + 1;
    }
    assert(all.take(3 + k) =~= all);
    Ok(out)
}

/// A zip writer over an in-memory buffer. Verus does not take a declaration of
/// `zip::ZipWriter` (its bounds name `std::io::Write` and `std::io::Seek`), so
/// the writer is held here, hidden from Verus; [`zip_entries`] names what it
/// holds and [`zip_clean`] whether every call on it so far succeeded.
#[verifier::external_body]
pub struct ZipBuffer {
    w: ZipWriter<Cursor<Vec<u8>>>,
}

/// The entries a zip writer holds so far, in the order they were started: each
/// as its name, unix permission bits, storage method and the bytes written to
/// it.
pub uninterp spec fn zip_entries(z: ZipBuffer) -> Seq<(Seq<char>, u32, ZipMethod, Seq<u8>)>;

/// The writer was made by [`zip_new`] and every call on it since succeeded.
pub uninterp spec fn zip_clean(z: ZipBuffer) -> bool;

/// `bytes` is a zip archive whose entries, in order, have these names, unix
/// permission bits, storage methods and contents.
pub uninterp spec fn archive_holds(
    bytes: Seq<u8>,
    entries: Seq<(Seq<char>, u32, ZipMethod, Seq<u8>)>,
) -> bool;

/// The entries after `data` is written: it goes to the end of the last entry
/// (with no entry, nothing changes).
pub open spec fn appended(es: Seq<(Seq<char>, u32, ZipMethod, Seq<u8>)>, data: Seq<u8>) -> Seq<
    (Seq<char>, u32, ZipMethod, Seq<u8>),
> {
    if es.len() == 0 {
        es
    } else {
        let l = es.last();
        es.update(es.len() - 1, (l.0, l.1, l.2, l.3 + data))
    }
}

/// The names of some entries.
pub open spec fn entry_names(es: Seq<(Seq<char>, u32, ZipMethod, Seq<u8>)>) -> Seq<Seq<char>> {
    es.map_values(|e: (Seq<char>, u32, ZipMethod, Seq<u8>)| e.0)
}

/// The most bytes an entry can hold without the zip64 `large_file` option.
pub open spec fn entry_limit() -> nat {
    0xFFFF_FFFF
}

/// Calls `zip::ZipWriter::new` on an empty in-memory buffer: a new writer
/// holds no entry.
#[verifier::external_body]
fn zip_new() -> (z: ZipBuffer)
    ensures
        zip_entries(z) == Seq::<(Seq<char>, u32, ZipMethod, Seq<u8>)>::empty(),
        zip_clean(z),
{
    ZipBuffer { w: ZipWriter::new(Cursor::new(Vec::new())) }
}

/// Calls `zip::ZipWriter::start_file` with the given storage method and
/// `unix_permissions(mode)`. On success the writer holds one entry more, last:
/// this name, the permission bits of `mode` (`mode & 0o777`, as
/// `unix_permissions` keeps them), this method and no bytes yet. On a clean
/// writer over a memory buffer the call fails exactly when an entry already
/// has this name (`insert_file_data` refuses a duplicate); writes to the
/// in-memory buffer do not fail while it fits in memory. A name longer than
/// `u16::MAX` bytes makes the crate panic (`file_name_length` is
/// `try_into().unwrap()`), so it is left out.
#[verifier::external_body]
fn zip_start_file(z: &mut ZipBuffer, name: &str, mode: u32, method: ZipMethod) -> (r: Result<
    (),
    String,
>)
    requires
        encode_utf8(name@).len() <= 0xFFFF,
    ensures
        r is Ok ==> zip_entries(*final(z)) == zip_entries(*old(z)).push(
            (name@, mode & 0o777u32, method, Seq::<u8>::empty()),
        ),
        zip_clean(*old(z)) ==> (r is Ok <==> !entry_names(zip_entries(*old(z))).contains(name@)),
        zip_clean(*old(z)) && r is Ok ==> zip_clean(*final(z)),
{
    let m = match method {
        ZipMethod::Stored => CompressionMethod::Stored,
    };
    let options = SimpleFileOptions::default().compression_method(m).unix_permissions(mode);
    z.w.start_file(name, options).map_err(|e| e.to_string())
}

/// Calls `std::io::Write::write_all` on the zip writer. On success the bytes
/// have gone to the end of the last entry started. On a clean writer with an
/// entry started, the call fails exactly when the entry would pass
/// 0xFFFF_FFFF bytes (the writer aborts an entry that needs zip64 when
/// `large_file` is not set).
#[verifier::external_body]
fn zip_write_all(z: &mut ZipBuffer, data: &[u8]) -> (r: Result<(), String>)
    ensures
        r is Ok ==> zip_entries(*final(z)) == appended(zip_entries(*old(z)), data@),
        zip_clean(*old(z)) && zip_entries(*old(z)).len() > 0 ==> (r is Ok <==> zip_entries(
            *old(z),
        ).last().3.len() + data@.len() <= entry_limit()),
        zip_clean(*old(z)) && r is Ok ==> zip_clean(*final(z)),
{
    z.w.write_all(data).map_err(|e| e.to_string())
}

/// Calls `zip::ZipWriter::finish` and takes the buffer out of the cursor. On
/// success the bytes are an archive of exactly the entries the writer held;
/// a clean writer over a memory buffer finishes successfully. The bytes
/// themselves are not stated (each entry carries the current time).
#[verifier::external_body]
fn zip_finish(z: ZipBuffer) -> (r: Result<Vec<u8>, String>)
    ensures
        r matches Ok(b) ==> archive_holds(b@, zip_entries(z)),
        zip_clean(z) ==> r is Ok,
{
    z.w.finish().map(|c| c.into_inner()).map_err(|e| e.to_string())
}

/// Every entry of a module has mode 0644 or 0755.
proof fn lemma_module_modes(
    files: Seq<(Seq<Seq<char>>, Seq<u8>)>,
    prefix: Seq<char>,
    dest: Seq<char>,
    name: Seq<char>,
)
    ensures
        forall|i: int|
            0 <= i < module_entries_spec(files, prefix, dest, name).len() ==> {
                let m = #[trigger] module_entries_spec(files, prefix, dest, name)[i].1;
                m == 0o644u32 || m == 0o755u32
            },
{
    let es = module_entries_spec(files, prefix, dest, name);
    assert forall|i: int| 0 <= i < es.len() implies {
        let m = #[trigger] es[i].1;
        m == 0o644u32 || m == 0o755u32
    } by {
        if i >= 3 {
            assert(es[i] == (module_entry_path_spec(prefix, files[i - 3].0), 0o644u32, ZipMethod::Stored, files[i - 3].1));
        }
    }
}

/// The archive entries of a module can all be written: their names are
/// distinct and none passes the entry limit.
pub open spec fn entries_fit(es: Seq<(Seq<char>, u32, ZipMethod, Seq<u8>)>) -> bool {
    &&& entry_names(es).no_duplicates()
    &&& forall|i: int| 0 <= i < es.len() ==> (#[trigger] es[i]).3.len() <= entry_limit()
}

/// The entry name a file gets under `prefix`.
pub open spec fn file_entry_name(prefix: Seq<char>, f: (Seq<Seq<char>>, Seq<u8>)) -> Seq<char> {
    module_entry_path_spec(prefix, f.0)
}

/// The module for these files can be written: no two files get the same
/// entry name, no file and no `module.prop` text passes the entry limit.
pub open spec fn module_fits(
    files: Seq<(Seq<Seq<char>>, Seq<u8>)>,
    prefix: Seq<char>,
    dest: Seq<char>,
    name: Seq<char>,
) -> bool {
    &&& files.map_values(|f: (Seq<Seq<char>>, Seq<u8>)| file_entry_name(prefix, f)).no_duplicates()
    &&& forall|i: int| 0 <= i < files.len() ==> (#[trigger] files[i]).1.len() <= entry_limit()
    &&& encode_utf8(module_prop_spec(dest, name, files.len())).len() <= entry_limit()
}

/// Every entry name of a module for these files fits the zip name field.
pub open spec fn module_names_short(files: Seq<(Seq<Seq<char>>, Seq<u8>)>, prefix: Seq<char>) -> bool {
    forall|i: int|
        0 <= i < files.len() ==> encode_utf8(#[trigger] file_entry_name(prefix, files[i])).len() <= 0xFFFF
}

/// UTF-8 takes at most four bytes a character.
proof fn lemma_encode_utf8_len(s: Seq<char>)
    ensures
        encode_utf8(s).len() <= 4 * s.len(),
    decreases s.len(),
{
    if s.len() > 0 {
        lemma_encode_utf8_len(s.drop_first());
    }
}

/// The installer script is short.
proof fn lemma_installer_short()
    ensures
        encode_utf8(UPDATE_BINARY@).len() <= 0xFFFF,
        encode_utf8(UPDATER_SCRIPT@).len() <= 0xFFFF,
{
    reveal_strlit("#!/sbin/sh\n\n#################\n# Initialization\n#################\n\numask 022\n\n# echo before loading util_functions\nui_print() { echo \"$1\"; }\n\nrequire_new_magisk() {\n  ui_print \"*******************************\"\n  ui_print \" Please install Magisk v20.4+! \"\n  ui_print \"*******************************\"\n  exit 1\n}\n\n#########################\n# Load util_functions.sh\n#########################\n\nOUTFD=$2\nZIPFILE=$3\n\nmount /data 2>/dev/null\n\n[ -f /data/adb/magisk/util_functions.sh ] || require_new_magisk\n. /data/adb/magisk/util_functions.sh\n[ $MAGISK_VER_CODE -lt 20400 ] && require_new_magisk\n\ninstall_module\nexit 0\n");
    reveal_strlit("#MAGISK\n");
    lemma_encode_utf8_len(UPDATE_BINARY@);
    lemma_encode_utf8_len(UPDATER_SCRIPT@);
}

/// Mapping keeps multiset equality.
proof fn lemma_map_multiset<A, B>(a: Seq<A>, b: Seq<A>, f: spec_fn(A) -> B)
    requires
        a.to_multiset() == b.to_multiset(),
    ensures
        a.map_values(f).to_multiset() == b.map_values(f).to_multiset(),
    decreases a.len(),
{
    broadcast use vstd::seq_lib::to_multiset_build, vstd::seq_lib::to_multiset_remove,
        vstd::seq_lib::to_multiset_insert, vstd::seq_lib::to_multiset_len,
        vstd::seq_lib::to_multiset_contains;

    vstd::seq_lib::to_multiset_len(a);
    vstd::seq_lib::to_multiset_len(b);
    if a.len() == 0 {
        assert(b.len() == 0);
        assert(a.map_values(f) =~= b.map_values(f));
    } else {
        let x = a.last();
        let a0 = a.drop_last();
        assert(a =~= a0.push(x));
        assert(a.to_multiset().count(x) > 0);
        assert(b.contains(x));
        let k = choose|k: int| 0 <= k < b.len() && b[k] == x;
        let b0 = b.remove(k);
        assert(a0.to_multiset() =~= b0.to_multiset()) by {
            broadcast use vstd::multiset::group_multiset_axioms;
        }
        lemma_map_multiset(a0, b0, f);
        assert(a.map_values(f) =~= a0.map_values(f).push(f(x)));
        assert(b.map_values(f) =~= b0.map_values(f).insert(k, f(x)));
    }
}

/// Distinctness after mapping does not depend on the order.
proof fn lemma_map_no_dup<A, B>(a: Seq<A>, b: Seq<A>, f: spec_fn(A) -> B)
    requires
        a.to_multiset() == b.to_multiset(),
        a.map_values(f).no_duplicates(),
    ensures
        b.map_values(f).no_duplicates(),
{
    lemma_map_multiset(a, b, f);
    a.map_values(f).lemma_multiset_has_no_duplicates();
    b.map_values(f).lemma_multiset_has_no_duplicates_conv();
}

/// A module's entries fit exactly when [`module_fits`] holds of its files, in
/// whatever order they come.
proof fn lemma_module_entries_fit(
    s: Seq<(Seq<Seq<char>>, Seq<u8>)>,
    files: Seq<(Seq<Seq<char>>, Seq<u8>)>,
    prefix: Seq<char>,
    dest: Seq<char>,
    name: Seq<char>,
)
    requires
        s.to_multiset() == files.to_multiset(),
    ensures
        entries_fit(module_entries_spec(s, prefix, dest, name)) <==> module_fits(files, prefix, dest, name),
        module_names_short(files, prefix) ==> forall|i: int|
            0 <= i < module_entries_spec(s, prefix, dest, name).len() ==> encode_utf8(
                #[trigger] module_entries_spec(s, prefix, dest, name)[i].0,
            ).len() <= 0xFFFF,
{
    broadcast use vstd::seq_lib::to_multiset_len, vstd::seq_lib::to_multiset_contains;

    let es = module_entries_spec(s, prefix, dest, name);
    let f = |x: (Seq<Seq<char>>, Seq<u8>)| file_entry_name(prefix, x);
    let fixed = seq!["module.prop"@, "META-INF/com/google/android/update-binary"@, "META-INF/com/google/android/updater-script"@];
    let sn = s.map_values(f);
    vstd::seq_lib::to_multiset_len(s);
    vstd::seq_lib::to_multiset_len(files);
    assert(s.len() == files.len());
    assert(entry_names(es) =~= fixed + sn);
    reveal_strlit("module.prop");
    reveal_strlit("META-INF/com/google/android/update-binary");
    reveal_strlit("META-INF/com/google/android/updater-script");
    reveal_strlit("system/");
    lemma_installer_short();
    assert(fixed.no_duplicates()) by {
        assert(fixed[0][0] != fixed[1][0]);
        assert(fixed[0][0] != fixed[2][0]);
        assert(fixed[1][34] != fixed[2][34]);
    }
    assert forall|i: int, j: int| 0 <= i < fixed.len() && 0 <= j < sn.len() implies fixed[i] != sn[j] by {
        assert(sn[j][0] == 's');
        assert(fixed[i][0] != 's');
    }
    // element-wise facts carry across the permutation
    assert forall|x: (Seq<Seq<char>>, Seq<u8>)| s.contains(x) <==> files.contains(x) by {
        vstd::seq_lib::to_multiset_contains(s, x);
        vstd::seq_lib::to_multiset_contains(files, x);
    }
    if module_fits(files, prefix, dest, name) {
        lemma_map_no_dup(files, s, f);
        vstd::seq_lib::lemma_no_dup_in_concat(fixed, sn);
        assert forall|i: int| 0 <= i < es.len() implies (#[trigger] es[i]).3.len() <= entry_limit() by {
            if i >= 3 {
                assert(es[i].3 == s[i - 3].1);
                assert(s.contains(s[i - 3]));
                let j = choose|j: int| 0 <= j < files.len() && files[j] == s[i - 3];
                assert(files[j].1.len() <= entry_limit());
            }
        }
    }
    if entries_fit(es) {
        assert forall|i: int, j: int| 0 <= i < sn.len() && 0 <= j < sn.len() && i != j implies sn[i] != sn[j] by {
            assert(entry_names(es)[i + 3] == sn[i]);
            assert(entry_names(es)[j + 3] == sn[j]);
        }
        lemma_map_no_dup(s, files, f);
        assert forall|i: int| 0 <= i < files.len() implies (#[trigger] files[i]).1.len() <= entry_limit() by {
            assert(files.contains(files[i]));
            let j = choose|j: int| 0 <= j < s.len() && s[j] == files[i];
            assert(es[j + 3].3 == s[j].1);
        }
        assert(es[0].3.len() <= entry_limit());
    }
    if module_names_short(files, prefix) {
        assert forall|i: int| 0 <= i < es.len() implies encode_utf8(#[trigger] es[i].0).len() <= 0xFFFF by {
            if i < 3 {
                lemma_encode_utf8_len(es[i].0);
            } else {
                assert(s.contains(s[i - 3]));
                let j = choose|j: int| 0 <= j < files.len() && files[j] == s[i - 3];
                assert(es[i].0 == file_entry_name(prefix, files[j]));
            }
        }
    }
}

/// Build the module `.zip` in memory from a compiled cfgdb tree: the archive
/// holds exactly the entries of [`module_entries`], in that order, each stored
/// with its mode. A bad `dest` is refused before anything is written. The
/// archive is built exactly when [`module_fits`] holds (no two files get one
/// entry name, and no entry passes 0xFFFF_FFFF bytes); otherwise the zip
/// writer refuses it, as `ProjectError::Zip`. Entry names longer than 65535
/// bytes are left out: the zip crate panics on them.
pub fn build_module(files: Vec<(Vec<String>, Vec<u8>)>, dest: &str, name: Option<&str>) -> (r:
    Result<Vec<u8>, Error>)
    requires
        dest_prefix_spec(dest@) matches Ok(p) ==> module_names_short(files_view(files@), p),
    ensures
        match dest_prefix_spec(dest@) {
            Err(e) => r matches Err(Error::Project(x)) && x@ == e,
            Ok(p) => {
                &&& r matches Ok(b) ==> exists|s: Seq<(Seq<Seq<char>>, Seq<u8>)>|
                    {
                        &&& files_sorted(s)
                        &&& s.to_multiset() == files_view(files@).to_multiset()
                        &&& archive_holds(
                            b@,
                            module_entries_spec(s, p, dest@, name_or_default(name)),
                        )
                    }
                &&& (r is Err ==> (r matches Err(Error::Project(ProjectError::Zip(_)))))
                &&& (r is Ok <==> module_fits(files_view(files@), p, dest@, name_or_default(name)))
            },
        },
{
    let ghost fv = files_view(files@);
    let entries = match module_entries(files, dest, name) {
        Ok(es) => es,
        Err(e) => return Err(e),
    };
    let ghost p = dest_prefix_spec(dest@)->Ok_0;
    let ghost s = choose|s: Seq<(Seq<Seq<char>>, Seq<u8>)>|
        {
            &&& files_sorted(s)
            &&& s.to_multiset() == fv.to_multiset()
            &&& entries_view(entries@) == module_entries_spec(s, p, dest@, name_or_default(name))
        };
    let ghost all = entries_view(entries@);
    proof {
        lemma_module_modes(s, p, dest@, name_or_default(name));
        lemma_module_entries_fit(s, fv, p, dest@, name_or_default(name));
    }
    let mut w = zip_new();
    let mut k: usize = 0;
    assert(all.take(0) =~= Seq::<(Seq<char>, u32, ZipMethod, Seq<u8>)>::empty());
    while k < entries.len()
        invariant
            k <= entries.len(),
            dest_prefix_spec(dest@) is Ok,
            p == dest_prefix_spec(dest@)->Ok_0,
            fv == files_view(files@),
            all == entries_view(entries@),
            all == module_entries_spec(s, p, dest@, name_or_default(name)),
            forall|i: int| 0 <= i < all.len() ==> {
                let m = #[trigger] all[i].1;
                m == 0o644u32 || m == 0o755u32
            },
            forall|i: int| 0 <= i < all.len() ==> encode_utf8(#[trigger] all[i].0).len() <= 0xFFFF,
            entries_fit(all) <==> module_fits(fv, p, dest@, name_or_default(name)),
            zip_entries(w) == all.take(k as int),
            zip_clean(w),
            entries_fit(all.take(k as int)),
        decreases entries.len() - k,
    {
        let mode = entries[k].mode;
        assert(all[k as int].1 == mode);
        assert(mode & 0o777u32 == mode) by (bit_vector)
            requires
                mode == 0o644u32 || mode == 0o755u32,
        ;
        assert(entries@[k as int].name@ == all[k as int].0);
        let ghost before = all.take(k as int);
        if let Err(m) = zip_start_file(&mut w, entries[k].name.as_str(), mode, entries[k].method) {
            proof {
                assert(entry_names(before).contains(all[k as int].0));
                let i = choose|i: int| 0 <= i < entry_names(before).len() && entry_names(before)[i] == all[k as int].0;
                assert(before[i] == all[i]);
                assert(entry_names(all)[i] == entry_names(all)[k as int]);
                assert(!entry_names(all).no_duplicates());
                assert(!module_fits(fv, p, dest@, name_or_default(name)));
            }
            return Err(Error::Project(ProjectError::Zip(m)));
        }
        let ghost started = zip_entries(w);
        if let Err(m) = zip_write_all(&mut w, entries[k].data.as_slice()) {
            proof {
                assert(started.last().3.len() == 0);
                assert(all[k as int].3 == entries@[k as int].data@);
                assert(all[k as int].3.len() > entry_limit());
                assert(!entries_fit(all));
                assert(!module_fits(fv, p, dest@, name_or_default(name)));
            }
            return Err(Error::Project(ProjectError::Zip(m)));
        }
        proof {
            let e = all[k as int];
            assert(Seq::<u8>::empty() + e.3 =~= e.3);
            assert(zip_entries(w) =~= all.take(k as int).push(e));
            assert(all.take(k as int + 1) =~= all.take(k as int).push(e));
            let nt = all.take(k as int + 1);
            assert(entry_names(nt) =~= entry_names(before).push(e.0));
            assert forall|i: int, j: int| 0 <= i < nt.len() && 0 <= j < nt.len() && i != j implies entry_names(nt)[i] != entry_names(nt)[j] by {
                if i < k && j < k {
                    assert(entry_names(nt)[i] == entry_names(before)[i]);
                    assert(entry_names(nt)[j] == entry_names(before)[j]);
                } else if i == k {
                    assert(entry_names(nt)[j] == entry_names(before)[j]);
                } else {
                    assert(entry_names(nt)[i] == entry_names(before)[i]);
                }
            }
            assert forall|i: int| 0 <= i < nt.len() implies (#[trigger] nt[i]).3.len() <= entry_limit() by {
                if i < k {
                    assert(nt[i] == before[i]);
                }
            }
        }
        k = k + 1;
    }
    assert(all.take(k as int) =~= all);
    match zip_finish(w) {
        Ok(b) => Ok(b),
        Err(m) => Err(Error::Project(ProjectError::Zip(m))),
    }
}

} // verus!
