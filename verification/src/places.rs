//! Where a runtime has its programs and data, and the order of directories.
use vstd::prelude::*;

use crate::order::{
    by_key, ints, lemma_by_key, lemma_ranking, lemma_ranking_agrees, ranking, sort_positions,
    SortKey,
};
use crate::store::component_views;
use crate::text::views;

verus! {

// ---------------------------------------------------------------------------
// Places
// ---------------------------------------------------------------------------

/// The directories of programs of a runtime, in the order in which they are read.
/// Of two programs with one name the last counts.
pub fn program_dirs() -> (r: Vec<String>)
    ensures
        views(r@) == seq!["bin"@, "libexec"@, "sbin"@],
{
    let r: Vec<String> = vec!["bin".to_owned(), "libexec".to_owned(), "sbin".to_owned()];
    proof {
        assert(views(r@) =~= seq!["bin"@, "libexec"@, "sbin"@]);
    }
    r
}

/// Where a runtime has its data. The first four are paths, the others patterns.
pub struct DataPlaces {
    pub schemas: String,
    pub locales: String,
    pub icons: String,
    pub mime: String,
    pub typelibs: String,
    pub qt_plugins: String,
    pub gst_plugins: String,
    /// Where Python is looked for first.
    pub python: String,
    /// Where Python is looked for if it was not found there.
    pub nested_python: String,
}

/// Where a runtime has its data.
pub fn data_places() -> (r: DataPlaces)
    ensures
        r.schemas@ == "share/glib-2.0/schemas"@,
        r.locales@ == "share/locale"@,
        r.icons@ == "share/icons"@,
        r.mime@ == "share/mime"@,
        r.typelibs@ == "lib/**/girepository-1.0"@,
        r.qt_plugins@ == "lib/**/qt6/plugins"@,
        r.gst_plugins@ == "lib/**/gstreamer-1.0"@,
        r.python@ == "lib/python3.*"@,
        r.nested_python@ == "lib/*/python3.*"@,
{
    DataPlaces {
        schemas: "share/glib-2.0/schemas".to_owned(),
        locales: "share/locale".to_owned(),
        icons: "share/icons".to_owned(),
        mime: "share/mime".to_owned(),
        typelibs: "lib/**/girepository-1.0".to_owned(),
        qt_plugins: "lib/**/qt6/plugins".to_owned(),
        gst_plugins: "lib/**/gstreamer-1.0".to_owned(),
        python: "lib/python3.*".to_owned(),
        nested_python: "lib/*/python3.*".to_owned(),
    }
}

/// The directory of Python: the first of those that were found, or the first of
/// the nested ones where none was.
pub fn python_dir<A>(found: Vec<A>, nested: Vec<A>) -> (r: Option<A>)
    ensures
        r == (if found@.len() > 0 {
            Some(found@[0])
        } else if nested@.len() > 0 {
            Some(nested@[0])
        } else {
            None
        }),
{
    let mut dirs: Vec<A> = if found.len() > 0 {
        found
    } else {
        nested
    };
    if dirs.len() > 0 {
        Some(dirs.swap_remove(0))
    } else {
        None
    }
}

// ---------------------------------------------------------------------------
// Order
// ---------------------------------------------------------------------------

/// The order of bytes by their first difference. Bytes stand before those that
/// they begin.
pub open spec fn bytes_le(a: Seq<u8>, b: Seq<u8>) -> bool
    decreases a.len(),
{
    if a.len() == 0 {
        true
    } else if b.len() == 0 {
        false
    } else if a[0] != b[0] {
        a[0] < b[0]
    } else {
        bytes_le(a.drop_first(), b.drop_first())
    }
}

/// The order of paths by the first of their components that differ. A path stands
/// before those below it.
pub open spec fn path_le(a: Seq<Seq<u8>>, b: Seq<Seq<u8>>) -> bool
    decreases a.len(),
{
    if a.len() == 0 {
        true
    } else if b.len() == 0 {
        false
    } else if a[0] != b[0] {
        bytes_le(a[0], b[0])
    } else {
        path_le(a.drop_first(), b.drop_first())
    }
}

/// The paths of directories, each by its components.
pub open spec fn dir_views(dirs: Seq<Vec<Vec<u8>>>) -> Seq<Seq<Seq<u8>>> {
    dirs.map_values(|d: Vec<Vec<u8>>| component_views(d@))
}

/// The order of positions by the paths that stand there.
pub open spec fn by_path(paths: Seq<Seq<Seq<u8>>>) -> spec_fn(int, int) -> bool {
    |i: int, j: int| path_le(paths[i], paths[j])
}

proof fn lemma_bytes_le_total(a: Seq<u8>, b: Seq<u8>)
    ensures
        bytes_le(a, b) || bytes_le(b, a),
        bytes_le(a, b) && bytes_le(b, a) ==> a == b,
    decreases a.len(),
{
    if a.len() > 0 && b.len() > 0 && a[0] == b[0] {
        lemma_bytes_le_total(a.drop_first(), b.drop_first());
        if bytes_le(a, b) && bytes_le(b, a) {
            assert(a =~= seq![a[0]] + a.drop_first());
            assert(b =~= seq![b[0]] + b.drop_first());
        }
    } else if a.len() == 0 && b.len() == 0 {
        assert(a =~= b);
    }
}

proof fn lemma_bytes_le_transitive(a: Seq<u8>, b: Seq<u8>, c: Seq<u8>)
    requires
        bytes_le(a, b),
        bytes_le(b, c),
    ensures
        bytes_le(a, c),
    decreases a.len(),
{
    if a.len() > 0 && b.len() > 0 && c.len() > 0 && a[0] == b[0] && b[0] == c[0] {
        lemma_bytes_le_transitive(a.drop_first(), b.drop_first(), c.drop_first());
    }
}

proof fn lemma_path_le_total(a: Seq<Seq<u8>>, b: Seq<Seq<u8>>)
    ensures
        path_le(a, b) || path_le(b, a),
    decreases a.len(),
{
    if a.len() > 0 && b.len() > 0 {
        if a[0] == b[0] {
            lemma_path_le_total(a.drop_first(), b.drop_first());
        } else {
            lemma_bytes_le_total(a[0], b[0]);
        }
    }
}

proof fn lemma_path_le_transitive(a: Seq<Seq<u8>>, b: Seq<Seq<u8>>, c: Seq<Seq<u8>>)
    requires
        path_le(a, b),
        path_le(b, c),
    ensures
        path_le(a, c),
    decreases a.len(),
{
    if a.len() > 0 && b.len() > 0 && c.len() > 0 {
        if a[0] == b[0] && b[0] == c[0] {
            lemma_path_le_transitive(a.drop_first(), b.drop_first(), c.drop_first());
        } else {
            if a[0] != b[0] && b[0] != c[0] {
                lemma_bytes_le_transitive(a[0], b[0], c[0]);
                lemma_bytes_le_total(a[0], b[0]);
            }
        }
    }
}

/// The order of directories holds each position once, and none comes behind one
/// with a later path.
pub proof fn law_dirs_are_in_order(paths: Seq<Seq<Seq<u8>>>)
    ensures
        ranking(by_path(paths), paths.len()).len() == paths.len(),
        forall|k: int| #[trigger]
            ranking(by_path(paths), paths.len()).contains(k) <==> 0 <= k < paths.len(),
        forall|i: int, j: int|
            0 <= i < j < paths.len() ==> path_le(
                paths[#[trigger] ranking(by_path(paths), paths.len())[i]],
                paths[#[trigger] ranking(by_path(paths), paths.len())[j]],
            ),
{
    let le = by_path(paths);
    assert forall|i: int, j: int| #[trigger] le(i, j) || le(j, i) by {
        lemma_path_le_total(paths[i], paths[j]);
    }
    assert forall|i: int, j: int, k: int| #[trigger] le(i, j) && #[trigger] le(j, k) implies le(
        i,
        k,
    ) by {
        lemma_path_le_transitive(paths[i], paths[j], paths[k]);
    }
    lemma_ranking(le, paths.len());
}

/// Whether bytes stand before others, or are the same.
fn bytes_not_after(a: &Vec<u8>, b: &Vec<u8>) -> (r: bool)
    ensures
        r == bytes_le(a@, b@),
{
    let mut i: usize = 0;
    proof {
        assert(a@.skip(0) =~= a@);
        assert(b@.skip(0) =~= b@);
    }
    while i < a.len() && i < b.len()
        invariant
            i <= a@.len(),
            i <= b@.len(),
            bytes_le(a@, b@) == bytes_le(a@.skip(i as int), b@.skip(i as int)),
        decreases a@.len() - i,
    {
        if a[i] != b[i] {
            return a[i] < b[i];
        }
        proof {
            assert(a@.skip(i as int).drop_first() =~= a@.skip(i as int + 1));
            assert(b@.skip(i as int).drop_first() =~= b@.skip(i as int + 1));
        }
        i += 1;
    }
    i == a.len()
}

/// Sorts by path.
pub struct PathKey<'a> {
    pub components: &'a Vec<Vec<u8>>,
}

impl<'a> SortKey for PathKey<'a> {
    open spec fn le(&self, other: &Self) -> bool {
        path_le(component_views(self.components@), component_views(other.components@))
    }

    proof fn lemma_order(a: &Self, b: &Self, c: &Self) {
        let va = component_views(a.components@);
        let vb = component_views(b.components@);
        lemma_path_le_total(va, vb);
        if a.le(b) && b.le(c) {
            lemma_path_le_transitive(va, vb, component_views(c.components@));
        }
    }

    fn not_after(&self, other: &Self) -> (r: bool) {
        let a: &Vec<Vec<u8>> = self.components;
        let b: &Vec<Vec<u8>> = other.components;
        let ghost va = component_views(a@);
        let ghost vb = component_views(b@);
        let mut i: usize = 0;
        proof {
            assert(va.skip(0) =~= va);
            assert(vb.skip(0) =~= vb);
        }
        while i < a.len() && i < b.len()
            invariant
                i <= a@.len(),
                i <= b@.len(),
                a@ == self.components@,
                b@ == other.components@,
                va == component_views(a@),
                vb == component_views(b@),
                path_le(va, vb) == path_le(va.skip(i as int), vb.skip(i as int)),
            decreases a@.len() - i,
        {
            proof {
                assert(va.skip(i as int)[0] == a@[i as int]@);
                assert(vb.skip(i as int)[0] == b@[i as int]@);
                lemma_bytes_le_total(a@[i as int]@, b@[i as int]@);
                assert(va.skip(i as int).drop_first() =~= va.skip(i as int + 1));
                assert(vb.skip(i as int).drop_first() =~= vb.skip(i as int + 1));
            }
            if !bytes_not_after(&a[i], &b[i]) {
                return false;
            }
            if !bytes_not_after(&b[i], &a[i]) {
                return true;
            }
            i += 1;
        }
        i == a.len()
    }
}

/// The positions of directories in the order of their paths. Each is given by the
/// bytes of its components below one directory.
pub fn dir_positions(dirs: &Vec<Vec<Vec<u8>>>) -> (r: Vec<usize>)
    ensures
        ints(r@) == ranking(by_path(dir_views(dirs@)), dirs@.len()),
        forall|i: int| 0 <= i < r@.len() ==> (#[trigger] r@[i]) < dirs@.len(),
{
    let mut keys: Vec<PathKey> = Vec::new();
    let mut i: usize = 0;
    while i < dirs.len()
        invariant
            i <= dirs@.len(),
            keys@.len() == i,
            forall|k: int| 0 <= k < i ==> (#[trigger] keys@[k]).components@ == dirs@[k]@,
        decreases dirs@.len() - i,
    {
        keys.push(PathKey { components: &dirs[i] });
        i += 1;
    }
    proof {
        lemma_by_key(keys@);
        lemma_ranking_agrees(by_key(keys@), by_path(dir_views(dirs@)), dirs@.len());
    }
    sort_positions(&keys)
}

} // verus!
