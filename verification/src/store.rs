//! Nix store paths, file modes and relative paths.
use vstd::prelude::*;

use crate::bytes::{bytes_equal, copy_bytes};
use crate::text::{byte_len, char_bytes, from_range, lemma_byte_len_push, opt_view, to_chars};

verus! {

/// The text behind the last `c`.
pub open spec fn after_last(s: Seq<char>, c: char) -> Seq<char>
    decreases s.len(),
{
    if s.len() == 0 || s.last() == c {
        seq![]
    } else {
        after_last(s.drop_last(), c).push(s.last())
    }
}

/// The text before the first `c`.
pub open spec fn before_first(s: Seq<char>, c: char) -> Seq<char>
    decreases s.len(),
{
    if s.len() == 0 || s.first() == c {
        seq![]
    } else {
        seq![s.first()] + before_first(s.drop_first(), c)
    }
}

/// The last component of a path.
pub open spec fn base_name(path: Seq<char>) -> Seq<char> {
    after_last(path, '/')
}

/// The hash of a store path: its last component up to the first dash.
pub open spec fn hash_of(path: Seq<char>) -> Seq<char> {
    before_first(base_name(path), '-')
}

/// The first `k` characters of `s` take up `b` bytes.
pub open spec fn at_byte(s: Seq<char>, b: nat, k: int) -> bool {
    0 <= k <= s.len() && byte_len(s.take(k)) == b
}

/// A dash stands behind 32 bytes and before at least one character more.
pub open spec fn dash_at(s: Seq<char>, k: int) -> bool {
    at_byte(s, 32, k) && k + 1 < s.len() && s[k] == '-'
}

/// The name and version of a store path: what stands in its last component
/// behind 32 bytes of hash and a dash.
pub open spec fn name_part(path: Seq<char>) -> Option<Seq<char>> {
    let base = base_name(path);
    if exists|k: int| dash_at(base, k) {
        Some(base.skip((choose|k: int| dash_at(base, k)) + 1))
    } else {
        None
    }
}

proof fn lemma_byte_len_grows(s: Seq<char>, i: int, j: int)
    requires
        0 <= i < j <= s.len(),
    ensures
        byte_len(s.take(i)) < byte_len(s.take(j)),
    decreases j - i,
{
    assert(s.take(j).drop_last() =~= s.take(j - 1));
    if i < j - 1 {
        lemma_byte_len_grows(s, i, j - 1);
    }
}

pub proof fn lemma_dash_unique(s: Seq<char>, i: int, j: int)
    requires
        at_byte(s, 32, i),
        at_byte(s, 32, j),
    ensures
        i == j,
{
    if i < j {
        lemma_byte_len_grows(s, i, j);
    } else if j < i {
        lemma_byte_len_grows(s, j, i);
    }
}

pub proof fn lemma_after_last(s: Seq<char>, c: char, k: int)
    requires
        0 <= k <= s.len(),
        k == 0 || s[k - 1] == c,
        forall|i: int| k <= i < s.len() ==> s[i] != c,
    ensures
        after_last(s, c) == s.skip(k),
    decreases s.len(),
{
    if k < s.len() {
        lemma_after_last(s.drop_last(), c, k);
        assert(s.skip(k) =~= s.drop_last().skip(k).push(s.last()));
    } else {
        assert(s.skip(k) =~= seq![]);
    }
}

pub proof fn lemma_before_first(s: Seq<char>, c: char, k: int)
    requires
        0 <= k <= s.len(),
        k == s.len() || s[k] == c,
        forall|i: int| 0 <= i < k ==> s[i] != c,
    ensures
        before_first(s, c) == s.take(k),
    decreases s.len(),
{
    if k > 0 {
        lemma_before_first(s.drop_first(), c, k - 1);
        assert(s.take(k) =~= seq![s.first()] + s.drop_first().take(k - 1));
    } else {
        assert(s.take(k) =~= seq![]);
    }
}

/// The hash of `/nix/store/<hash>-<name>` is `<hash>`.
pub proof fn law_hash_of_store_path(hash: Seq<char>, name: Seq<char>)
    requires
        !hash.contains('-'),
        !hash.contains('/'),
        !name.contains('/'),
    ensures
        hash_of("/nix/store/"@ + hash + seq!['-'] + name) == hash,
{
    reveal_strlit("/nix/store/");
    let dir = "/nix/store/"@;
    let path = dir + hash + seq!['-'] + name;
    let base = hash + seq!['-'] + name;
    assert(path.skip(dir.len() as int) =~= base);
    assert forall|i: int| dir.len() <= i < path.len() implies path[i] != '/' by {
        assert(path[i] == base[i - dir.len()]);
        if i - dir.len() < hash.len() {
            assert(hash.contains(hash[i - dir.len()]));
        } else if i - dir.len() > hash.len() {
            assert(name.contains(name[i - dir.len() - hash.len() - 1]));
        }
    }
    lemma_after_last(path, '/', dir.len() as int);
    assert forall|i: int| 0 <= i < hash.len() implies base[i] != '-' by {
        assert(hash.contains(hash[i]));
    }
    lemma_before_first(base, '-', hash.len() as int);
    assert(base.take(hash.len() as int) =~= hash);
}

/// Where the last component of a path begins.
fn base_start(path: &Vec<char>) -> (r: usize)
    ensures
        r <= path@.len(),
        base_name(path@) == path@.skip(r as int),
{
    let mut k: usize = path.len();
    while k > 0 && path[k - 1] != '/'
        invariant
            k <= path@.len(),
            forall|i: int| k <= i < path@.len() ==> path@[i] != '/',
        decreases k,
    {
        k -= 1;
    }
    proof {
        lemma_after_last(path@, '/', k as int);
    }
    k
}

/// Extract the 32-character hash from a Nix store path.
///
/// `/nix/store/abc123…-name` → `abc123…`
pub fn store_path_hash(store_path: &str) -> (r: &str)
    ensures
        r@ == hash_of(store_path@),
{
    let chars: Vec<char> = to_chars(store_path);
    let start: usize = base_start(&chars);
    let n: usize = chars.len();
    let mut end: usize = start;
    while end < n && chars[end] != '-'
        invariant
            start <= end <= n,
            n == chars@.len(),
            forall|i: int| start <= i < end ==> chars@[i] != '-',
        decreases n - end,
    {
        end += 1;
    }
    proof {
        let base = chars@.skip(start as int);
        lemma_before_first(base, '-', end - start);
        assert(base.take(end - start) =~= chars@.subrange(start as int, end as int));
    }
    store_path.substring_char(start, end)
}

/// The name and version of a store path.
pub fn store_path_name(store_path: &str) -> (r: Option<String>)
    ensures
        opt_view(r) == name_part(store_path@),
{
    let chars: Vec<char> = to_chars(store_path);
    let start: usize = base_start(&chars);
    let n: usize = chars.len();
    let ghost base = base_name(store_path@);
    let mut k: usize = start;
    let mut bytes: usize = 0;
    proof {
        assert(base.take(0) =~= seq![]);
    }
    while k < n && bytes < 32
        invariant
            start <= k <= n,
            n == chars@.len(),
            base == chars@.skip(start as int),
            bytes == byte_len(base.take(k - start)),
            bytes < 36,
            forall|i: int| 0 <= i < k - start ==> byte_len(#[trigger] base.take(i)) < 32,
        decreases n - k,
    {
        proof {
            assert(base.take(k - start + 1) =~= base.take(k - start).push(chars@[k as int]));
            lemma_byte_len_push(base.take(k - start), chars@[k as int]);
        }
        bytes += char_bytes(chars[k]);
        k += 1;
    }
    if bytes == 32 && n - k > 1 && chars[k] == '-' {
        proof {
            assert(dash_at(base, k - start));
            let c = choose|c: int| dash_at(base, c);
            lemma_dash_unique(base, c, k - start);
            assert(chars@.subrange(k + 1, n as int) =~= base.skip(k - start + 1));
        }
        Some(from_range(&chars, k + 1, n))
    } else {
        proof {
            assert forall|c: int| !dash_at(base, c) by {
                if dash_at(base, c) {
                    if c < k - start {
                        assert(byte_len(base.take(c)) < 32);
                    } else if bytes == 32 {
                        lemma_dash_unique(base, c, k - start);
                        assert(base[c] == chars@[k as int]);
                    } else if c > k - start {
                        lemma_byte_len_grows(base, k - start, c);
                    }
                }
            }
        }
        None
    }
}

// ---------------------------------------------------------------------------
// File modes and kinds
// ---------------------------------------------------------------------------

/// Make a file writable by its owner: the mode bits to set.
pub fn make_writable(mode: u32) -> (r: u32)
    ensures
        r == mode | 0x80,
{
    mode | 0x80
}

/// Whether its owner may execute a file with the given mode.
pub fn owner_may_execute(mode: u32) -> (r: bool)
    ensures
        r == (mode & 0x40 != 0),
{
    mode & 0x40 != 0
}

/// Making a file writable sets the bit for its owner and changes no other, and
/// doing so again changes nothing.
pub proof fn law_make_writable(mode: u32)
    ensures
        (mode | 0x80) & 0x80 != 0,
        (mode | 0x80) & !0x80 == mode & !0x80,
        (mode | 0x80) | 0x80 == mode | 0x80,
{
    assert((mode | 0x80) & 0x80 != 0) by (bit_vector);
    assert((mode | 0x80) & !0x80 == mode & !0x80) by (bit_vector);
    assert((mode | 0x80) | 0x80 == mode | 0x80) by (bit_vector);
}

/// What is done with an entry of a directory when a tree is copied.
#[derive(Clone, Copy, PartialEq, Eq, Structural, Debug)]
pub enum CopyStep {
    /// A symbolic link is made again, with the same target.
    Link,
    /// The tree below a directory is copied.
    Descend,
    /// A file is copied.
    Copy,
}

/// Copy a directory tree, preserving symlinks: what is done with an entry.
pub fn copy_tree(is_symlink: bool, is_dir: bool) -> (r: CopyStep)
    ensures
        is_symlink ==> r == CopyStep::Link,
        !is_symlink && is_dir ==> r == CopyStep::Descend,
        !is_symlink && !is_dir ==> r == CopyStep::Copy,
{
    if is_symlink {
        CopyStep::Link
    } else if is_dir {
        CopyStep::Descend
    } else {
        CopyStep::Copy
    }
}

/// How a store path that is kept whole gets into a bundle.
#[derive(Clone, Copy, PartialEq, Eq, Structural, Debug)]
pub enum KeepStep {
    /// It is missing, and left out.
    Missing,
    /// It is in the bundle already.
    Present,
    /// It is a directory, and its tree is copied.
    CopyTree,
    /// It is a single file (e.g. a script), and copied.
    CopyFile,
}

/// How a store path that is kept whole gets into a bundle.
pub fn keep_step(exists: bool, in_bundle: bool, is_dir: bool) -> (r: KeepStep)
    ensures
        !exists ==> r == KeepStep::Missing,
        exists && in_bundle ==> r == KeepStep::Present,
        exists && !in_bundle && is_dir ==> r == KeepStep::CopyTree,
        exists && !in_bundle && !is_dir ==> r == KeepStep::CopyFile,
{
    if !exists {
        KeepStep::Missing
    } else if in_bundle {
        KeepStep::Present
    } else if is_dir {
        KeepStep::CopyTree
    } else {
        KeepStep::CopyFile
    }
}

/// How a kept file of a store path that is kept in part gets into a bundle.
#[derive(Clone, Copy, PartialEq, Eq, Structural, Debug)]
pub enum FileStep {
    /// It is missing, or cannot be looked at, and left out.
    Skip,
    /// A symbolic link is made again, in place of what is there.
    Relink,
    /// A file is copied and made writable.
    Copy,
}

/// How a kept file gets into a bundle. Whether it is a symbolic link is known
/// where it can be looked at.
pub fn file_step(exists: bool, is_symlink: Option<bool>) -> (r: FileStep)
    ensures
        r == (match is_symlink {
            Some(link) => if !exists {
                FileStep::Skip
            } else if link {
                FileStep::Relink
            } else {
                FileStep::Copy
            },
            None => FileStep::Skip,
        }),
{
    if !exists {
        return FileStep::Skip;
    }
    match is_symlink {
        Some(link) => if link {
            FileStep::Relink
        } else {
            FileStep::Copy
        },
        None => FileStep::Skip,
    }
}

/// Preserve top-level directory symlinks (e.g. lib64 → lib): whether a link is to
/// be made for an entry of a store path. `in_bundle` says whether the bundle has
/// something in its place.
pub fn keeps_dir_link(is_symlink: bool, is_dir: bool, in_bundle: bool) -> (r: bool)
    ensures
        r == (is_symlink && is_dir && !in_bundle),
{
    is_symlink && is_dir && !in_bundle
}

// ---------------------------------------------------------------------------
// Relative paths
// ---------------------------------------------------------------------------

/// The component that names the directory above.
pub open spec fn parent_dir() -> Seq<u8> {
    seq![0x2eu8, 0x2eu8]
}

/// How many components two paths begin with in common.
pub open spec fn shared(a: Seq<Seq<u8>>, b: Seq<Seq<u8>>) -> nat
    decreases a.len(),
{
    if a.len() > 0 && b.len() > 0 && a[0] == b[0] {
        1 + shared(a.drop_first(), b.drop_first())
    } else {
        0
    }
}

/// The path from the directory `base` to `target`: up to what they share, then
/// down.
pub open spec fn relative(target: Seq<Seq<u8>>, base: Seq<Seq<u8>>) -> Seq<Seq<u8>> {
    let k = shared(target, base);
    Seq::new((base.len() - k) as nat, |i: int| parent_dir()) + target.skip(k as int)
}

/// Where a path leads from the directory `base`.
pub open spec fn resolved(base: Seq<Seq<u8>>, path: Seq<Seq<u8>>) -> Seq<Seq<u8>>
    decreases path.len(),
{
    if path.len() == 0 {
        base
    } else {
        let before = resolved(base, path.drop_last());
        if path.last() == parent_dir() {
            if before.len() > 0 {
                before.drop_last()
            } else {
                before
            }
        } else {
            before.push(path.last())
        }
    }
}

proof fn lemma_shared(a: Seq<Seq<u8>>, b: Seq<Seq<u8>>)
    ensures
        shared(a, b) <= a.len(),
        shared(a, b) <= b.len(),
        a.take(shared(a, b) as int) == b.take(shared(a, b) as int),
    decreases a.len(),
{
    let k = shared(a, b) as int;
    if a.len() > 0 && b.len() > 0 && a[0] == b[0] {
        let a1 = a.drop_first();
        let b1 = b.drop_first();
        lemma_shared(a1, b1);
        assert forall|i: int| 0 <= i < k implies a.take(k)[i] == b.take(k)[i] by {
            if i > 0 {
                assert(a1.take(k - 1)[i - 1] == a[i]);
                assert(b1.take(k - 1)[i - 1] == b[i]);
            }
        }
    }
    assert(a.take(k) =~= b.take(k));
}

proof fn lemma_resolved_up(base: Seq<Seq<u8>>, n: nat)
    requires
        n <= base.len(),
    ensures
        resolved(base, Seq::new(n, |i: int| parent_dir())) == base.take(base.len() - n),
    decreases n,
{
    let up = Seq::new(n, |i: int| parent_dir());
    if n > 0 {
        lemma_resolved_up(base, (n - 1) as nat);
        assert(up.drop_last() =~= Seq::new((n - 1) as nat, |i: int| parent_dir()));
        assert(base.take(base.len() - n + 1).drop_last() =~= base.take(base.len() - n));
    } else {
        assert(base.take(base.len() as int) =~= base);
    }
}

proof fn lemma_resolved_down(base: Seq<Seq<u8>>, up: Seq<Seq<u8>>, down: Seq<Seq<u8>>)
    requires
        !down.contains(parent_dir()),
    ensures
        resolved(base, up + down) == resolved(base, up) + down,
    decreases down.len(),
{
    let all = up + down;
    if down.len() > 0 {
        let rest = down.drop_last();
        assert(down.contains(down[down.len() - 1]));
        assert(!rest.contains(parent_dir())) by {
            if rest.contains(parent_dir()) {
                assert(down[rest.index_of(parent_dir())] == parent_dir());
            }
        }
        lemma_resolved_down(base, up, rest);
        assert(all.drop_last() =~= up + rest);
        assert(resolved(base, up) + down =~= (resolved(base, up) + rest).push(down.last()));
    } else {
        assert(all =~= up);
        assert(resolved(base, up) + down =~= resolved(base, up));
    }
}

/// The relative path leads from the directory to the target, where the target
/// does not itself go up.
pub proof fn law_relative_path_leads_to_target(target: Seq<Seq<u8>>, base: Seq<Seq<u8>>)
    requires
        !target.contains(parent_dir()),
    ensures
        resolved(base, relative(target, base)) == target,
{
    lemma_shared(target, base);
    let k = shared(target, base) as int;
    let down = target.skip(k);
    lemma_resolved_up(base, (base.len() - k) as nat);
    assert(!down.contains(parent_dir())) by {
        if down.contains(parent_dir()) {
            assert(target[k + down.index_of(parent_dir())] == parent_dir());
        }
    }
    lemma_resolved_down(base, Seq::new((base.len() - k) as nat, |i: int| parent_dir()), down);
    assert(target.take(k) + down =~= target);
}

/// The bytes of components.
pub open spec fn component_views(list: Seq<Vec<u8>>) -> Seq<Seq<u8>> {
    list.map_values(|c: Vec<u8>| c@)
}

/// Compute a relative path from `base` to `target`. Both are given by the bytes of
/// their components, the root being one of them.
pub fn pathdiff(target: &Vec<Vec<u8>>, base: &Vec<Vec<u8>>) -> (r: Vec<Vec<u8>>)
    ensures
        component_views(r@) == relative(component_views(target@), component_views(base@)),
{
    let ghost t = component_views(target@);
    let ghost b = component_views(base@);
    // Skip common prefix
    let mut k: usize = 0;
    proof {
        assert(t.skip(0) =~= t);
        assert(b.skip(0) =~= b);
    }
    while k < target.len() && k < base.len() && bytes_equal(&target[k], &base[k])
        invariant
            k <= target@.len(),
            k <= base@.len(),
            t == component_views(target@),
            b == component_views(base@),
            shared(t, b) == k + shared(t.skip(k as int), b.skip(k as int)),
        decreases target@.len() - k,
    {
        proof {
            assert(t.skip(k as int)[0] == target@[k as int]@);
            assert(b.skip(k as int)[0] == base@[k as int]@);
            assert(t.skip(k as int).drop_first() =~= t.skip(k as int + 1));
            assert(b.skip(k as int).drop_first() =~= b.skip(k as int + 1));
        }
        k += 1;
    }
    proof {
        if k < target@.len() && k < base@.len() {
            assert(t.skip(k as int)[0] == target@[k as int]@);
            assert(b.skip(k as int)[0] == base@[k as int]@);
        }
        assert(shared(t, b) == k);
    }
    let mut r: Vec<Vec<u8>> = Vec::new();
    let mut i: usize = k;
    while i < base.len()
        invariant
            k <= i <= base@.len(),
            r@.len() == i - k,
            forall|j: int| 0 <= j < r@.len() ==> (#[trigger] r@[j])@ == parent_dir(),
        decreases base@.len() - i,
    {
        let up: Vec<u8> = vec![0x2e, 0x2e];
        proof {
            assert(up@ =~= parent_dir());
        }
        r.push(up);
        i += 1;
    }
    let ghost ups = (base@.len() - k) as int;
    i = k;
    while i < target.len()
        invariant
            k <= i <= target@.len(),
            ups >= 0,
            r@.len() == ups + i - k,
            forall|j: int| 0 <= j < ups ==> (#[trigger] r@[j])@ == parent_dir(),
            forall|j: int| ups <= j < r@.len() ==> (#[trigger] r@[j])@ == target@[j - ups + k]@,
        decreases target@.len() - i,
    {
        r.push(copy_bytes(&target[i]));
        i += 1;
    }
    proof {
        assert(component_views(r@) =~= relative(t, b));
    }
    r
}

} // verus!
