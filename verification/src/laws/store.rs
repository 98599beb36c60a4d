//! The names of store paths, and relative paths.
use vstd::prelude::*;

use crate::store::{
    base_name, dash_at, hash_of, lemma_after_last, lemma_before_first, lemma_dash_unique, name_part,
    relative, shared,
};
use crate::text::{byte_len, utf8_len};

verus! {

/// The last component of a path is what stands behind its last slash, and the whole path
/// where it has none.
pub proof fn law_base_name(dir: Seq<char>, name: Seq<char>)
    requires
        !name.contains('/'),
    ensures
        base_name(name) == name,
        base_name(dir + seq!['/'] + name) == name,
{
    assert forall|i: int| 0 <= i < name.len() implies name[i] != '/' by {
        assert(name.contains(name[i]));
    }
    lemma_after_last(name, '/', 0);
    assert(name.skip(0) =~= name);
    let path = dir + seq!['/'] + name;
    let k = dir.len() as int + 1;
    assert forall|i: int| k <= i < path.len() implies path[i] != '/' by {
        assert(path[i] == name[i - k]);
    }
    lemma_after_last(path, '/', k);
    assert(path.skip(k) =~= name);
}

/// The hash of a store path is what stands in its last component before the first dash,
/// and all of that where it has none.
pub proof fn law_hash(dir: Seq<char>, hash: Seq<char>, name: Seq<char>)
    requires
        !hash.contains('/'),
        !hash.contains('-'),
        !name.contains('/'),
    ensures
        hash_of(hash) == hash,
        hash_of(hash + seq!['-'] + name) == hash,
        hash_of(dir + seq!['/'] + hash) == hash,
        hash_of(dir + seq!['/'] + (hash + seq!['-'] + name)) == hash,
{
    let base = hash + seq!['-'] + name;
    assert(!base.contains('/')) by {
        if base.contains('/') {
            let i = base.index_of('/');
            if i < hash.len() {
                assert(hash[i] == '/');
            } else {
                assert(name[i - hash.len() - 1] == '/');
            }
        }
    }
    law_base_name(dir, hash);
    law_base_name(dir, base);
    assert forall|i: int| 0 <= i < hash.len() implies hash[i] != '-' && base[i] != '-' by {
        assert(hash.contains(hash[i]));
    }
    lemma_before_first(hash, '-', hash.len() as int);
    lemma_before_first(base, '-', hash.len() as int);
    assert(hash.take(hash.len() as int) =~= hash);
    assert(base.take(hash.len() as int) =~= hash);
}

/// How many bytes a text takes up: those of its characters together.
pub proof fn law_byte_len(a: Seq<char>, b: Seq<char>, c: char)
    ensures
        byte_len(Seq::empty()) == 0,
        byte_len(a + b) == byte_len(a) + byte_len(b),
        byte_len(seq![c]) == (if c as u32 <= 0x7f {
            1nat
        } else if c as u32 <= 0x7ff {
            2nat
        } else if c as u32 <= 0xffff {
            3nat
        } else {
            4nat
        }),
    decreases b.len(),
{
    if b.len() == 0 {
        assert(a + b =~= a);
    } else {
        law_byte_len(a, b.drop_last(), c);
        assert((a + b).drop_last() =~= a + b.drop_last());
    }
    assert(seq![c].drop_last() =~= Seq::empty());
    assert(byte_len(seq![c]) == byte_len(Seq::empty()) + utf8_len(c));
}

/// The name of a store path is what stands in its last component behind a hash of 32 bytes
/// and a dash. It is not empty.
pub proof fn law_name_part(path: Seq<char>, name: Seq<char>)
    ensures
        name_part(path) == Some(name) <==> name.len() > 0 && exists|hash: Seq<char>|
            base_name(path) == #[trigger] (hash + seq!['-'] + name) && byte_len(hash) == 32,
{
    let base = base_name(path);
    if name_part(path) == Some(name) {
        let k = choose|k: int| dash_at(base, k);
        let hash = base.take(k);
        assert(base =~= hash + seq!['-'] + name);
    }
    if name.len() > 0 && exists|hash: Seq<char>|
        base_name(path) == #[trigger] (hash + seq!['-'] + name) && byte_len(hash) == 32 {
        let hash = choose|hash: Seq<char>|
            base_name(path) == #[trigger] (hash + seq!['-'] + name) && byte_len(hash) == 32;
        let n = hash.len() as int;
        assert(base.take(n) =~= hash);
        assert(dash_at(base, n));
        let k = choose|k: int| dash_at(base, k);
        lemma_dash_unique(base, k, n);
        assert(base.skip(n + 1) =~= name);
    }
}

/// The path from one directory to another goes up as often as there are components behind
/// what they share, and then down. It does not go up further than needed.
pub proof fn law_relative_path(common: Seq<Seq<u8>>, target: Seq<Seq<u8>>, base: Seq<Seq<u8>>)
    requires
        target.len() > 0 && base.len() > 0 ==> target[0] != base[0],
    ensures
        ({
            let path = relative(common + target, common + base);
            &&& path.len() == base.len() + target.len()
            &&& forall|i: int| 0 <= i < base.len() ==> #[trigger] path[i] == seq!['.' as u8, '.' as u8]
            &&& path.skip(base.len() as int) == target
        }),
{
    lemma_shared_front(common, target, base);
    let path = relative(common + target, common + base);
    let k = common.len() as int;
    assert((common + target).skip(k) =~= target);
    assert(path.skip(base.len() as int) =~= target);
    assert(seq!['.' as u8, '.' as u8] =~= crate::store::parent_dir());
}

proof fn lemma_shared_front(common: Seq<Seq<u8>>, target: Seq<Seq<u8>>, base: Seq<Seq<u8>>)
    requires
        target.len() > 0 && base.len() > 0 ==> target[0] != base[0],
    ensures
        shared(common + target, common + base) == common.len(),
    decreases common.len(),
{
    if common.len() == 0 {
        assert(common + target =~= target);
        assert(common + base =~= base);
    } else {
        let rest = common.drop_first();
        lemma_shared_front(rest, target, base);
        assert((common + target).drop_first() =~= rest + target);
        assert((common + base).drop_first() =~= rest + base);
    }
}

} // verus!
