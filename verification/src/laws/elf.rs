//! Kinds of files by what they begin with, and the order of paths.
use vstd::prelude::*;
use vstd::utf8::encode_utf8;

use crate::elf::{elf_magic, elf_parse, file_needed, file_soname, is_wrapper, probe, script_magic};
use crate::places::{bytes_le, path_le};
use crate::text::has_infix;

verus! {

/// An ELF file begins with `7f 45 4c 46`, and a script with `#!`.
pub proof fn law_magic(head: Seq<u8>)
    ensures
        elf_magic().is_prefix_of(head) <==> head.len() >= 4 && head[0] == 0x7f && head[1] == 0x45
            && head[2] == 0x4c && head[3] == 0x46,
        script_magic().is_prefix_of(head) <==> head.len() >= 2 && head[0] == 0x23 && head[1] == 0x21,
{
    if head.len() >= 4 {
        let h = head.subrange(0, 4);
        assert(h[0] == head[0] && h[1] == head[1] && h[2] == head[2] && h[3] == head[3]);
        if head[0] == 0x7f && head[1] == 0x45 && head[2] == 0x4c && head[3] == 0x46 {
            assert(h =~= elf_magic());
        }
    }
    if head.len() >= 2 {
        let h = head.subrange(0, 2);
        assert(h[0] == head[0] && h[1] == head[1]);
        if head[0] == 0x23 && head[1] == 0x21 {
            assert(h =~= script_magic());
        }
    }
}

/// A text has no null byte among its first 8192 bytes.
pub proof fn law_text_probe(head: Seq<u8>)
    ensures
        !probe(head).contains(0u8) <==> forall|i: int|
            0 <= i < head.len() && i < 8192 ==> #[trigger] head[i] != 0u8,
{
    let p = probe(head);
    if !p.contains(0u8) {
        assert forall|i: int| 0 <= i < head.len() && i < 8192 implies #[trigger] head[i] != 0u8 by {
            assert(p[i] == head[i]);
        }
    }
    if p.contains(0u8) {
        let i = p.index_of(0u8);
        assert(head[i] == 0u8);
    }
}

/// The SONAME and the needed libraries of a file are those that are read from it, where it
/// is an ELF file.
pub proof fn law_soname_and_needed(data: Seq<u8>)
    ensures
        elf_magic().is_prefix_of(data) && elf_parse(data) is Some ==> file_soname(data)
            == elf_parse(data)->Some_0.0 && file_needed(data) == elf_parse(data)->Some_0.1,
        !(elf_magic().is_prefix_of(data) && elf_parse(data) is Some) ==> file_soname(data) is None
            && file_needed(data).len() == 0,
{
}

/// A compiled wrapper is an ELF file with two marks.
pub proof fn law_wrapper_marks(data: Seq<u8>)
    ensures
        is_wrapper(data) <==> elf_magic().is_prefix_of(data) && has_infix(
            data,
            encode_utf8("makeCWrapper"@),
        ) && has_infix(data, encode_utf8("set_env_prefix"@)),
{
}

/// Bytes are ordered by the first that differ. Where there is none, the shorter come first.
pub proof fn law_bytes_order(a: Seq<u8>, b: Seq<u8>)
    ensures
        bytes_le(a, b) <==> a.is_prefix_of(b) || exists|k: int|
            0 <= k < a.len() && k < b.len() && #[trigger] a[k] < b[k] && a.take(k) == b.take(k),
    decreases a.len(),
{
    if a.len() == 0 {
        assert(b.subrange(0, 0) =~= a);
    } else if b.len() > 0 && a[0] != b[0] {
        if a[0] < b[0] {
            assert(a.take(0) =~= b.take(0));
        } else {
            if a.is_prefix_of(b) {
                assert(b.subrange(0, a.len() as int)[0] == b[0]);
            }
            assert forall|k: int|
                0 <= k < a.len() && k < b.len() && #[trigger] a[k] < b[k] implies a.take(k)
                != b.take(k) by {
                if k > 0 {
                    assert(a.take(k)[0] == a[0]);
                    assert(b.take(k)[0] == b[0]);
                }
            }
        }
    } else if b.len() > 0 {
        let a1 = a.drop_first();
        let b1 = b.drop_first();
        law_bytes_order(a1, b1);
        if a1.is_prefix_of(b1) {
            assert(b.subrange(0, a.len() as int) =~= a) by {
                assert forall|i: int| 0 <= i < a.len() implies b[i] == a[i] by {
                    if i > 0 {
                        assert(b1.subrange(0, a1.len() as int)[i - 1] == a1[i - 1]);
                    }
                }
            }
        }
        if a.is_prefix_of(b) {
            assert(b1.subrange(0, a1.len() as int) =~= a1) by {
                assert forall|i: int| 0 <= i < a1.len() implies b1[i] == a1[i] by {
                    assert(b.subrange(0, a.len() as int)[i + 1] == a[i + 1]);
                }
            }
        }
        if exists|k: int|
            0 <= k < a1.len() && k < b1.len() && #[trigger] a1[k] < b1[k] && a1.take(k) == b1.take(
                k,
            ) {
            let k = choose|k: int|
                0 <= k < a1.len() && k < b1.len() && #[trigger] a1[k] < b1[k] && a1.take(k)
                    == b1.take(k);
            assert(a[k + 1] < b[k + 1]);
            assert(a.take(k + 1) =~= b.take(k + 1)) by {
                assert forall|i: int| 0 <= i < k + 1 implies a[i] == b[i] by {
                    if i > 0 {
                        assert(a1.take(k)[i - 1] == b1.take(k)[i - 1]);
                    }
                }
            }
        }
        if exists|k: int|
            0 <= k < a.len() && k < b.len() && #[trigger] a[k] < b[k] && a.take(k) == b.take(k) {
            let k = choose|k: int|
                0 <= k < a.len() && k < b.len() && #[trigger] a[k] < b[k] && a.take(k) == b.take(k);
            assert(a1[k - 1] < b1[k - 1]);
            assert(a1.take(k - 1) =~= b1.take(k - 1)) by {
                assert forall|i: int| 0 <= i < k - 1 implies a1[i] == b1[i] by {
                    assert(a.take(k)[i + 1] == b.take(k)[i + 1]);
                }
            }
        }
    }
}

/// Paths are ordered by the first components that differ. Where there is none, the shorter
/// come first.
pub proof fn law_path_order(
    common: Seq<Seq<u8>>,
    a: Seq<Seq<u8>>,
    b: Seq<Seq<u8>>,
)
    ensures
        a.len() == 0 ==> path_le(common + a, common + b),
        a.len() > 0 && b.len() == 0 ==> !path_le(common + a, common + b),
        a.len() > 0 && b.len() > 0 && a[0] != b[0] ==> (path_le(common + a, common + b)
            <==> bytes_le(a[0], b[0])),
    decreases common.len(),
{
    if common.len() == 0 {
        assert(common + a =~= a);
        assert(common + b =~= b);
    } else {
        let rest = common.drop_first();
        law_path_order(rest, a, b);
        assert((common + a).drop_first() =~= rest + a);
        assert((common + b).drop_first() =~= rest + b);
    }
}

} // verus!
