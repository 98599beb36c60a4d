//! Telling files apart by their first bytes, and reading ELF files.
use goblin::elf::Elf;
use vstd::prelude::*;
use vstd::utf8::encode_utf8;

use crate::bytes::{bytes_contain, bytes_start_with};
use crate::text::{copy_strings, has_infix, opt_view, views};

verus! {

/// The first bytes of an ELF file.
pub open spec fn elf_magic() -> Seq<u8> {
    seq![0x7fu8, 0x45u8, 0x4cu8, 0x46u8]
}

/// The first bytes of a script: `#!`.
pub open spec fn script_magic() -> Seq<u8> {
    seq![0x23u8, 0x21u8]
}

/// How many bytes of a file decide whether it is text.
pub const TEXT_PROBE: usize = 8192;

/// The bytes that are looked at to decide whether a file is text.
pub open spec fn probe(head: Seq<u8>) -> Seq<u8> {
    if head.len() > TEXT_PROBE {
        head.take(TEXT_PROBE as int)
    } else {
        head
    }
}

/// What is read from an ELF file.
pub struct ElfInfo {
    pub soname: Option<String>,
    pub libraries: Vec<String>,
}

/// The SONAME of an ELF file and the libraries that it needs, where it can be
/// read.
pub uninterp spec fn elf_parse(data: Seq<u8>) -> Option<(Option<Seq<char>>, Seq<Seq<char>>)>;

/// The SONAME and the libraries of what was read.
pub open spec fn info_view(info: Option<ElfInfo>) -> Option<(Option<Seq<char>>, Seq<Seq<char>>)> {
    match info {
        Some(i) => Some((opt_view(i.soname), views(i.libraries@))),
        None => None,
    }
}

/// The SONAME of what was read.
pub open spec fn soname_view(parsed: Option<(Option<Seq<char>>, Seq<Seq<char>>)>) -> Option<
    Seq<char>,
> {
    match parsed {
        Some(p) => p.0,
        None => None,
    }
}

/// The needed libraries of what was read.
pub open spec fn needed_view(parsed: Option<(Option<Seq<char>>, Seq<Seq<char>>)>) -> Seq<
    Seq<char>,
> {
    match parsed {
        Some(p) => p.1,
        None => seq![],
    }
}

/// The SONAME that a file carries.
pub open spec fn file_soname(data: Seq<u8>) -> Option<Seq<char>> {
    if elf_magic().is_prefix_of(data) {
        soname_view(elf_parse(data))
    } else {
        None
    }
}

/// The libraries that a file needs.
pub open spec fn file_needed(data: Seq<u8>) -> Seq<Seq<char>> {
    if elf_magic().is_prefix_of(data) {
        needed_view(elf_parse(data))
    } else {
        seq![]
    }
}

/// A stub that Nix compiled to wrap a program: an ELF file that holds the two
/// marks of its generator.
pub open spec fn is_wrapper(data: Seq<u8>) -> bool {
    &&& elf_magic().is_prefix_of(data)
    &&& has_infix(data, encode_utf8("makeCWrapper"@))
    &&& has_infix(data, encode_utf8("set_env_prefix"@))
}

/// No file is both an ELF file and a script.
pub proof fn law_elf_is_no_script(head: Seq<u8>)
    ensures
        !(elf_magic().is_prefix_of(head) && script_magic().is_prefix_of(head)),
{
    if elf_magic().is_prefix_of(head) && script_magic().is_prefix_of(head) {
        assert(elf_magic()[0] == head[0]);
        assert(script_magic()[0] == head[0]);
    }
}

/// Check if a file starts with the ELF magic bytes. `head` is what the file
/// begins with, at least four bytes where it has as many.
pub fn is_elf(head: &[u8]) -> (r: bool)
    ensures
        r == elf_magic().is_prefix_of(head@),
{
    let magic: [u8; 4] = [0x7f, 0x45, 0x4c, 0x46];
    proof {
        assert(magic@ =~= elf_magic());
    }
    bytes_start_with(head, &magic)
}

/// Check if a file starts with a `#!` shebang. `head` is what the file begins
/// with, at least two bytes where it has as many.
pub fn is_script(head: &[u8]) -> (r: bool)
    ensures
        r == script_magic().is_prefix_of(head@),
{
    let magic: [u8; 2] = [0x23, 0x21];
    proof {
        assert(magic@ =~= script_magic());
    }
    bytes_start_with(head, &magic)
}

/// Check if a file is a text file (no null bytes in first 8 KiB). `head` is what
/// was read of the start of the file.
pub fn is_text_file(head: &[u8]) -> (r: bool)
    ensures
        r == !probe(head@).contains(0u8),
{
    let n: usize = if head.len() > TEXT_PROBE {
        TEXT_PROBE
    } else {
        head.len()
    };
    let mut i: usize = 0;
    while i < n
        invariant
            i <= n <= head@.len(),
            n == probe(head@).len(),
            forall|k: int| 0 <= k < i ==> head@[k] != 0,
        decreases n - i,
    {
        if head[i] == 0 {
            proof {
                assert(probe(head@)[i as int] == 0);
            }
            return false;
        }
        i += 1;
    }
    true
}

/// What kind of file is rewritten in which way.
#[derive(Clone, Copy, PartialEq, Eq, Structural, Debug)]
pub enum FileKind {
    Elf,
    Text,
    Other,
}

/// What kind of file it is that begins with the given bytes.
pub fn file_kind(head: &[u8]) -> (r: FileKind)
    ensures
        r == (if elf_magic().is_prefix_of(head@) {
            FileKind::Elf
        } else if !probe(head@).contains(0u8) {
            FileKind::Text
        } else {
            FileKind::Other
        }),
{
    if is_elf(head) {
        FileKind::Elf
    } else if is_text_file(head) {
        FileKind::Text
    } else {
        FileKind::Other
    }
}

/// Trusted: `Elf::parse` of the goblin crate, of which the fields `soname` and
/// `libraries` are kept. The result depends on the bytes alone, and there is none
/// where parsing fails.
#[verifier::external_body]
fn parse_elf(data: &[u8]) -> (r: Option<ElfInfo>)
    ensures
        info_view(r) == elf_parse(data@),
{
    let elf = Elf::parse(data).ok()?;
    let soname = elf.soname.map(|s| s.to_string());
    let libraries = elf.libraries.iter().map(|s| s.to_string()).collect();
    Some(ElfInfo { soname, libraries })
}

/// The SONAME of what was read.
pub fn soname_of(info: &Option<ElfInfo>) -> (r: Option<String>)
    ensures
        opt_view(r) == soname_view(info_view(*info)),
{
    match info {
        Some(i) => i.soname.clone(),
        None => None,
    }
}

/// The needed libraries of what was read.
pub fn needed_of(info: &Option<ElfInfo>) -> (r: Vec<String>)
    ensures
        views(r@) == needed_view(info_view(*info)),
{
    match info {
        Some(i) => copy_strings(&i.libraries),
        None => {
            let r: Vec<String> = Vec::new();
            proof {
                assert(views(r@) =~= seq![]);
            }
            r
        },
    }
}

/// Extract the SONAME from already-loaded ELF bytes.
pub fn extract_soname_from_bytes(data: &[u8]) -> (r: Option<String>)
    ensures
        opt_view(r) == file_soname(data@),
{
    if !is_elf(data) {
        return None;
    }
    soname_of(&parse_elf(data))
}

/// Extract the SONAME from an ELF shared library, if present. `contents` is what
/// the file holds, if it could be read.
pub fn extract_soname(contents: Option<&[u8]>) -> (r: Option<String>)
    ensures
        opt_view(r) == match contents {
            Some(data) => file_soname(data@),
            None => None,
        },
{
    match contents {
        Some(data) => extract_soname_from_bytes(data),
        None => None,
    }
}

/// Extract all DT_NEEDED library names from an ELF binary.
pub fn extract_needed(data: &[u8]) -> (r: Vec<String>)
    ensures
        views(r@) == file_needed(data@),
{
    if !is_elf(data) {
        let r: Vec<String> = Vec::new();
        proof {
            assert(views(r@) =~= seq![]);
        }
        return r;
    }
    needed_of(&parse_elf(data))
}

/// Detect Nix's `makeCWrapper` ELF stubs by scanning for marker strings.
pub fn check_nix_compiled_wrapper(data: &[u8]) -> (r: bool)
    ensures
        r == is_wrapper(data@),
{
    is_elf(data) && bytes_contain(data, "makeCWrapper".as_bytes()) && bytes_contain(
        data,
        "set_env_prefix".as_bytes(),
    )
}

} // verus!
