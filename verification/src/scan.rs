//! Finding references to dropped store paths in the files that are kept.
use vstd::prelude::*;
use vstd::utf8::encode_utf8;

use crate::bytes::bytes_at;
use crate::orphans::{drop_paths, drop_views, DropEntry};
use crate::rewrites::{rewrite_views, Rewrite, RewriteKind, RewriteView};
use crate::store::{hash_of, store_path_hash};
use crate::table::{NameSet, Table};
use crate::text::{glue, occurs_at};

verus! {

// ---------------------------------------------------------------------------
// Model
// ---------------------------------------------------------------------------

/// How many bytes the hash of a store path has.
pub const HASH_LEN: usize = 32;

/// What stands before the hash in a store path.
pub open spec fn marker() -> Seq<u8> {
    encode_utf8("/nix/store/"@)
}

/// A mention of a store path: the file that holds it, and the bytes of its hash.
pub struct Mention {
    pub file: Seq<char>,
    pub hash: Seq<u8>,
}

/// The mentions of store paths in the content of a file from a position on.
pub open spec fn mentions_from(file: Seq<char>, content: Seq<u8>, p: int) -> Seq<Mention>
    decreases content.len() - p,
{
    let start = p + marker().len();
    let end = start + HASH_LEN;
    if p < 0 || end > content.len() {
        seq![]
    } else if occurs_at(content, marker(), p) {
        seq![Mention { file, hash: content.subrange(start, end) }] + mentions_from(
            file,
            content,
            p + 1,
        )
    } else {
        mentions_from(file, content, p + 1)
    }
}

/// The mentions of store paths in the content of a file.
pub open spec fn mentions_in(file: Seq<char>, content: Seq<u8>) -> Seq<Mention> {
    mentions_from(file, content, 0)
}

/// The dropped store paths by their hashes. Of two with one hash the last counts.
pub open spec fn by_hash(paths: Seq<Seq<char>>) -> Map<Seq<u8>, Seq<char>>
    decreases paths.len(),
{
    if paths.len() == 0 {
        Map::empty()
    } else {
        by_hash(paths.drop_last()).insert(encode_utf8(hash_of(paths.last())), paths.last())
    }
}

/// Some mention is of that hash.
pub open spec fn mentioned(list: Seq<Mention>, hash: Seq<u8>) -> bool {
    exists|i: int| 0 <= i < list.len() && (#[trigger] list[i]).hash == hash
}

/// The rewrite of a dropped store path that a file mentions.
pub open spec fn reference_rewrite(path: Seq<char>, file: Seq<char>) -> RewriteView {
    RewriteView {
        from: path,
        to: "/app"@ + path,
        kind: RewriteKind::StorePathReference,
        referenced_by: Some(file),
    }
}

/// The rewrites for mentions: one for each dropped store path that is mentioned,
/// at its first mention.
pub open spec fn reference_rewrites(
    dropped: Map<Seq<u8>, Seq<char>>,
    list: Seq<Mention>,
) -> Seq<RewriteView>
    decreases list.len(),
{
    if list.len() == 0 {
        seq![]
    } else {
        let before = reference_rewrites(dropped, list.drop_last());
        let last = list.last();
        if dropped.contains_key(last.hash) && !mentioned(list.drop_last(), last.hash) {
            before.push(reference_rewrite(dropped[last.hash], last.file))
        } else {
            before
        }
    }
}

/// Bytes as a text, one character for each byte.
pub open spec fn byte_text(s: Seq<u8>) -> Seq<char> {
    s.map_values(|b: u8| b as char)
}

// ---------------------------------------------------------------------------
// Laws
// ---------------------------------------------------------------------------

/// The store paths by their hashes: each stands under its own hash, and each
/// hash of a store path is there.
pub proof fn law_by_hash(paths: Seq<Seq<char>>)
    ensures
        forall|h: Seq<u8>| #[trigger]
            by_hash(paths).contains_key(h) ==> paths.contains(by_hash(paths)[h]) && encode_utf8(
                hash_of(by_hash(paths)[h]),
            ) == h,
        forall|i: int|
            0 <= i < paths.len() ==> by_hash(paths).contains_key(
                encode_utf8(hash_of(#[trigger] paths[i])),
            ),
    decreases paths.len(),
{
    if paths.len() > 0 {
        let rest = paths.drop_last();
        law_by_hash(rest);
        assert forall|h: Seq<u8>| #[trigger] by_hash(paths).contains_key(h) implies paths.contains(
            by_hash(paths)[h],
        ) && encode_utf8(hash_of(by_hash(paths)[h])) == h by {
            if h == encode_utf8(hash_of(paths.last())) {
                assert(paths[paths.len() - 1] == by_hash(paths)[h]);
            } else {
                assert(by_hash(rest).contains_key(h));
                let k = rest.index_of(by_hash(rest)[h]);
                assert(paths[k] == by_hash(rest)[h]);
            }
        }
        assert forall|i: int| 0 <= i < paths.len() implies by_hash(paths).contains_key(
            encode_utf8(hash_of(#[trigger] paths[i])),
        ) by {
            if i < rest.len() {
                assert(rest[i] == paths[i]);
            }
        }
    }
}

/// Each rewrite is of a dropped store path that is mentioned, puts `/app` before
/// it, and names a file that mentions it.
pub proof fn law_rewrites_are_of_mentioned_paths(
    dropped: Map<Seq<u8>, Seq<char>>,
    list: Seq<Mention>,
    i: int,
)
    requires
        0 <= i < reference_rewrites(dropped, list).len(),
    ensures
        exists|k: int|
            0 <= k < list.len() && dropped.contains_key((#[trigger] list[k]).hash)
                && reference_rewrites(dropped, list)[i] == reference_rewrite(
                dropped[list[k].hash],
                list[k].file,
            ) && !mentioned(list.take(k), list[k].hash),
    decreases list.len(),
{
    if list.len() > 0 {
        let rest = list.drop_last();
        let before = reference_rewrites(dropped, rest);
        if i < before.len() {
            law_rewrites_are_of_mentioned_paths(dropped, rest, i);
            let k = choose|k: int|
                0 <= k < rest.len() && dropped.contains_key((#[trigger] rest[k]).hash)
                    && before[i] == reference_rewrite(dropped[rest[k].hash], rest[k].file)
                    && !mentioned(rest.take(k), rest[k].hash);
            assert(list[k] == rest[k]);
            assert(list.take(k) =~= rest.take(k));
        } else {
            let k = list.len() - 1;
            assert(list[k] == list.last());
            assert(list.take(k) =~= rest);
        }
    }
}

/// Each dropped store path that is mentioned has a rewrite.
pub proof fn law_mentioned_paths_are_rewritten(
    dropped: Map<Seq<u8>, Seq<char>>,
    list: Seq<Mention>,
    k: int,
)
    requires
        0 <= k < list.len(),
        dropped.contains_key(list[k].hash),
    ensures
        exists|i: int|
            0 <= i < reference_rewrites(dropped, list).len() && (#[trigger] reference_rewrites(
                dropped,
                list,
            )[i]).from == dropped[list[k].hash],
    decreases list.len(),
{
    let rest = list.drop_last();
    let before = reference_rewrites(dropped, rest);
    let all = reference_rewrites(dropped, list);
    if k < rest.len() {
        law_mentioned_paths_are_rewritten(dropped, rest, k);
        let i = choose|i: int|
            0 <= i < before.len() && (#[trigger] before[i]).from == dropped[rest[k].hash];
        assert(all[i] == before[i]);
    } else if mentioned(rest, list.last().hash) {
        let j = choose|j: int|
            0 <= j < rest.len() && (#[trigger] rest[j]).hash == list.last().hash;
        law_mentioned_paths_are_rewritten(dropped, rest, j);
        let i = choose|i: int|
            0 <= i < before.len() && (#[trigger] before[i]).from == dropped[rest[j].hash];
        assert(all[i] == before[i]);
    } else {
        assert(all[before.len() as int].from == dropped[list[k].hash]);
    }
}

/// No store path is rewritten twice.
pub proof fn law_paths_are_rewritten_once(paths: Seq<Seq<char>>, list: Seq<Mention>, i: int, j: int)
    requires
        0 <= i < j < reference_rewrites(by_hash(paths), list).len(),
    ensures
        reference_rewrites(by_hash(paths), list)[i].from != reference_rewrites(
            by_hash(paths),
            list,
        )[j].from,
    decreases list.len(),
{
    let dropped = by_hash(paths);
    let rest = list.drop_last();
    let before = reference_rewrites(dropped, rest);
    if j < before.len() {
        law_paths_are_rewritten_once(paths, rest, i, j);
    } else {
        law_rewrites_are_of_mentioned_paths(dropped, rest, i);
        law_by_hash(paths);
        let k = choose|k: int|
            0 <= k < rest.len() && dropped.contains_key((#[trigger] rest[k]).hash) && before[i]
                == reference_rewrite(dropped[rest[k].hash], rest[k].file) && !mentioned(
                rest.take(k),
                rest[k].hash,
            );
        assert(mentioned(rest, rest[k].hash));
        assert(dropped.contains_key(list.last().hash));
    }
}

// ---------------------------------------------------------------------------
// Scanning
// ---------------------------------------------------------------------------

proof fn lemma_byte_text(a: Seq<u8>, b: Seq<u8>)
    ensures
        byte_text(a) == byte_text(b) ==> a == b,
{
    if byte_text(a) == byte_text(b) {
        assert(a.len() == byte_text(a).len() && b.len() == byte_text(b).len());
        assert forall|i: int| 0 <= i < a.len() implies a[i] == b[i] by {
            assert(byte_text(a)[i] == byte_text(b)[i]);
            assert(a[i] as char == b[i] as char);
        }
        assert(a =~= b);
    }
}

/// A range of bytes as a text, one character for each byte.
fn text_of_bytes(s: &[u8], start: usize, end: usize) -> (r: String)
    requires
        start <= end <= s@.len(),
    ensures
        r@ == byte_text(s@.subrange(start as int, end as int)),
{
    let mut r: String = String::new();
    let mut i: usize = start;
    proof {
        assert(r@ =~= byte_text(s@.subrange(start as int, start as int)));
    }
    while i < end
        invariant
            start <= i <= end <= s@.len(),
            r@ == byte_text(s@.subrange(start as int, i as int)),
        decreases end - i,
    {
        r.push(s[i] as char);
        proof {
            assert(s@.subrange(start as int, i as int + 1) =~= s@.subrange(
                start as int,
                i as int,
            ).push(s@[i as int]));
            assert(r@ =~= byte_text(s@.subrange(start as int, i as int + 1)));
        }
        i += 1;
    }
    r
}

/// Scan kept files for references to dropped store path hashes.
///
/// Each file is scanned once for the `/nix/store/` marker, and the 32 bytes that
/// follow are looked up among the hashes of the dropped store paths.
pub struct Scanner {
    paths: Table<String>,
    found: NameSet,
    rewrites: Vec<Rewrite>,
    mentions: Ghost<Seq<Mention>>,
}

impl Scanner {
    /// The dropped store paths by their hashes.
    pub closed spec fn dropped(&self) -> Map<Seq<u8>, Seq<char>> {
        Map::new(
            |h: Seq<u8>| self.paths.has(byte_text(h)),
            |h: Seq<u8>| self.paths.at(byte_text(h))@,
        )
    }

    /// The mentions in the files that were scanned.
    pub closed spec fn mentions(&self) -> Seq<Mention> {
        self.mentions@
    }

    /// What was found is what the files mention.
    pub closed spec fn wf(&self) -> bool {
        &&& self.paths.wf()
        &&& rewrite_views(self.rewrites@) == reference_rewrites(self.dropped(), self.mentions())
        &&& forall|h: Seq<u8>| #[trigger]
            self.found@.contains(byte_text(h)) <==> self.dropped().contains_key(h) && mentioned(
                self.mentions(),
                h,
            )
    }

    /// A scanner for references to the given store paths.
    pub fn new(dropped: &Vec<DropEntry>) -> (r: Scanner)
        ensures
            r.wf(),
            r.dropped() == by_hash(drop_paths(drop_views(dropped@))),
            r.mentions() == Seq::<Mention>::empty(),
    {
        let ghost all = drop_paths(drop_views(dropped@));
        let mut paths: Table<String> = Table::new();
        let mut i: usize = 0;
        while i < dropped.len()
            invariant
                i <= dropped@.len(),
                all == drop_paths(drop_views(dropped@)),
                paths.wf(),
                forall|h: Seq<u8>| #[trigger]
                    paths.has(byte_text(h)) <==> by_hash(all.take(i as int)).contains_key(h),
                forall|h: Seq<u8>|
                    paths.has(byte_text(h)) ==> (#[trigger] paths.at(byte_text(h)))@ == by_hash(
                        all.take(i as int),
                    )[h],
            decreases dropped@.len() - i,
        {
            let path: String = dropped[i].store_path.clone();
            let hash: &[u8] = store_path_hash(&path).as_bytes();
            let key: String = text_of_bytes(hash, 0, hash.len());
            let ghost h0 = encode_utf8(hash_of(path@));
            let ghost before = paths;
            proof {
                assert(hash@.subrange(0, hash@.len() as int) =~= hash@);
                assert(all[i as int] == path@);
                assert(all.take(i as int + 1).drop_last() =~= all.take(i as int));
            }
            paths.insert(key, path);
            proof {
                assert forall|h: Seq<u8>| #[trigger]
                    paths.has(byte_text(h)) <==> by_hash(all.take(i as int + 1)).contains_key(h) by {
                    lemma_byte_text(h, h0);
                    assert(before.has(byte_text(h)) <==> by_hash(all.take(i as int)).contains_key(
                        h,
                    ));
                }
                assert forall|h: Seq<u8>| paths.has(byte_text(h)) implies (#[trigger] paths.at(
                    byte_text(h),
                ))@ == by_hash(all.take(i as int + 1))[h] by {
                    lemma_byte_text(h, h0);
                    if h != h0 {
                        assert(before.has(byte_text(h)));
                        assert(paths.at(byte_text(h)) == before.at(byte_text(h)));
                    }
                }
            }
            i += 1;
        }
        let r: Scanner = Scanner {
            paths,
            found: NameSet::new(),
            rewrites: Vec::new(),
            mentions: Ghost(Seq::empty()),
        };
        proof {
            assert(all.take(i as int) =~= all);
            assert(r.dropped() =~= by_hash(all));
            assert(rewrite_views(r.rewrites@) =~= reference_rewrites(r.dropped(), r.mentions()));
        }
        r
    }

    /// Scans a file.
    pub fn scan_file(&mut self, file: &str, content: &[u8])
        requires
            old(self).wf(),
        ensures
            final(self).wf(),
            final(self).dropped() == old(self).dropped(),
            final(self).mentions() == old(self).mentions() + mentions_in(file@, content@),
    {
        let mark: &[u8] = "/nix/store/".as_bytes();
        let n: usize = content.len();
        let m: usize = mark.len();
        if n < m || n - m < HASH_LEN {
            proof {
                assert(self.mentions() + mentions_in(file@, content@) =~= self.mentions());
            }
            return;
        }
        let last: usize = n - m - HASH_LEN;
        let ghost before = self.mentions();
        let ghost goal = before + mentions_in(file@, content@);
        let ghost table = self.dropped();
        let mut p: usize = 0;
        while p <= last
            invariant
                p <= last + 1,
                n == content@.len(),
                mark@ == marker(),
                m == mark@.len(),
                last == n - m - HASH_LEN,
                self.wf(),
                self.dropped() == table,
                self.mentions() + mentions_from(file@, content@, p as int) == goal,
            decreases last + 1 - p,
        {
            if bytes_at(content, mark, p) {
                let start: usize = p + m;
                let end: usize = start + HASH_LEN;
                let key: String = text_of_bytes(content, start, end);
                let ghost hash = content@.subrange(start as int, end as int);
                let ghost mention = Mention { file: file@, hash };
                let ghost list = self.mentions();
                let ghost rewrites0 = self.rewrites@;
                let ghost found0 = self.found@;
                proof {
                    assert(list.push(mention).drop_last() =~= list);
                    assert(table.contains_key(hash) <==> self.paths.has(byte_text(hash)));
                    assert(found0.contains(byte_text(hash)) <==> table.contains_key(hash)
                        && mentioned(list, hash));
                }
                if !self.found.contains(&key) {
                    match self.paths.get(&key) {
                        Some(path) => {
                            let rewrite: Rewrite = Rewrite {
                                from: path.clone(),
                                to: glue("/app", path),
                                kind: RewriteKind::StorePathReference,
                                referenced_by: Some(file.to_owned()),
                            };
                            self.found.insert(key);
                            proof {
                                assert(rewrite_views(rewrites0.push(rewrite)) =~= rewrite_views(
                                    rewrites0,
                                ).push(rewrite@));
                            }
                            self.rewrites.push(rewrite);
                        },
                        None => {},
                    }
                }
                self.mentions = Ghost(self.mentions@.push(mention));
                proof {
                    assert(self.dropped() =~= table);
                    assert forall|h: Seq<u8>| #[trigger]
                        mentioned(list.push(mention), h) <==> mentioned(list, h) || h == hash by {
                        let more = list.push(mention);
                        if mentioned(list, h) {
                            let k = choose|k: int|
                                0 <= k < list.len() && (#[trigger] list[k]).hash == h;
                            assert(more[k].hash == h);
                        }
                        assert(more[list.len() as int].hash == hash);
                        if mentioned(more, h) {
                            let k = choose|k: int|
                                0 <= k < more.len() && (#[trigger] more[k]).hash == h;
                            if k < list.len() {
                                assert(list[k].hash == h);
                            }
                        }
                    }
                    assert forall|h: Seq<u8>| #[trigger]
                        self.found@.contains(byte_text(h)) <==> table.contains_key(h) && mentioned(
                            list.push(mention),
                            h,
                        ) by {
                        lemma_byte_text(h, hash);
                        assert(found0.contains(byte_text(h)) <==> table.contains_key(h)
                            && mentioned(list, h));
                    }
                    assert(rewrite_views(self.rewrites@) == reference_rewrites(
                        table,
                        list.push(mention),
                    ));
                    assert(list.push(mention) + mentions_from(file@, content@, p as int + 1)
                        =~= list + mentions_from(file@, content@, p as int));
                }
            }
            p += 1;
        }
        proof {
            assert(self.mentions() + mentions_from(file@, content@, p as int)
                =~= self.mentions());
        }
    }

    /// The rewrites for what was found.
    pub fn finish(self) -> (r: Vec<Rewrite>)
        requires
            self.wf(),
        ensures
            rewrite_views(r@) == reference_rewrites(self.dropped(), self.mentions()),
    {
        self.rewrites
    }
}

} // verus!
