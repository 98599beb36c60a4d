//! References to dropped store paths.
use vstd::prelude::*;
use vstd::utf8::encode_utf8;

use crate::rewrites::{RewriteKind, RewriteView};
use crate::scan::{by_hash, mentioned, mentions_from, mentions_in, reference_rewrites, Mention};
use crate::store::hash_of;
use crate::text::occurs_at;

verus! {

/// The path of the store stands at a position, with 32 bytes behind it.
pub open spec fn mention_at(content: Seq<u8>, p: int) -> bool {
    let n = encode_utf8("/nix/store/"@).len();
    &&& 0 <= p
    &&& p + n + 32 <= content.len()
    &&& content.subrange(p, p + n) == encode_utf8("/nix/store/"@)
}

/// `at` holds the places of all mentions, in order.
pub open spec fn mentions_at(at: Seq<int>, content: Seq<u8>) -> bool {
    &&& forall|a: int, b: int| 0 <= a < b < at.len() ==> #[trigger] at[a] < #[trigger] at[b]
    &&& forall|p: int|
        #![trigger at.contains(p)]
        #![trigger mention_at(content, p)]
        at.contains(p) <==> mention_at(content, p)
}

/// A file mentions what stands behind each path of the store in it: the next 32 bytes.
pub proof fn law_mentions(file: Seq<char>, content: Seq<u8>)
    ensures
        exists|at: Seq<int>| #[trigger]
            mentions_at(at, content) && mentions_in(file, content) == at.map_values(
                |p: int|
                    Mention {
                        file,
                        hash: content.subrange(
                            p + encode_utf8("/nix/store/"@).len(),
                            p + encode_utf8("/nix/store/"@).len() + 32,
                        ),
                    },
            ),
{
    let at = lemma_mentions(file, content, 0);
    assert forall|p: int|
        #![trigger at.contains(p)]
        #![trigger mention_at(content, p)]
        at.contains(p) <==> mention_at(content, p) by {}
    assert(mentions_at(at, content));
    assert(mentions_in(file, content) =~= at.map_values(
        |p: int|
            Mention {
                file,
                hash: content.subrange(
                    p + encode_utf8("/nix/store/"@).len(),
                    p + encode_utf8("/nix/store/"@).len() + 32,
                ),
            },
    ));
}

proof fn lemma_mentions(file: Seq<char>, content: Seq<u8>, p: int) -> (at: Seq<int>)
    requires
        0 <= p,
    ensures
        at.len() == mentions_from(file, content, p).len(),
        forall|a: int, b: int| 0 <= a < b < at.len() ==> #[trigger] at[a] < #[trigger] at[b],
        forall|q: int|
            #![trigger at.contains(q)]
            #![trigger mention_at(content, q)]
            at.contains(q) <==> p <= q && mention_at(content, q),
        forall|k: int|
            #![trigger at[k]]
            0 <= k < at.len() ==> {
                let start = at[k] + encode_utf8("/nix/store/"@).len();
                mentions_from(file, content, p)[k] == (Mention {
                    file,
                    hash: content.subrange(start, start + 32),
                })
            },
    decreases content.len() - p,
{
    let n = encode_utf8("/nix/store/"@).len();
    if p + n + 32 > content.len() {
        Seq::empty()
    } else {
        let rest = lemma_mentions(file, content, p + 1);
        if occurs_at(content, encode_utf8("/nix/store/"@), p) {
            let at = seq![p] + rest;
            assert(mention_at(content, p));
            assert forall|q: int|
                #![trigger at.contains(q)]
                #![trigger mention_at(content, q)]
                at.contains(q) <==> p <= q && mention_at(content, q) by {
                if at.contains(q) {
                    let k = at.index_of(q);
                    if k > 0 {
                        assert(rest[k - 1] == q);
                        assert(rest.contains(q));
                    }
                }
                if p <= q && mention_at(content, q) {
                    if q == p {
                        assert(at[0] == q);
                    } else {
                        assert(rest.contains(q));
                        assert(at[rest.index_of(q) + 1] == q);
                    }
                }
            }
            assert forall|a: int, b: int| 0 <= a < b < at.len() implies #[trigger] at[a]
                < #[trigger] at[b] by {
                assert(rest.contains(rest[b - 1]));
                if a > 0 {
                    assert(rest[a - 1] < rest[b - 1]);
                }
            }
            assert forall|k: int|
                #![trigger at[k]]
                0 <= k < at.len() implies {
                let start = at[k] + encode_utf8("/nix/store/"@).len();
                mentions_from(file, content, p)[k] == (Mention {
                    file,
                    hash: content.subrange(start, start + 32),
                })
            } by {
                if k > 0 {
                    assert(rest[k - 1] == at[k]);
                    assert(mentions_from(file, content, p)[k] == mentions_from(
                        file,
                        content,
                        p + 1,
                    )[k - 1]);
                }
            }
            at
        } else {
            assert(!mention_at(content, p));
            rest
        }
    }
}

/// The first mention of a dropped store path.
pub open spec fn first_mention(
    dropped: Map<Seq<u8>, Seq<char>>,
    list: Seq<Mention>,
    k: int,
) -> bool {
    &&& 0 <= k < list.len()
    &&& dropped.contains_key(list[k].hash)
    &&& forall|j: int| 0 <= j < k ==> (#[trigger] list[j]).hash != list[k].hash
}

/// `at` holds the places of the first mentions, in order.
pub open spec fn first_mentions(
    at: Seq<int>,
    dropped: Map<Seq<u8>, Seq<char>>,
    list: Seq<Mention>,
) -> bool {
    &&& forall|a: int, b: int| 0 <= a < b < at.len() ==> #[trigger] at[a] < #[trigger] at[b]
    &&& forall|k: int| #[trigger] at.contains(k) <==> first_mention(dropped, list, k)
}

/// Each dropped store path that is mentioned is rewritten to the same path below `/app`,
/// in the order of the first mentions. A rewrite names the file of the first mention.
pub proof fn law_rewrites_of_references(dropped: Map<Seq<u8>, Seq<char>>, list: Seq<Mention>)
    ensures
        exists|at: Seq<int>| #[trigger]
            first_mentions(at, dropped, list) && reference_rewrites(dropped, list) == at.map_values(
                |k: int|
                    RewriteView {
                        from: dropped[list[k].hash],
                        to: "/app"@ + dropped[list[k].hash],
                        kind: RewriteKind::StorePathReference,
                        referenced_by: Some(list[k].file),
                    },
            ),
{
    let at = lemma_rewrites(dropped, list);
    assert(first_mentions(at, dropped, list));
    assert(reference_rewrites(dropped, list) =~= at.map_values(
        |k: int|
            RewriteView {
                from: dropped[list[k].hash],
                to: "/app"@ + dropped[list[k].hash],
                kind: RewriteKind::StorePathReference,
                referenced_by: Some(list[k].file),
            },
    ));
}

proof fn lemma_rewrites(dropped: Map<Seq<u8>, Seq<char>>, list: Seq<Mention>) -> (at: Seq<int>)
    ensures
        at.len() == reference_rewrites(dropped, list).len(),
        forall|a: int, b: int| 0 <= a < b < at.len() ==> #[trigger] at[a] < #[trigger] at[b],
        forall|k: int| #[trigger] at.contains(k) <==> first_mention(dropped, list, k),
        forall|i: int|
            #![trigger at[i]]
            0 <= i < at.len() ==> reference_rewrites(dropped, list)[i] == (RewriteView {
                from: dropped[list[at[i]].hash],
                to: "/app"@ + dropped[list[at[i]].hash],
                kind: RewriteKind::StorePathReference,
                referenced_by: Some(list[at[i]].file),
            }),
    decreases list.len(),
{
    if list.len() == 0 {
        Seq::empty()
    } else {
        let rest = list.drop_last();
        let n = list.len() - 1;
        let at0 = lemma_rewrites(dropped, rest);
        assert forall|k: int| 0 <= k < n implies first_mention(dropped, list, k) == first_mention(
            dropped,
            rest,
            k,
        ) by {
            assert(rest[k] == list[k]);
            if first_mention(dropped, list, k) {
                assert forall|j: int| 0 <= j < k implies (#[trigger] rest[j]).hash
                    != rest[k].hash by {
                    assert(list[j].hash != list[k].hash);
                }
            }
            if first_mention(dropped, rest, k) {
                assert forall|j: int| 0 <= j < k implies (#[trigger] list[j]).hash
                    != list[k].hash by {
                    assert(rest[j].hash != rest[k].hash);
                }
            }
        }
        assert(first_mention(dropped, list, n) <==> dropped.contains_key(list.last().hash)
            && !mentioned(rest, list.last().hash)) by {
            if first_mention(dropped, list, n) && mentioned(rest, list.last().hash) {
                let j = choose|j: int|
                    0 <= j < rest.len() && (#[trigger] rest[j]).hash == list.last().hash;
                assert(list[j].hash != list[n].hash);
            }
            if !mentioned(rest, list.last().hash) {
                assert forall|j: int| 0 <= j < n implies (#[trigger] list[j]).hash
                    != list[n].hash by {
                    assert(rest[j] == list[j]);
                }
            }
        }
        let at = if first_mention(dropped, list, n) {
            at0.push(n)
        } else {
            at0
        };
        assert forall|i: int| 0 <= i < at0.len() implies 0 <= #[trigger] at0[i] < n by {
            assert(at0.contains(at0[i]));
        }
        assert forall|k: int| #[trigger] at.contains(k) <==> first_mention(dropped, list, k) by {
            if at.contains(k) {
                let i = at.index_of(k);
                if i < at0.len() {
                    assert(at0[i] == k);
                    assert(at0.contains(k));
                }
            }
            if first_mention(dropped, list, k) {
                if k < n {
                    assert(at0.contains(k));
                    assert(at[at0.index_of(k)] == k);
                } else {
                    assert(at[at0.len() as int] == k);
                }
            }
        }
        assert forall|i: int|
            #![trigger at[i]]
            0 <= i < at.len() implies reference_rewrites(dropped, list)[i] == (RewriteView {
            from: dropped[list[at[i]].hash],
            to: "/app"@ + dropped[list[at[i]].hash],
            kind: RewriteKind::StorePathReference,
            referenced_by: Some(list[at[i]].file),
        }) by {
            if i < at0.len() {
                assert(at0[i] == at[i]);
                assert(rest[at[i]] == list[at[i]]);
                assert(reference_rewrites(dropped, list)[i] == reference_rewrites(dropped, rest)[i]);
            }
        }
        at
    }
}

/// Of the dropped store paths with one hash, the last counts.
pub proof fn law_last_path_with_a_hash(paths: Seq<Seq<char>>, i: int)
    requires
        0 <= i < paths.len(),
        forall|j: int| i < j < paths.len() ==> hash_of(#[trigger] paths[j]) != hash_of(paths[i]),
    ensures
        by_hash(paths).contains_key(encode_utf8(hash_of(paths[i]))),
        by_hash(paths)[encode_utf8(hash_of(paths[i]))] == paths[i],
    decreases paths.len(),
{
    let rest = paths.drop_last();
    if i < rest.len() {
        assert(rest[i] == paths[i]);
        assert(hash_of(paths[paths.len() - 1]) != hash_of(paths[i]));
        vstd::utf8::encode_utf8_decode_utf8(hash_of(paths[i]));
        vstd::utf8::encode_utf8_decode_utf8(hash_of(paths[paths.len() - 1]));
        assert forall|j: int| i < j < rest.len() implies hash_of(#[trigger] rest[j]) != hash_of(
            rest[i],
        ) by {
            assert(rest[j] == paths[j]);
        }
        law_last_path_with_a_hash(rest, i);
    }
}

} // verus!
