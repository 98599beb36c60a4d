//! Rewriting of text files.
use vstd::prelude::*;
use vstd::utf8::encode_utf8;

use crate::order::{before, by_size, lemma_ranking, ranking};
use crate::pattern::{group_text, regex_replace_all};
use crate::text::{has_infix, line_list, replace};
use crate::text_files::{
    applied, clean_line, clean_lines, dropped_among, from_sizes, if_changed, lemma_by_size,
    longest_first, text_rewritten,
};

verus! {

/// Rewrites are applied one after the other, each to what the ones before it left.
pub proof fn law_rewrites_are_applied_in_turn(
    content: Seq<char>,
    a: Seq<(Seq<char>, Seq<char>)>,
    b: Seq<(Seq<char>, Seq<char>)>,
    from: Seq<char>,
    to: Seq<char>,
)
    ensures
        applied(content, Seq::empty()) == content,
        applied(content, seq![(from, to)]) == replace(content, from, to),
        applied(content, a + b) == applied(applied(content, a), b),
    decreases b.len(),
{
    let one = seq![(from, to)];
    assert(one.drop_last() =~= Seq::empty());
    assert(applied(content, one.drop_last()) == content);
    if b.len() == 0 {
        assert(a + b =~= a);
    } else {
        law_rewrites_are_applied_in_turn(content, a, b.drop_last(), from, to);
        assert((a + b).drop_last() =~= a + b.drop_last());
    }
}

/// A text that names no store path stays. In others the paths are rewritten, the longest
/// first.
pub proof fn law_text_rewritten(content: Seq<char>, pairs: Seq<(Seq<char>, Seq<char>)>)
    ensures
        !has_infix(content, "/nix/store/"@) ==> text_rewritten(content, pairs) == content,
        has_infix(content, "/nix/store/"@) ==> text_rewritten(content, pairs) == applied(
            content,
            longest_first(pairs),
        ),
{
}

/// `at` holds each place once, those of longer paths first, and those of paths of one
/// length in order.
pub open spec fn longest_first_at(at: Seq<int>, pairs: Seq<(Seq<char>, Seq<char>)>) -> bool {
    &&& at.len() == pairs.len()
    &&& forall|k: int| #[trigger] at.contains(k) <==> 0 <= k < pairs.len()
    &&& forall|i: int, j: int|
        #![trigger at[i], at[j]]
        0 <= i < j < at.len() ==> {
            let m = encode_utf8(pairs[at[i]].0).len();
            let n = encode_utf8(pairs[at[j]].0).len();
            m > n || (m == n && at[i] < at[j])
        }
}

/// The longest paths come first, and paths of one length stay in order.
pub proof fn law_longest_pairs_first(pairs: Seq<(Seq<char>, Seq<char>)>)
    ensures
        exists|at: Seq<int>| #[trigger]
            longest_first_at(at, pairs) && longest_first(pairs) == at.map_values(|k: int| pairs[k]),
{
    let sizes = from_sizes(pairs);
    let le = by_size(sizes);
    let at = ranking(le, pairs.len());
    lemma_by_size(sizes);
    lemma_ranking(le, pairs.len());
    assert forall|i: int, j: int| #![trigger at[i], at[j]] 0 <= i < j < at.len() implies {
        let m = encode_utf8(pairs[at[i]].0).len();
        let n = encode_utf8(pairs[at[j]].0).len();
        m > n || (m == n && at[i] < at[j])
    } by {
        assert(before(le, at[i], at[j]));
        assert(at.contains(at[i]) && at.contains(at[j]));
        assert(sizes[at[i]] == encode_utf8(pairs[at[i]].0).len());
        assert(sizes[at[j]] == encode_utf8(pairs[at[j]].0).len());
    }
    assert(longest_first_at(at, pairs));
    assert(longest_first(pairs) =~= at.map_values(|k: int| pairs[k]));
}

/// A text that does not change is not written.
pub proof fn law_if_changed(new: Seq<char>, old: Seq<char>)
    ensures
        new == old ==> if_changed(new, old) is None,
        new != old ==> if_changed(new, old) == Some(new),
{
}

/// The references that remain are the hashes of dropped store paths among those that are
/// found, in order.
pub proof fn law_remaining_references(
    matches: Seq<Seq<Option<Seq<char>>>>,
    drop_hashes: Set<Seq<char>>,
)
    ensures
        dropped_among(matches, drop_hashes) == matches.map_values(
            |groups: Seq<Option<Seq<char>>>| group_text(groups, 1),
        ).filter(|hash: Seq<char>| drop_hashes.contains(hash)),
    decreases matches.len(),
{
    reveal(Seq::filter);
    let hash_of = |groups: Seq<Option<Seq<char>>>| group_text(groups, 1);
    let is_dropped = |hash: Seq<char>| drop_hashes.contains(hash);
    let all = matches.map_values(hash_of);
    if matches.len() > 0 {
        law_remaining_references(matches.drop_last(), drop_hashes);
        assert(all.drop_last() =~= matches.drop_last().map_values(hash_of));
        assert(all.last() == group_text(matches.last(), 1));
    }
    assert(dropped_among(matches, drop_hashes) =~= all.filter(is_dropped));
}

/// In a command, what stands for each directory of programs in the Nix store is replaced,
/// and then for each in the bundle.
pub open spec fn without_store_dirs(command: Seq<char>, to: Seq<char>) -> Seq<char> {
    regex_replace_all(
        r"/app/nix/store/[^/]+/bin/"@,
        regex_replace_all(r"/nix/store/[^/]+/bin/"@, command, to),
        to,
    )
}

/// Commands are cleaned behind `Exec=`, and behind `TryExec=` where that is a key of the
/// file. Other lines stay.
pub proof fn law_clean_line(command: Seq<char>, line: Seq<char>, with_try: bool, to: Seq<char>)
    ensures
        clean_line("Exec="@ + command, with_try, to) == "Exec="@ + without_store_dirs(command, to),
        clean_line("TryExec="@ + command, true, to) == "TryExec="@ + without_store_dirs(
            command,
            to,
        ),
        clean_line("TryExec="@ + command, false, to) == "TryExec="@ + command,
        !"Exec="@.is_prefix_of(line) && !"TryExec="@.is_prefix_of(line) ==> clean_line(
            line,
            with_try,
            to,
        ) == line,
{
    reveal_strlit("Exec=");
    reveal_strlit("TryExec=");
    let a = "Exec="@ + command;
    let b = "TryExec="@ + command;
    assert(a.subrange(0, 5) =~= "Exec="@);
    assert(a.skip(5) =~= command);
    assert(b.subrange(0, 8) =~= "TryExec="@);
    assert(b.skip(8) =~= command);
    assert(!"Exec="@.is_prefix_of(b)) by {
        assert(b.subrange(0, 5)[0] == 'T');
        assert("Exec="@[0] == 'E');
    }
}

/// Each line of a file is cleaned.
pub proof fn law_clean_lines(content: Seq<char>, with_try: bool, to: Seq<char>)
    ensures
        clean_lines(content, with_try, to).len() == line_list(content).len(),
        forall|i: int|
            0 <= i < line_list(content).len() ==> #[trigger] clean_lines(content, with_try, to)[i]
                == clean_line(line_list(content)[i], with_try, to),
{
}

} // verus!
