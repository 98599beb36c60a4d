//! Searching, splitting, joining, replacing, trimming and numbers.
use vstd::prelude::*;

use crate::order::{
    before, by_text, distinct, lemma_by_text, lemma_distinct, lemma_ranking, ranking,
    sorted, sorted_by_text, text_le,
};
use crate::pattern::group_text;
use crate::text::{
    all_digits, decimal_text, decimal_value, find_from, has_infix, is_digit, join,
    lemma_decimal_text, lemma_find_from, lemma_find_from_behind, lemma_find_from_is,
    lemma_find_from_none, lemma_join_of_split, lemma_split_from_behind, lemma_split_of_join,
    lemma_split_pieces, line_list, number_of, occurs_at, replace, replace_from, split, trim_end,
    trim_start, trimmed, white_space,
};

verus! {

/// The text of a group of a match is empty where the group took no part.
pub proof fn law_group_text(groups: Seq<Option<Seq<char>>>, i: int)
    ensures
        0 <= i < groups.len() && groups[i] is Some ==> group_text(groups, i) == groups[i]->Some_0,
        0 <= i < groups.len() && groups[i] is None ==> group_text(groups, i).len() == 0,
        i < 0 || groups.len() <= i ==> group_text(groups, i).len() == 0,
{
}

/// A text stands in another exactly where that is it with something before and
/// something behind it.
pub proof fn law_infix(s: Seq<char>, pat: Seq<char>)
    ensures
        has_infix(s, pat) <==> exists|a: Seq<char>, b: Seq<char>| s == #[trigger] (a + pat + b),
{
    if has_infix(s, pat) {
        let i = choose|i: int| occurs_at(s, pat, i);
        let a = s.take(i);
        let b = s.skip(i + pat.len());
        assert(s =~= a + s.subrange(i, i + pat.len()) + b);
        assert(s == a + pat + b);
    }
    if exists|a: Seq<char>, b: Seq<char>| s == #[trigger] (a + pat + b) {
        let (a, b) = choose|a: Seq<char>, b: Seq<char>| s == #[trigger] (a + pat + b);
        let i = a.len() as int;
        assert(s.subrange(i, i + pat.len()) =~= pat);
        assert(occurs_at(s, pat, i));
    }
}

/// The separator does not stand in `first` with a separator behind it before its end.
pub open spec fn comes_first(first: Seq<char>, sep: Seq<char>) -> bool {
    forall|m: int| 0 <= m < first.len() ==> !occurs_at(first + sep, sep, m)
}

proof fn lemma_first_occurrence(first: Seq<char>, sep: Seq<char>, rest: Seq<char>)
    requires
        sep.len() > 0,
        comes_first(first, sep),
    ensures
        find_from(first + sep + rest, sep, 0) == Some(first.len() as int),
{
    let s = first + sep + rest;
    let n = first.len() as int;
    assert(s.subrange(n, n + sep.len()) =~= sep);
    assert forall|k: int| 0 <= k < n implies !occurs_at(s, sep, k) by {
        if occurs_at(s, sep, k) {
            assert((first + sep).subrange(k, k + sep.len()) =~= s.subrange(k, k + sep.len()));
            assert(occurs_at(first + sep, sep, k));
        }
    }
    lemma_find_from_is(s, sep, 0, n);
}

/// Splitting cuts at the first separator, and goes on behind it. A text without the
/// separator is one piece.
pub proof fn law_split(first: Seq<char>, sep: Seq<char>, rest: Seq<char>)
    requires
        sep.len() > 0,
    ensures
        comes_first(first, sep) ==> split(first + sep + rest, sep) == seq![first] + split(rest, sep),
        !has_infix(first, sep) ==> split(first, sep) == seq![first],
{
    if comes_first(first, sep) {
        let s = first + sep + rest;
        lemma_first_occurrence(first, sep, rest);
        lemma_split_from_behind(first + sep, rest, sep, 0);
        assert(s.subrange(0, first.len() as int) =~= first);
    }
    if !has_infix(first, sep) {
        lemma_find_from_none(first, sep, 0);
        assert(first.subrange(0, first.len() as int) =~= first);
    }
}

/// Joining puts the separator between two rows of pieces, and leaves a single piece as
/// it is.
pub proof fn law_join(a: Seq<Seq<char>>, b: Seq<Seq<char>>, sep: Seq<char>)
    ensures
        join(Seq::empty(), sep) == Seq::<char>::empty(),
        a.len() == 1 ==> join(a, sep) == a[0],
        a.len() > 0 && b.len() > 0 ==> join(a + b, sep) == join(a, sep) + sep + join(b, sep),
    decreases b.len(),
{
    if a.len() > 0 && b.len() > 0 {
        let all = a + b;
        assert(all.last() == b.last());
        if b.len() == 1 {
            assert(all.drop_last() =~= a);
        } else {
            law_join(a, b.drop_last(), sep);
            assert(all.drop_last() =~= a + b.drop_last());
            assert(join(all, sep) =~= join(a, sep) + sep + join(b, sep));
        }
    }
}

proof fn lemma_replace_from_behind(
    a: Seq<char>,
    t: Seq<char>,
    from: Seq<char>,
    to: Seq<char>,
    i: int,
)
    requires
        from.len() > 0,
        0 <= i <= t.len(),
    ensures
        replace_from(a + t, from, to, a.len() + i) == replace_from(t, from, to, i),
    decreases t.len() - i,
{
    let s = a + t;
    lemma_find_from_behind(a, t, from, i);
    lemma_find_from(t, from, i);
    match find_from(t, from, i) {
        Some(j) => {
            lemma_replace_from_behind(a, t, from, to, j + from.len());
            assert(s.subrange(a.len() + i, a.len() + j) =~= t.subrange(i, j));
        },
        None => {
            assert(s.subrange(a.len() + i, s.len() as int) =~= t.subrange(i, t.len() as int));
        },
    }
}

/// Replacing puts the new text in place of the first occurrence of the old one, and goes
/// on behind it. A text without the old one stays. The empty text stands before each
/// character and at the end.
pub proof fn law_replace(first: Seq<char>, from: Seq<char>, rest: Seq<char>, to: Seq<char>, c: char)
    ensures
        from.len() > 0 && comes_first(first, from) ==> replace(first + from + rest, from, to)
            == first + to + replace(rest, from, to),
        from.len() > 0 && !has_infix(first, from) ==> replace(first, from, to) == first,
        replace(Seq::empty(), Seq::empty(), to) == to,
        replace(first.push(c), Seq::empty(), to) == replace(first, Seq::empty(), to) + seq![c] + to,
{
    if from.len() > 0 && comes_first(first, from) {
        let s = first + from + rest;
        lemma_first_occurrence(first, from, rest);
        lemma_replace_from_behind(first + from, rest, from, to, 0);
        assert(s.subrange(0, first.len() as int) =~= first);
    }
    if from.len() > 0 && !has_infix(first, from) {
        lemma_find_from_none(first, from, 0);
        assert(first.subrange(0, first.len() as int) =~= first);
    }
    assert(replace(Seq::empty(), Seq::empty(), to) =~= to);
    assert(first.push(c).drop_last() =~= first);
    assert(replace(first.push(c), Seq::empty(), to) =~= replace(first, Seq::empty(), to) + seq![c]
        + to);
}

proof fn lemma_trim_start(s: Seq<char>) -> (k: int)
    ensures
        0 <= k <= s.len(),
        trim_start(s) == s.skip(k),
        forall|i: int| 0 <= i < k ==> white_space(s[i]),
        k < s.len() ==> !white_space(s[k]),
    decreases s.len(),
{
    if s.len() > 0 && white_space(s.first()) {
        let k = lemma_trim_start(s.drop_first());
        assert(s.drop_first().skip(k) =~= s.skip(k + 1));
        assert forall|i: int| 0 <= i < k + 1 implies white_space(s[i]) by {
            if i > 0 {
                assert(s.drop_first()[i - 1] == s[i]);
            }
        }
        assert(k < s.drop_first().len() ==> s.drop_first()[k] == s[k + 1]);
        k + 1
    } else {
        assert(s.skip(0) =~= s);
        0
    }
}

proof fn lemma_trim_end(s: Seq<char>) -> (k: int)
    ensures
        0 <= k <= s.len(),
        trim_end(s) == s.take(k),
        forall|i: int| k <= i < s.len() ==> white_space(s[i]),
        k > 0 ==> !white_space(s[k - 1]),
    decreases s.len(),
{
    if s.len() > 0 && white_space(s.last()) {
        let k = lemma_trim_end(s.drop_last());
        assert(s.drop_last().take(k) =~= s.take(k));
        assert forall|i: int| k <= i < s.len() implies white_space(s[i]) by {
            if i < s.len() - 1 {
                assert(s.drop_last()[i] == s[i]);
            }
        }
        k
    } else {
        assert(s.take(s.len() as int) =~= s);
        s.len() as int
    }
}

/// Trimming takes white space off both ends, and nothing else, and leaves none there.
pub proof fn law_trimmed(s: Seq<char>)
    ensures
        exists|a: Seq<char>, b: Seq<char>|
            s == #[trigger] (a + trimmed(s) + b) && (forall|i: int|
                0 <= i < a.len() ==> white_space(#[trigger] a[i])) && (forall|i: int|
                0 <= i < b.len() ==> white_space(#[trigger] b[i])),
        trimmed(s).len() > 0 ==> !white_space(trimmed(s).first()) && !white_space(
            trimmed(s).last(),
        ),
{
    let k = lemma_trim_start(s);
    let t = s.skip(k);
    let n = lemma_trim_end(t);
    let a = s.take(k);
    let b = t.skip(n);
    assert(s =~= a + t.take(n) + b);
    assert forall|i: int| 0 <= i < b.len() implies white_space(#[trigger] b[i]) by {
        assert(b[i] == t[n + i]);
    }
    assert(s == a + trimmed(s) + b);
    if trimmed(s).len() > 0 {
        assert(trimmed(s).first() == s[k]);
        assert(trimmed(s).last() == t[n - 1]);
    }
}

/// Of the characters of ASCII, white space is tabs, line ends and the like, and the
/// blank. Others that count are the wide and narrow blanks of Unicode.
pub proof fn law_white_space(c: char)
    ensures
        c < '\u{80}' ==> (white_space(c) <==> c == '\t' || c == '\n' || c == '\u{b}' || c == '\u{c}'
            || c == '\r' || c == ' '),
        c >= '\u{80}' ==> (white_space(c) <==> c == '\u{85}' || c == '\u{a0}' || c == '\u{1680}' || (
        '\u{2000}' <= c && c <= '\u{200a}') || c == '\u{2028}' || c == '\u{2029}' || c == '\u{202f}'
            || c == '\u{205f}' || c == '\u{3000}'),
{
}

/// Lines that are written with a line feed behind each are read back, each without a
/// carriage return at its end. The same holds of a last line without a line feed, but
/// that keeps its carriage return.
pub proof fn law_lines(lines: Seq<Seq<char>>, last: Seq<char>)
    requires
        forall|i: int| 0 <= i < lines.len() ==> !(#[trigger] lines[i]).contains('\n'),
        !last.contains('\n'),
    ensures
        line_list(join(lines.push(last), seq!['\n'])).len() == lines.len() + (if last.len() == 0 {
            0int
        } else {
            1int
        }),
        forall|i: int|
            0 <= i < lines.len() ==> {
                let line = #[trigger] lines[i];
                line_list(join(lines.push(last), seq!['\n']))[i] == (if line.len() > 0
                    && line[line.len() - 1] == '\r' {
                    line.take(line.len() - 1)
                } else {
                    line
                })
            },
        last.len() > 0 ==> line_list(join(lines.push(last), seq!['\n']))[lines.len() as int] == last,
{
    let all = lines.push(last);
    assert forall|i: int| 0 <= i < all.len() implies !(#[trigger] all[i]).contains('\n') by {
        if i < lines.len() {
            assert(all[i] == lines[i]);
        }
    }
    lemma_split_of_join(all, '\n');
    let r = line_list(join(all, seq!['\n']));
    assert forall|i: int| 0 <= i < lines.len() implies {
        let line = #[trigger] lines[i];
        r[i] == (if line.len() > 0 && line[line.len() - 1] == '\r' {
            line.take(line.len() - 1)
        } else {
            line
        })
    } by {
        assert(all[i] == lines[i]);
        assert(lines[i].len() > 0 ==> lines[i].drop_last() =~= lines[i].take(lines[i].len() - 1));
    }
}

/// Each text is its lines as `law_lines` has them: what stands between its line feeds.
pub proof fn law_text_of_lines(s: Seq<char>)
    ensures
        exists|lines: Seq<Seq<char>>, last: Seq<char>|
            s == #[trigger] join(lines.push(last), seq!['\n']) && !last.contains('\n') && (forall|
                i: int,
            |
                0 <= i < lines.len() ==> !(#[trigger] lines[i]).contains('\n')),
{
    let pieces = split(s, seq!['\n']);
    lemma_join_of_split(s, seq!['\n']);
    lemma_split_pieces(s, '\n');
    lemma_find_from(s, seq!['\n'], 0);
    assert(pieces.len() > 0);
    let lines = pieces.drop_last();
    let last = pieces.last();
    assert(lines.push(last) =~= pieces);
    assert(last == pieces[pieces.len() - 1]);
    assert forall|i: int| 0 <= i < lines.len() implies !(#[trigger] lines[i]).contains('\n') by {
        assert(lines[i] == pieces[i]);
    }
    assert(s == join(lines.push(last), seq!['\n']));
}

/// Reading a number: a digit behind a number counts ones and the number tens, a plus
/// sign before digits does not matter, anything else is no number, and neither is what
/// is too large.
pub proof fn law_numbers(s: Seq<char>, d: char, max: nat)
    ensures
        ({
            let digits = forall|i: int| 0 <= i < s.len() ==> '0' <= #[trigger] s[i] <= '9';
            &&& '0' <= d <= '9' ==> number_of(seq![d], max) == (if (d as nat - '0' as nat) <= max {
                Some((d as nat - '0' as nat) as nat)
            } else {
                None
            })
            &&& digits && s.len() > 0 && '0' <= d <= '9' ==> {
                let all = decimal_value(s) * 10 + (d as nat - '0' as nat);
                number_of(s.push(d), max) == (if all <= max {
                    Some(all as nat)
                } else {
                    None
                })
            }
            &&& digits && s.len() > 0 ==> number_of(s, max) == (if decimal_value(s) <= max {
                Some(decimal_value(s))
            } else {
                None
            })
            &&& digits && s.len() > 0 ==> number_of(seq!['+'] + s, max) == number_of(s, max)
            &&& !digits && s[0] != '+' ==> number_of(s, max) is None
            &&& !digits ==> number_of(seq!['+'] + s, max) is None
            &&& number_of(Seq::empty(), max) is None
            &&& number_of(seq!['+'], max) is None
        }),
{
    let one = seq![d];
    assert(one.drop_last() =~= Seq::empty());
    assert(decimal_value(one.drop_last()) == 0);
    let more = s.push(d);
    assert(more.drop_last() =~= s);
    let plus = seq!['+'] + s;
    assert(plus.drop_first() =~= s);
    assert(seq!['+'].drop_first() =~= Seq::<char>::empty());
    if '0' <= d <= '9' {
        assert(all_digits(one));
        assert(one[0] != '+');
    }
    if forall|i: int| 0 <= i < s.len() ==> '0' <= #[trigger] s[i] <= '9' {
        assert(all_digits(s)) by {
            assert forall|i: int| 0 <= i < s.len() implies is_digit(#[trigger] s[i]) by {}
        }
        if s.len() > 0 {
            assert(s[0] != '+');
            assert(more[0] == s[0]);
            if '0' <= d <= '9' {
                assert(all_digits(more)) by {
                    assert forall|i: int| 0 <= i < more.len() implies is_digit(
                        #[trigger] more[i],
                    ) by {
                        if i < s.len() {
                            assert(more[i] == s[i]);
                        }
                    }
                }
            }
        }
    } else {
        let i = choose|i: int| 0 <= i < s.len() && !('0' <= #[trigger] s[i] <= '9');
        assert(!is_digit(s[i]));
        assert(!all_digits(s));
    }
}

/// Writing a number: the last digit counts ones, the others tens, and there is no zero in
/// front. Reading it gives the number back.
pub proof fn law_number_text(n: nat, max: nat)
    ensures
        n < 10 ==> decimal_text(n) == seq![('0' as nat + n) as char],
        n >= 10 ==> decimal_text(n) == decimal_text(n / 10) + decimal_text(n % 10),
        n <= max ==> number_of(decimal_text(n), max) == Some(n),
        n > max ==> number_of(decimal_text(n), max) is None,
{
    lemma_decimal_text(n);
    assert(is_digit(decimal_text(n)[0]));
    if n >= 10 {
        assert(decimal_text(n) =~= decimal_text(n / 10) + decimal_text(n % 10));
    }
}

/// A text comes before another exactly where it begins that, or its character at the first
/// difference is smaller.
pub proof fn law_text_order(a: Seq<char>, b: Seq<char>)
    ensures
        text_le(a, b) <==> a.is_prefix_of(b) || exists|k: int|
            0 <= k < a.len() && k < b.len() && #[trigger] a[k] < b[k] && a.take(k) == b.take(k),
    decreases a.len(),
{
    if a.len() == 0 {
        assert(b.subrange(0, 0) =~= a);
    } else if b.len() == 0 {
    } else if a[0] != b[0] {
        if a[0] < b[0] {
            assert(a.take(0) =~= b.take(0));
            assert(a[0] < b[0]);
        } else {
            assert(!a.is_prefix_of(b)) by {
                if a.is_prefix_of(b) {
                    assert(b.subrange(0, a.len() as int)[0] == a[0]);
                }
            }
            assert forall|k: int|
                0 <= k < a.len() && k < b.len() && #[trigger] a[k] < b[k] implies a.take(k)
                != b.take(k) by {
                if a.take(k) == b.take(k) {
                    if k > 0 {
                        assert(a.take(k)[0] == b.take(k)[0]);
                    }
                }
            }
        }
    } else {
        let a1 = a.drop_first();
        let b1 = b.drop_first();
        law_text_order(a1, b1);
        assert(a.is_prefix_of(b) <==> a1.is_prefix_of(b1)) by {
            if a.is_prefix_of(b) {
                assert forall|i: int| 0 <= i < a1.len() implies a1[i] == b1[i] by {
                    assert(b.subrange(0, a.len() as int)[i + 1] == a[i + 1]);
                }
                assert(b1.subrange(0, a1.len() as int) =~= a1);
            }
            if a1.is_prefix_of(b1) {
                assert forall|i: int| 0 <= i < a.len() implies a[i] == b[i] by {
                    if i > 0 {
                        assert(b1.subrange(0, a1.len() as int)[i - 1] == a1[i - 1]);
                    }
                }
                assert(b.subrange(0, a.len() as int) =~= a);
            }
        }
        if exists|k: int|
            0 <= k < a.len() && k < b.len() && #[trigger] a[k] < b[k] && a.take(k) == b.take(k) {
            let k = choose|k: int|
                0 <= k < a.len() && k < b.len() && #[trigger] a[k] < b[k] && a.take(k) == b.take(k);
            assert(a1[k - 1] < b1[k - 1]);
            assert forall|i: int| 0 <= i < k - 1 implies a1[i] == b1[i] by {
                assert(a.take(k)[i + 1] == b.take(k)[i + 1]);
            }
            assert(a1.take(k - 1) =~= b1.take(k - 1));
        }
        if exists|k: int|
            0 <= k < a1.len() && k < b1.len() && #[trigger] a1[k] < b1[k] && a1.take(k) == b1.take(
                k,
            ) {
            let k = choose|k: int|
                0 <= k < a1.len() && k < b1.len() && #[trigger] a1[k] < b1[k] && a1.take(k)
                    == b1.take(k);
            assert(a[k + 1] < b[k + 1]);
            assert forall|i: int| 0 <= i < k + 1 implies a[i] == b[i] by {
                if i > 0 {
                    assert(a1.take(k)[i - 1] == b1.take(k)[i - 1]);
                }
            }
            assert(a.take(k + 1) =~= b.take(k + 1));
        }
    }
}

/// Sorting by text puts each element in a place of its own, in the order of the texts, and
/// leaves elements with one text in the order in which they stood.
pub proof fn law_sorting<A>(s: Seq<A>, keys: Seq<Seq<char>>)
    requires
        s.len() == keys.len(),
    ensures
        exists|at: Seq<int>|
            at.len() == s.len() && at.no_duplicates() && (forall|k: int|
                #![trigger at[k]]
                0 <= k < s.len() ==> 0 <= at[k] < s.len() && sorted_by_text(s, keys)[k] == s[at[k]])
                && (forall|i: int, j: int|
                #![trigger at[i], at[j]]
                0 <= i < j < s.len() ==> text_le(keys[at[i]], keys[at[j]]) && (keys[at[i]]
                    == keys[at[j]] ==> at[i] < at[j])),
        sorted_by_text(s, keys).len() == s.len(),
{
    let le = by_text(keys);
    let at = ranking(le, s.len());
    lemma_by_text(keys);
    lemma_ranking(le, s.len());
    assert forall|k: int| #![trigger at[k]] 0 <= k < s.len() implies 0 <= at[k] < s.len()
        && sorted_by_text(s, keys)[k] == s[at[k]] by {
        assert(at.contains(at[k]));
    }
    assert forall|i: int, j: int| #![trigger at[i], at[j]] 0 <= i < j < s.len() implies text_le(
        keys[at[i]],
        keys[at[j]],
    ) && (keys[at[i]] == keys[at[j]] ==> at[i] < at[j]) by {
        assert(before(le, at[i], at[j]));
    }
    assert(at.no_duplicates()) by {
        assert forall|i: int, j: int|
            0 <= i < at.len() && 0 <= j < at.len() && i != j implies at[i] != at[j] by {
            if i < j {
                assert(before(le, at[i], at[j]));
            } else {
                assert(before(le, at[j], at[i]));
            }
        }
    }
}

/// Sorted texts are those that were there, as often as they were, in order.
pub proof fn law_sorted(s: Seq<Seq<char>>)
    ensures
        sorted(s).to_multiset() == s.to_multiset(),
        forall|i: int, j: int|
            0 <= i < j < sorted(s).len() ==> text_le(#[trigger] sorted(s)[i], #[trigger] sorted(s)[j]),
{
    broadcast use vstd::seq_lib::group_to_multiset_ensures;

    let le = by_text(s);
    let at = ranking(le, s.len());
    lemma_by_text(s);
    lemma_ranking(le, s.len());
    assert(sorted(s) == at.map_values(|i: int| s[i]));
    assert(at.no_duplicates()) by {
        assert forall|i: int, j: int|
            0 <= i < at.len() && 0 <= j < at.len() && i != j implies at[i] != at[j] by {
            if i < j {
                assert(before(le, at[i], at[j]));
            } else {
                assert(before(le, at[j], at[i]));
            }
        }
    }
    lemma_permuted(s, at);
    assert forall|i: int, j: int| 0 <= i < j < sorted(s).len() implies text_le(
        #[trigger] sorted(s)[i],
        #[trigger] sorted(s)[j],
    ) by {
        assert(before(le, at[i], at[j]));
    }
}

/// Elements taken in another order are the same elements.
proof fn lemma_permuted(s: Seq<Seq<char>>, at: Seq<int>)
    requires
        at.len() == s.len(),
        at.no_duplicates(),
        forall|y: int| #[trigger] at.contains(y) <==> 0 <= y < s.len(),
    ensures
        at.map_values(|i: int| s[i]).to_multiset() == s.to_multiset(),
    decreases s.len(),
{
    broadcast use vstd::seq_lib::group_to_multiset_ensures;

    let r = at.map_values(|i: int| s[i]);
    if s.len() == 0 {
        assert(r =~= s);
    } else {
        let n = s.len() - 1;
        let rest = s.drop_last();
        assert(at.contains(n));
        let k = at.index_of(n);
        let at1 = at.remove(k);
        assert forall|y: int| #[trigger] at1.contains(y) <==> 0 <= y < rest.len() by {
            if at1.contains(y) {
                let i = at1.index_of(y);
                let from = if i < k {
                    i
                } else {
                    i + 1
                };
                assert(at[from] == y);
                assert(at.contains(y));
                assert(y != n);
            }
            if 0 <= y < rest.len() {
                assert(at.contains(y));
                let i = at.index_of(y);
                assert(i != k);
                if i < k {
                    assert(at1[i] == y);
                } else {
                    assert(at1[i - 1] == y);
                }
            }
        }
        assert(at1.no_duplicates());
        lemma_permuted(rest, at1);
        let r1 = at1.map_values(|i: int| rest[i]);
        assert(r.remove(k) =~= r1) by {
            assert forall|i: int| 0 <= i < r1.len() implies r.remove(k)[i] == r1[i] by {
                assert(at1.contains(at1[i]));
                assert(rest[at1[i]] == s[at1[i]]);
            }
        }
        assert(r.to_multiset() =~= r1.to_multiset().insert(s[n]));
        assert(s =~= rest.push(s[n]));
        assert(r.to_multiset() =~= s.to_multiset());
    }
}

/// Of equal elements one is left, and nothing else is.
pub proof fn law_distinct<A>(s: Seq<A>)
    ensures
        distinct(s).no_duplicates(),
        forall|x: A| #[trigger] distinct(s).contains(x) <==> s.contains(x),
{
    lemma_distinct(s);
}

/// The first of each group of equal elements keeps the order: what comes first in the
/// list comes first in the result.
pub proof fn law_distinct_keeps_order<A>(s: Seq<A>, i: int, y: A)
    requires
        0 <= i < s.len(),
        s.contains(y),
        s[i] != y,
        forall|m: int| 0 <= m < i ==> s[m] != y,
    ensures
        distinct(s).index_of(s[i]) < distinct(s).index_of(y),
    decreases s.len(),
{
    let d = s.drop_last();
    lemma_distinct(s);
    lemma_distinct(d);
    let x = s[i];
    let ds = distinct(s);
    let dd = distinct(d);
    assert(s.contains(x));
    assert(ds.contains(x) && ds.contains(y));
    let a = ds.index_of(x);
    let b = ds.index_of(y);
    assert(ds[a] == x && ds[b] == y);
    if i < d.len() {
        assert(d[i] == x);
        assert(d.contains(x));
        assert(dd.contains(x));
        let a0 = dd.index_of(x);
        assert(ds[a0] == x);
        assert(a0 == a);
        if d.contains(y) {
            law_distinct_keeps_order(d, i, y);
            assert(dd.contains(y));
            let b0 = dd.index_of(y);
            assert(ds[b0] == y);
        } else {
            assert(s.last() == y) by {
                let k = s.index_of(y);
                if k < d.len() {
                    assert(d[k] == y);
                }
            }
            assert(ds[dd.len() as int] == y);
        }
    } else {
        let k = s.index_of(y);
        assert(s[k] == y);
    }
}

} // verus!
