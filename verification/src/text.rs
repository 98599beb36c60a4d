//! Text as sequences of characters: searching, splitting, joining, replacing,
//! trimming and decimal numbers.
use vstd::prelude::*;
use vstd::utf8::{encode_utf8, encode_utf8_decode_utf8};

verus! {

/// Trusted: `String::push` appends one character to the end of the string, as
/// its documentation says.
pub assume_specification[ String::push ](s: &mut String, ch: char)
    ensures
        final(s)@ == old(s)@.push(ch),
;

// ---------------------------------------------------------------------------
// Model
// ---------------------------------------------------------------------------

/// The texts of a list of strings.
pub open spec fn views(list: Seq<String>) -> Seq<Seq<char>> {
    list.map_values(|s: String| s@)
}

/// The text of an optional string.
pub open spec fn opt_view(s: Option<String>) -> Option<Seq<char>> {
    match s {
        Some(t) => Some(t@),
        None => None,
    }
}

/// The texts of optional strings.
pub open spec fn opt_views(list: Seq<Option<String>>) -> Seq<Option<Seq<char>>> {
    list.map_values(|s: Option<String>| opt_view(s))
}

/// `pat` stands in `s` at position `i`.
pub open spec fn occurs_at<A>(s: Seq<A>, pat: Seq<A>, i: int) -> bool {
    0 <= i && i + pat.len() <= s.len() && s.subrange(i, i + pat.len()) == pat
}

/// `pat` stands somewhere in `s`.
pub open spec fn has_infix<A>(s: Seq<A>, pat: Seq<A>) -> bool {
    exists|i: int| occurs_at(s, pat, i)
}

/// The first position from `i` on at which `pat` stands in `s`.
pub open spec fn find_from<A>(s: Seq<A>, pat: Seq<A>, i: int) -> Option<int>
    decreases s.len() + 1 - i,
{
    if i < 0 || i + pat.len() > s.len() {
        None
    } else if occurs_at(s, pat, i) {
        Some(i)
    } else {
        find_from(s, pat, i + 1)
    }
}

/// The pieces of `s` from position `i` on, cut at each `sep`.
pub open spec fn split_from(s: Seq<char>, sep: Seq<char>, i: int) -> Seq<Seq<char>>
    decreases s.len() - i,
{
    match find_from(s, sep, i) {
        Some(j) => if i <= j && j + sep.len() <= s.len() && sep.len() > 0 {
            seq![s.subrange(i, j)] + split_from(s, sep, j + sep.len())
        } else {
            seq![]
        },
        None => seq![s.subrange(i, s.len() as int)],
    }
}

/// The pieces of `s` between the occurrences of `sep`, found from the left.
pub open spec fn split(s: Seq<char>, sep: Seq<char>) -> Seq<Seq<char>> {
    split_from(s, sep, 0)
}

/// The pieces, with `sep` between neighbours.
pub open spec fn join(pieces: Seq<Seq<char>>, sep: Seq<char>) -> Seq<char>
    decreases pieces.len(),
{
    if pieces.len() == 0 {
        seq![]
    } else if pieces.len() == 1 {
        pieces[0]
    } else {
        join(pieces.drop_last(), sep) + sep + pieces.last()
    }
}

/// `s` from position `i` on, with `to` in place of each `from`.
pub open spec fn replace_from(s: Seq<char>, from: Seq<char>, to: Seq<char>, i: int) -> Seq<char>
    decreases s.len() - i,
{
    match find_from(s, from, i) {
        Some(j) => if i <= j && j + from.len() <= s.len() && from.len() > 0 {
            s.subrange(i, j) + to + replace_from(s, from, to, j + from.len())
        } else {
            seq![]
        },
        None => s.subrange(i, s.len() as int),
    }
}

/// `to` before each of the characters of `s`.
pub open spec fn interleave(s: Seq<char>, to: Seq<char>) -> Seq<char>
    decreases s.len(),
{
    if s.len() == 0 {
        seq![]
    } else {
        interleave(s.drop_last(), to) + to + seq![s.last()]
    }
}

/// `s` with `to` in place of each `from`. The empty text stands before each
/// character and at the end.
pub open spec fn replace(s: Seq<char>, from: Seq<char>, to: Seq<char>) -> Seq<char> {
    if from.len() == 0 {
        interleave(s, to) + to
    } else {
        replace_from(s, from, to, 0)
    }
}

/// The characters with the Unicode property White_Space.
pub open spec fn white_space(c: char) -> bool {
    ||| '\u{9}' <= c <= '\u{d}'
    ||| c == ' '
    ||| c == '\u{85}'
    ||| c == '\u{a0}'
    ||| c == '\u{1680}'
    ||| '\u{2000}' <= c <= '\u{200a}'
    ||| c == '\u{2028}'
    ||| c == '\u{2029}'
    ||| c == '\u{202f}'
    ||| c == '\u{205f}'
    ||| c == '\u{3000}'
}

/// `s` without the white space at its start.
pub open spec fn trim_start(s: Seq<char>) -> Seq<char>
    decreases s.len(),
{
    if s.len() > 0 && white_space(s.first()) {
        trim_start(s.drop_first())
    } else {
        s
    }
}

/// `s` without the white space at its end.
pub open spec fn trim_end(s: Seq<char>) -> Seq<char>
    decreases s.len(),
{
    if s.len() > 0 && white_space(s.last()) {
        trim_end(s.drop_last())
    } else {
        s
    }
}

/// `s` without the white space at either end.
pub open spec fn trimmed(s: Seq<char>) -> Seq<char> {
    trim_end(trim_start(s))
}

/// A line without the carriage return that ends it.
pub open spec fn without_cr(s: Seq<char>) -> Seq<char> {
    if s.len() > 0 && s.last() == '\r' {
        s.drop_last()
    } else {
        s
    }
}

/// The lines of `s`. Each ends in a line feed, with or without a carriage
/// return before it. Text behind the last line feed is a line of its own.
pub open spec fn line_list(s: Seq<char>) -> Seq<Seq<char>> {
    let pieces = split(s, seq!['\n']);
    let ended = (pieces.len() - 1) as nat;
    Seq::new(
        if pieces.last().len() == 0 {
            ended
        } else {
            pieces.len()
        },
        |i: int|
            if i < ended {
                without_cr(pieces[i])
            } else {
                pieces[i]
            },
    )
}

pub open spec fn is_digit(c: char) -> bool {
    '0' <= c <= '9'
}

pub open spec fn all_digits(s: Seq<char>) -> bool {
    forall|i: int| 0 <= i < s.len() ==> is_digit(#[trigger] s[i])
}

/// The number that a row of decimal digits stands for.
pub open spec fn decimal_value(s: Seq<char>) -> nat
    decreases s.len(),
{
    if s.len() == 0 {
        0
    } else {
        decimal_value(s.drop_last()) * 10 + (s.last() as nat - '0' as nat) as nat
    }
}

/// The number that `s` stands for, where it is a row of decimal digits, with or
/// without a plus sign before it, and the number is at most `max`.
pub open spec fn number_of(s: Seq<char>, max: nat) -> Option<nat> {
    let digits = if s.len() > 0 && s[0] == '+' {
        s.drop_first()
    } else {
        s
    };
    if digits.len() > 0 && all_digits(digits) && decimal_value(digits) <= max {
        Some(decimal_value(digits))
    } else {
        None
    }
}

pub open spec fn digit(n: nat) -> char {
    ('0' as nat + n) as char
}

/// The decimal digits of a number.
pub open spec fn decimal_text(n: nat) -> Seq<char>
    decreases n,
{
    if n < 10 {
        seq![digit(n)]
    } else {
        decimal_text(n / 10).push(digit(n % 10))
    }
}

/// How many bytes the UTF-8 form of a character has.
pub open spec fn utf8_len(c: char) -> nat {
    if (c as u32) < 0x80 {
        1
    } else if (c as u32) < 0x800 {
        2
    } else if (c as u32) < 0x10000 {
        3
    } else {
        4
    }
}

/// How many bytes the UTF-8 form of a text has.
pub open spec fn byte_len(s: Seq<char>) -> nat
    decreases s.len(),
{
    if s.len() == 0 {
        0
    } else {
        byte_len(s.drop_last()) + utf8_len(s.last())
    }
}

// ---------------------------------------------------------------------------
// Lemmas
// ---------------------------------------------------------------------------

pub proof fn lemma_views_push(list: Seq<String>, s: String)
    ensures
        views(list.push(s)) == views(list).push(s@),
{
    assert(views(list.push(s)) =~= views(list).push(s@));
}

/// What `find_from` gives is the first occurrence.
pub proof fn lemma_find_from<A>(s: Seq<A>, pat: Seq<A>, i: int)
    requires
        0 <= i,
    ensures
        match find_from(s, pat, i) {
            Some(j) => i <= j && occurs_at(s, pat, j) && (forall|k: int|
                i <= k < j ==> !occurs_at(s, pat, k)),
            None => forall|k: int| i <= k ==> !occurs_at(s, pat, k),
        },
    decreases s.len() + 1 - i,
{
    if i + pat.len() <= s.len() && !occurs_at(s, pat, i) {
        lemma_find_from(s, pat, i + 1);
    }
}

/// The first occurrence is what `find_from` gives.
pub proof fn lemma_find_from_is<A>(s: Seq<A>, pat: Seq<A>, i: int, j: int)
    requires
        0 <= i <= j,
        occurs_at(s, pat, j),
        forall|k: int| i <= k < j ==> !occurs_at(s, pat, k),
    ensures
        find_from(s, pat, i) == Some(j),
    decreases j - i,
{
    if i < j {
        lemma_find_from_is(s, pat, i + 1, j);
    }
}

pub proof fn lemma_find_from_none<A>(s: Seq<A>, pat: Seq<A>, i: int)
    requires
        0 <= i,
        forall|k: int| i <= k ==> !occurs_at(s, pat, k),
    ensures
        find_from(s, pat, i) is None,
    decreases s.len() + 1 - i,
{
    if i + pat.len() <= s.len() {
        lemma_find_from_none(s, pat, i + 1);
    }
}

/// A piece before others is joined to them by the separator.
pub proof fn lemma_join_first(first: Seq<char>, rest: Seq<Seq<char>>, sep: Seq<char>)
    requires
        rest.len() > 0,
    ensures
        join(seq![first] + rest, sep) == first + sep + join(rest, sep),
    decreases rest.len(),
{
    let all = seq![first] + rest;
    assert(all.drop_last() =~= seq![first] + rest.drop_last());
    assert(all.last() == rest.last());
    if rest.len() == 1 {
        assert(all.drop_last() =~= seq![first]);
        assert(join(all.drop_last(), sep) == first);
        assert(join(all, sep) =~= first + sep + join(rest, sep));
    } else {
        lemma_join_first(first, rest.drop_last(), sep);
        assert(join(all, sep) =~= first + sep + join(rest, sep));
    }
}

proof fn lemma_join_of_split_from(s: Seq<char>, sep: Seq<char>, i: int)
    requires
        sep.len() > 0,
        0 <= i <= s.len(),
    ensures
        split_from(s, sep, i).len() > 0,
        join(split_from(s, sep, i), sep) == s.subrange(i, s.len() as int),
    decreases s.len() - i,
{
    lemma_find_from(s, sep, i);
    match find_from(s, sep, i) {
        Some(j) => {
            let k = j + sep.len();
            lemma_join_of_split_from(s, sep, k);
            lemma_join_first(s.subrange(i, j), split_from(s, sep, k), sep);
            assert(s.subrange(j, k) == sep);
            assert(s.subrange(i, j) + s.subrange(j, k) + s.subrange(k, s.len() as int)
                =~= s.subrange(i, s.len() as int));
        },
        None => {},
    }
}

/// Joining the pieces of a text gives the text back.
pub proof fn lemma_join_of_split(s: Seq<char>, sep: Seq<char>)
    requires
        sep.len() > 0,
    ensures
        join(split(s, sep), sep) == s,
{
    lemma_join_of_split_from(s, sep, 0);
    assert(s.subrange(0, s.len() as int) =~= s);
}

/// What stands before a position does not matter for what is found behind it.
pub proof fn lemma_find_from_behind(a: Seq<char>, t: Seq<char>, pat: Seq<char>, i: int)
    requires
        0 <= i,
    ensures
        find_from(a + t, pat, a.len() + i) == (match find_from(t, pat, i) {
            Some(j) => Some(a.len() + j),
            None => None,
        }),
    decreases t.len() + 1 - i,
{
    let s = a + t;
    if i + pat.len() <= t.len() {
        assert(s.subrange(a.len() + i, a.len() + i + pat.len()) =~= t.subrange(i, i + pat.len()));
        if !occurs_at(t, pat, i) {
            lemma_find_from_behind(a, t, pat, i + 1);
        }
    }
}

pub proof fn lemma_split_from_behind(a: Seq<char>, t: Seq<char>, sep: Seq<char>, i: int)
    requires
        sep.len() > 0,
        0 <= i <= t.len(),
    ensures
        split_from(a + t, sep, a.len() + i) == split_from(t, sep, i),
    decreases t.len() - i,
{
    let s = a + t;
    lemma_find_from_behind(a, t, sep, i);
    lemma_find_from(t, sep, i);
    match find_from(t, sep, i) {
        Some(j) => {
            lemma_split_from_behind(a, t, sep, j + sep.len());
            assert(s.subrange(a.len() + i, a.len() + j) =~= t.subrange(i, j));
        },
        None => {
            assert(s.subrange(a.len() + i, s.len() as int) =~= t.subrange(i, t.len() as int));
        },
    }
}

/// Splitting pieces that were joined by a character gives the pieces back, where
/// none of them holds that character.
pub proof fn lemma_split_of_join(pieces: Seq<Seq<char>>, c: char)
    requires
        pieces.len() > 0,
        forall|i: int| 0 <= i < pieces.len() ==> !(#[trigger] pieces[i]).contains(c),
    ensures
        split(join(pieces, seq![c]), seq![c]) == pieces,
    decreases pieces.len(),
{
    let sep = seq![c];
    let s = join(pieces, sep);
    let first = pieces[0];
    assert(!pieces[0].contains(c));
    if pieces.len() == 1 {
        assert forall|k: int| 0 <= k implies !occurs_at(s, sep, k) by {
            if occurs_at(s, sep, k) {
                assert(s.subrange(k, k + 1)[0] == c);
                assert(s[k] == c);
            }
        }
        lemma_find_from_none(s, sep, 0);
        assert(s.subrange(0, s.len() as int) =~= s);
        assert(split(s, sep) =~= pieces);
    } else {
        let rest = pieces.drop_first();
        assert forall|i: int| 0 <= i < rest.len() implies !(#[trigger] rest[i]).contains(c) by {
            assert(rest[i] == pieces[i + 1]);
        }
        lemma_split_of_join(rest, c);
        assert(pieces =~= seq![first] + rest);
        lemma_join_first(first, rest, sep);
        let t = join(rest, sep);
        let a = first + sep;
        assert(s == a + t);
        let n = first.len() as int;
        assert(s.subrange(n, n + 1) =~= sep);
        assert forall|k: int| 0 <= k < n implies !occurs_at(s, sep, k) by {
            if occurs_at(s, sep, k) {
                assert(s.subrange(k, k + 1)[0] == c);
                assert(first[k] == c);
            }
        }
        lemma_find_from_is(s, sep, 0, n);
        lemma_split_from_behind(a, t, sep, 0);
        assert(s.subrange(0, n) =~= first);
    }
}

proof fn lemma_split_from_pieces(s: Seq<char>, c: char, i: int)
    requires
        0 <= i <= s.len(),
    ensures
        forall|k: int|
            0 <= k < split_from(s, seq![c], i).len() ==> !(#[trigger] split_from(
                s,
                seq![c],
                i,
            )[k]).contains(c),
    decreases s.len() - i,
{
    let sep = seq![c];
    let all = split_from(s, sep, i);
    lemma_find_from(s, sep, i);
    let end = match find_from(s, sep, i) {
        Some(j) => j,
        None => s.len() as int,
    };
    let piece = s.subrange(i, end);
    assert(!piece.contains(c)) by {
        if piece.contains(c) {
            let k = i + piece.index_of(c);
            assert(s[k] == c);
            assert(s.subrange(k, k + 1) =~= sep);
            assert(occurs_at(s, sep, k));
        }
    }
    match find_from(s, sep, i) {
        Some(j) => {
            lemma_split_from_pieces(s, c, j + 1);
            let rest = split_from(s, sep, j + 1);
            assert forall|k: int| 0 <= k < all.len() implies !(#[trigger] all[k]).contains(c) by {
                if k > 0 {
                    assert(all[k] == rest[k - 1]);
                }
            }
        },
        None => {},
    }
}

/// The pieces of a text that is split at a character do not hold that character.
pub proof fn lemma_split_pieces(s: Seq<char>, c: char)
    ensures
        forall|k: int|
            0 <= k < split(s, seq![c]).len() ==> !(#[trigger] split(s, seq![c])[k]).contains(c),
{
    lemma_split_from_pieces(s, c, 0);
}

pub proof fn lemma_decimal_value_prefix(s: Seq<char>, k: int)
    requires
        0 <= k <= s.len(),
        all_digits(s),
    ensures
        decimal_value(s.take(k)) <= decimal_value(s),
    decreases s.len() - k,
{
    if k < s.len() {
        lemma_decimal_value_prefix(s, k + 1);
        assert(s.take(k + 1).drop_last() =~= s.take(k));
        assert(s.take(k + 1).last() == s[k]);
        assert(is_digit(s[k]));
    } else {
        assert(s.take(k) =~= s);
    }
}

/// Reading the decimal digits of a number gives the number back.
pub proof fn lemma_decimal_text(n: nat)
    ensures
        decimal_text(n).len() > 0,
        all_digits(decimal_text(n)),
        decimal_value(decimal_text(n)) == n,
    decreases n,
{
    let t = decimal_text(n);
    if n < 10 {
        assert(t.drop_last() =~= seq![]);
        assert(decimal_value(t.drop_last()) == 0);
    } else {
        lemma_decimal_text(n / 10);
        assert(t.drop_last() =~= decimal_text(n / 10));
    }
}

pub proof fn lemma_byte_len_push(s: Seq<char>, c: char)
    ensures
        byte_len(s.push(c)) == byte_len(s) + utf8_len(c),
{
    assert(s.push(c).drop_last() =~= s);
}

// ---------------------------------------------------------------------------
// Characters and strings
// ---------------------------------------------------------------------------

/// The characters of a string.
pub fn to_chars(s: &str) -> (r: Vec<char>)
    ensures
        r@ == s@,
{
    let mut r: Vec<char> = Vec::new();
    for c in it: s.chars()
        invariant
            r@ == s@.take(it.index() as int),
            it.seq() == s@,
    {
        r.push(c);
        proof {
            assert(s@.take(it.index() as int + 1) =~= s@.take(it.index() as int).push(c));
        }
    }
    proof {
        assert(s@.take(s@.len() as int) =~= s@);
    }
    r
}

/// The string of a range of characters.
pub fn from_range(chars: &Vec<char>, start: usize, end: usize) -> (r: String)
    requires
        start <= end <= chars@.len(),
    ensures
        r@ == chars@.subrange(start as int, end as int),
{
    let mut r: String = String::new();
    let mut i: usize = start;
    while i < end
        invariant
            start <= i <= end <= chars@.len(),
            r@ == chars@.subrange(start as int, i as int),
        decreases end - i,
    {
        r.push(chars[i]);
        proof {
            assert(chars@.subrange(start as int, i as int + 1) =~= chars@.subrange(
                start as int,
                i as int,
            ).push(chars@[i as int]));
        }
        i += 1;
    }
    r
}

/// Whether two texts are equal.
pub fn same_text(a: &str, b: &str) -> (r: bool)
    ensures
        r == (a@ == b@),
{
    let x: &[u8] = a.as_bytes();
    let y: &[u8] = b.as_bytes();
    if x.len() != y.len() {
        return false;
    }
    let mut i: usize = 0;
    while i < x.len()
        invariant
            x@ == encode_utf8(a@),
            y@ == encode_utf8(b@),
            x@.len() == y@.len(),
            i <= x@.len(),
            forall|k: int| 0 <= k < i ==> x@[k] == y@[k],
        decreases x@.len() - i,
    {
        if x[i] != y[i] {
            return false;
        }
        i += 1;
    }
    proof {
        assert(x@ =~= y@);
        encode_utf8_decode_utf8(a@);
        encode_utf8_decode_utf8(b@);
    }
    true
}

/// A copy of a list of strings.
pub fn copy_strings(list: &Vec<String>) -> (r: Vec<String>)
    ensures
        r@ == list@,
{
    let mut r: Vec<String> = Vec::new();
    let mut i: usize = 0;
    while i < list.len()
        invariant
            i <= list@.len(),
            r@ == list@.take(i as int),
        decreases list@.len() - i,
    {
        r.push(list[i].clone());
        proof {
            assert(list@.take(i as int + 1) =~= list@.take(i as int).push(list@[i as int]));
        }
        i += 1;
    }
    proof {
        assert(list@.take(i as int) =~= list@);
    }
    r
}

/// Whether a text is in a list.
pub fn list_has(list: &Vec<String>, text: &str) -> (r: bool)
    ensures
        r == views(list@).contains(text@),
{
    let ghost v = views(list@);
    let mut i: usize = 0;
    while i < list.len()
        invariant
            i <= list@.len(),
            v == views(list@),
            forall|k: int| 0 <= k < i ==> v[k] != text@,
        decreases list@.len() - i,
    {
        proof {
            assert(v[i as int] == list@[i as int]@);
        }
        if same_text(&list[i], text) {
            return true;
        }
        i += 1;
    }
    false
}

/// Two texts, one behind the other.
pub fn glue(a: &str, b: &str) -> (r: String)
    ensures
        r@ == a@ + b@,
{
    let mut r: String = a.to_owned();
    r.append(b);
    r
}

/// Three texts, one behind the other.
pub fn glue3(a: &str, b: &str, c: &str) -> (r: String)
    ensures
        r@ == a@ + b@ + c@,
{
    let mut r: String = glue(a, b);
    r.append(c);
    r
}

// ---------------------------------------------------------------------------
// Searching
// ---------------------------------------------------------------------------

/// Whether `pat` stands in `s` at position `i`.
fn stands_at(s: &Vec<char>, pat: &Vec<char>, i: usize) -> (r: bool)
    requires
        i + pat@.len() <= s@.len(),
    ensures
        r == occurs_at(s@, pat@, i as int),
{
    let n: usize = s.len();
    let mut k: usize = 0;
    while k < pat.len()
        invariant
            k <= pat@.len(),
            n == s@.len(),
            i + pat@.len() <= s@.len(),
            forall|m: int| 0 <= m < k ==> s@[i + m] == #[trigger] pat@[m],
        decreases pat@.len() - k,
    {
        if s[i + k] != pat[k] {
            proof {
                assert(s@.subrange(i as int, i + pat@.len())[k as int] == s@[i + k]);
            }
            return false;
        }
        k += 1;
    }
    proof {
        assert(s@.subrange(i as int, i + pat@.len()) =~= pat@);
    }
    true
}

/// The first position from `start` on at which `pat` stands in `s`.
pub fn find_chars(s: &Vec<char>, pat: &Vec<char>, start: usize) -> (r: Option<usize>)
    ensures
        match find_from(s@, pat@, start as int) {
            Some(j) => r == Some(j as usize) && start <= j && j + pat@.len() <= s@.len()
                && j as usize == j && occurs_at(s@, pat@, j),
            None => r is None,
        },
{
    let mut i: usize = start;
    if pat.len() > s.len() {
        return None;
    }
    let last: usize = s.len() - pat.len();
    while i <= last
        invariant
            start <= i,
            last == s@.len() - pat@.len(),
            find_from(s@, pat@, start as int) == find_from(s@, pat@, i as int),
        decreases last + 1 - i,
    {
        if stands_at(s, pat, i) {
            return Some(i);
        }
        if i == last {
            return None;
        }
        i += 1;
    }
    None
}

/// Whether `s` begins with `pat`.
pub fn starts_with(s: &str, pat: &str) -> (r: bool)
    ensures
        r == pat@.is_prefix_of(s@),
{
    let sc: Vec<char> = to_chars(s);
    let pc: Vec<char> = to_chars(pat);
    if pc.len() > sc.len() {
        return false;
    }
    proof {
        assert(s@.subrange(0, pat@.len() as int) == pat@ <==> pat@.is_prefix_of(s@));
    }
    stands_at(&sc, &pc, 0)
}

/// Whether `s` ends in `pat`.
pub fn ends_with(s: &str, pat: &str) -> (r: bool)
    ensures
        r == pat@.is_suffix_of(s@),
{
    let sc: Vec<char> = to_chars(s);
    let pc: Vec<char> = to_chars(pat);
    if pc.len() > sc.len() {
        return false;
    }
    stands_at(&sc, &pc, sc.len() - pc.len())
}

/// Whether `pat` stands somewhere in `s`.
pub fn contains(s: &str, pat: &str) -> (r: bool)
    ensures
        r == has_infix(s@, pat@),
{
    let sc: Vec<char> = to_chars(s);
    let pc: Vec<char> = to_chars(pat);
    proof {
        lemma_find_from(s@, pat@, 0);
    }
    find_chars(&sc, &pc, 0).is_some()
}

/// The first position of a character.
pub fn find_char(s: &Vec<char>, c: char) -> (r: Option<usize>)
    ensures
        match r {
            Some(i) => i < s@.len() && s@[i as int] == c && (forall|k: int|
                0 <= k < i ==> s@[k] != c),
            None => !s@.contains(c),
        },
{
    let mut i: usize = 0;
    while i < s.len()
        invariant
            i <= s@.len(),
            forall|k: int| 0 <= k < i ==> s@[k] != c,
        decreases s@.len() - i,
    {
        if s[i] == c {
            return Some(i);
        }
        i += 1;
    }
    None
}

// ---------------------------------------------------------------------------
// Splitting, joining, replacing
// ---------------------------------------------------------------------------

/// The pieces of `s` between the occurrences of `sep`.
pub fn split_text(s: &str, sep: &str) -> (r: Vec<String>)
    requires
        sep@.len() > 0,
    ensures
        views(r@) == split(s@, sep@),
        r@.len() > 0,
{
    let sc: Vec<char> = to_chars(s);
    let n: usize = sc.len();
    let pc: Vec<char> = to_chars(sep);
    let mut r: Vec<String> = Vec::new();
    let mut i: usize = 0;
    proof {
        assert(views(r@) + split_from(s@, sep@, 0) =~= split(s@, sep@));
    }
    loop
        invariant
            sc@ == s@,
            pc@ == sep@,
            n == sc@.len(),
            sep@.len() > 0,
            i <= sc@.len(),
            views(r@) + split_from(s@, sep@, i as int) == split(s@, sep@),
        decreases sc@.len() - i,
    {
        let ghost before = r@;
        match find_chars(&sc, &pc, i) {
            Some(j) => {
                let piece: String = from_range(&sc, i, j);
                proof {
                    lemma_views_push(before, piece);
                    assert(views(before.push(piece)) + split_from(s@, sep@, j + sep@.len())
                        =~= views(before) + split_from(s@, sep@, i as int));
                }
                r.push(piece);
                i = j + pc.len();
            },
            None => {
                let piece: String = from_range(&sc, i, n);
                proof {
                    lemma_views_push(before, piece);
                    assert(views(before.push(piece)) =~= views(before) + split_from(
                        s@,
                        sep@,
                        i as int,
                    ));
                }
                r.push(piece);
                return r;
            },
        }
    }
}

/// The pieces, with `sep` between neighbours.
pub fn join_text(pieces: &Vec<String>, sep: &str) -> (r: String)
    ensures
        r@ == join(views(pieces@), sep@),
{
    let mut r: String = String::new();
    let mut i: usize = 0;
    let ghost v = views(pieces@);
    while i < pieces.len()
        invariant
            i <= pieces@.len(),
            v == views(pieces@),
            r@ == join(v.take(i as int), sep@),
        decreases pieces@.len() - i,
    {
        if i > 0 {
            r.append(sep);
        }
        r.append(&pieces[i]);
        proof {
            let t = v.take(i as int + 1);
            assert(t.drop_last() =~= v.take(i as int));
            assert(t.last() == pieces@[i as int]@);
            if i == 0 {
                assert(r@ =~= t[0]);
            }
        }
        i += 1;
    }
    proof {
        assert(v.take(i as int) =~= v);
    }
    r
}

/// `s` with `to` in place of each `from`.
pub fn replace_text(s: &str, from: &str, to: &str) -> (r: String)
    ensures
        r@ == replace(s@, from@, to@),
{
    let sc: Vec<char> = to_chars(s);
    let n: usize = sc.len();
    let fc: Vec<char> = to_chars(from);
    let mut r: String = String::new();
    let mut i: usize = 0;
    if fc.len() == 0 {
        while i < sc.len()
            invariant
                i <= sc@.len(),
                r@ == interleave(sc@.take(i as int), to@),
            decreases sc@.len() - i,
        {
            r.append(to);
            r.push(sc[i]);
            proof {
                let t = sc@.take(i as int + 1);
                assert(t.drop_last() =~= sc@.take(i as int));
                assert(r@ =~= interleave(t.drop_last(), to@) + to@ + seq![t.last()]);
            }
            i += 1;
        }
        proof {
            assert(sc@.take(i as int) =~= sc@);
        }
        r.append(to);
        return r;
    }
    proof {
        assert(r@ + replace_from(s@, from@, to@, 0) =~= replace(s@, from@, to@));
    }
    loop
        invariant
            sc@ == s@,
            fc@ == from@,
            n == sc@.len(),
            from@.len() > 0,
            i <= sc@.len(),
            r@ + replace_from(s@, from@, to@, i as int) == replace(s@, from@, to@),
        decreases sc@.len() - i,
    {
        let ghost before = r@;
        match find_chars(&sc, &fc, i) {
            Some(j) => {
                r.append(&from_range(&sc, i, j));
                r.append(to);
                proof {
                    assert(r@ + replace_from(s@, from@, to@, j + from@.len()) =~= before
                        + replace_from(s@, from@, to@, i as int));
                }
                i = j + fc.len();
            },
            None => {
                r.append(&from_range(&sc, i, n));
                return r;
            },
        }
    }
}

// ---------------------------------------------------------------------------
// White space and lines
// ---------------------------------------------------------------------------

/// Whether a character has the Unicode property White_Space.
pub fn is_white_space(c: char) -> (r: bool)
    ensures
        r == white_space(c),
{
    ('\u{9}' <= c && c <= '\u{d}') || c == ' ' || c == '\u{85}' || c == '\u{a0}' || c == '\u{1680}'
        || ('\u{2000}' <= c && c <= '\u{200a}') || c == '\u{2028}' || c == '\u{2029}' || c
        == '\u{202f}' || c == '\u{205f}' || c == '\u{3000}'
}

/// `s` without the white space at either end.
pub fn trim(s: &str) -> (r: String)
    ensures
        r@ == trimmed(s@),
{
    let sc: Vec<char> = to_chars(s);
    let mut a: usize = 0;
    proof {
        assert(s@.skip(0) =~= s@);
    }
    while a < sc.len() && is_white_space(sc[a])
        invariant
            sc@ == s@,
            a <= sc@.len(),
            trim_start(s@) == trim_start(s@.skip(a as int)),
        decreases sc@.len() - a,
    {
        proof {
            assert(s@.skip(a as int).drop_first() =~= s@.skip(a as int + 1));
        }
        a += 1;
    }
    let mut b: usize = sc.len();
    proof {
        assert(trim_start(s@) == s@.skip(a as int));
        assert(s@.skip(a as int) =~= s@.subrange(a as int, b as int));
    }
    while a < b && is_white_space(sc[b - 1])
        invariant
            sc@ == s@,
            a <= b <= sc@.len(),
            trimmed(s@) == trim_end(s@.subrange(a as int, b as int)),
        decreases b - a,
    {
        proof {
            assert(s@.subrange(a as int, b as int).drop_last() =~= s@.subrange(
                a as int,
                b as int - 1,
            ));
        }
        b -= 1;
    }
    from_range(&sc, a, b)
}

/// The lines of `s`.
pub fn lines(s: &str) -> (r: Vec<String>)
    ensures
        views(r@) == line_list(s@),
{
    proof {
        reveal_strlit("\n");
        assert("\n"@ =~= seq!['\n']);
    }
    let pieces: Vec<String> = split_text(s, "\n");
    let ghost p = split(s@, seq!['\n']);
    let n: usize = pieces.len();
    let mut r: Vec<String> = Vec::new();
    let mut i: usize = 0;
    while i < n - 1
        invariant
            n == pieces@.len(),
            n > 0,
            views(pieces@) == p,
            p == split(s@, seq!['\n']),
            i <= n - 1,
            views(r@) == Seq::new(i as nat, |k: int| without_cr(p[k])),
        decreases n - i,
    {
        let chars: Vec<char> = to_chars(&pieces[i]);
        let end: usize = if chars.len() > 0 && chars[chars.len() - 1] == '\r' {
            chars.len() - 1
        } else {
            chars.len()
        };
        let line: String = from_range(&chars, 0, end);
        proof {
            assert(chars@ == p[i as int]);
            assert(line@ =~= without_cr(p[i as int]));
            lemma_views_push(r@, line);
            assert(views(r@.push(line)) =~= Seq::new(
                (i + 1) as nat,
                |k: int| without_cr(p[k]),
            ));
        }
        r.push(line);
        i += 1;
    }
    if !pieces[i].as_str().is_empty() {
        let line: String = pieces[i].clone();
        proof {
            lemma_views_push(r@, line);
            assert(p[i as int] == line@);
            assert(views(r@.push(line)) =~= line_list(s@));
        }
        r.push(line);
    } else {
        proof {
            assert(p[i as int] == pieces@[i as int]@);
            assert(views(r@) =~= line_list(s@));
        }
    }
    r
}

// ---------------------------------------------------------------------------
// Decimal numbers
// ---------------------------------------------------------------------------

/// The number that `s` stands for, where it is at most `max`.
pub fn parse_number(s: &str, max: u64) -> (r: Option<u64>)
    ensures
        match number_of(s@, max as nat) {
            Some(n) => r == Some(n as u64) && n <= max,
            None => r is None,
        },
{
    let sc: Vec<char> = to_chars(s);
    let start: usize = if sc.len() > 0 && sc[0] == '+' {
        1
    } else {
        0
    };
    let ghost digits = s@.skip(start as int);
    proof {
        assert(digits =~= if s@.len() > 0 && s@[0] == '+' {
            s@.drop_first()
        } else {
            s@
        });
    }
    if start == sc.len() {
        return None;
    }
    let mut v: u64 = 0;
    let mut i: usize = start;
    while i < sc.len()
        invariant
            sc@ == s@,
            start <= i <= sc@.len(),
            digits == s@.skip(start as int),
            digits.len() == sc@.len() - start,
            forall|k: int| 0 <= k < i - start ==> is_digit(#[trigger] digits[k]),
            v == decimal_value(digits.take(i - start)),
            v <= max,
            number_of(s@, max as nat) == (if digits.len() > 0 && all_digits(digits)
                && decimal_value(digits) <= max {
                Some(decimal_value(digits))
            } else {
                None
            }),
        decreases sc@.len() - i,
    {
        let c: char = sc[i];
        proof {
            assert(digits[i - start] == c);
        }
        if !('0' <= c && c <= '9') {
            return None;
        }
        let d: u64 = (c as u64) - ('0' as u64);
        proof {
            let t = digits.take(i - start + 1);
            assert(t.drop_last() =~= digits.take(i - start));
            assert(t.last() == c);
            assert(decimal_value(t) == v * 10 + d);
            if all_digits(digits) {
                lemma_decimal_value_prefix(digits, i - start + 1);
            }
        }
        if v > max / 10 || d > max - v * 10 {
            return None;
        }
        v = v * 10 + d;
        i += 1;
    }
    proof {
        assert(digits.take(i - start) =~= digits);
    }
    Some(v)
}

/// The decimal digits of a number.
pub fn number_text(n: u64) -> (r: String)
    ensures
        r@ == decimal_text(n as nat),
    decreases n,
{
    let mut r: String = if n < 10 {
        String::new()
    } else {
        number_text(n / 10)
    };
    let d: u8 = (n % 10) as u8;
    let c: char = (48u8 + d) as char;
    r.push(c);
    proof {
        if n < 10 {
            assert(r@ =~= seq![digit(n as nat)]);
        }
    }
    r
}

/// How many bytes the UTF-8 form of a character has.
pub fn char_bytes(c: char) -> (r: usize)
    ensures
        r == utf8_len(c),
{
    let u: u32 = c as u32;
    if u < 0x80 {
        1
    } else if u < 0x800 {
        2
    } else if u < 0x10000 {
        3
    } else {
        4
    }
}

} // verus!
