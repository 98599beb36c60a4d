//! Metadata files and manifests of runtimes.
use vstd::prelude::*;

use crate::json::JsonView;
use crate::metadata::{
    after_line, after_lines, equals_at, item_product, item_products, law_entry_is_read_back,
    manifest_items, manifest_products, metadata_of, saved, IniView,
};
use crate::text::{line_list, trimmed};

verus! {

// ---------------------------------------------------------------------------
// Metadata
// ---------------------------------------------------------------------------

/// A line that begins a section.
pub open spec fn is_header(line: Seq<char>, name: Seq<char>) -> bool {
    trimmed(line) == seq!['['] + name + seq![']']
}

/// A line that begins some section.
pub open spec fn is_some_header(line: Seq<char>) -> bool {
    exists|name: Seq<char>| is_header(line, name)
}

/// A line that is empty or a comment.
pub open spec fn is_comment(line: Seq<char>) -> bool {
    trimmed(line).len() == 0 || trimmed(line)[0] == '#' || trimmed(line)[0] == ';'
}

/// A line with a key, an equals sign and a value.
pub open spec fn is_entry(line: Seq<char>, key: Seq<char>, value: Seq<char>) -> bool {
    &&& !is_comment(line)
    &&& !is_some_header(line)
    &&& exists|a: Seq<char>, b: Seq<char>|
        trimmed(line) == #[trigger] (a + seq!['='] + b) && !a.contains('=') && key == trimmed(a)
            && value == trimmed(b)
}

/// A line with a key.
pub open spec fn has_key(line: Seq<char>, key: Seq<char>) -> bool {
    exists|value: Seq<char>| is_entry(line, key, value)
}

/// Lines `first + 1` up to `end` are those of the section that begins at `first`.
pub open spec fn is_section(lines: Seq<Seq<char>>, first: int, end: int) -> bool {
    &&& 0 <= first < end <= lines.len()
    &&& is_some_header(lines[first])
    &&& forall|m: int| first < m < end ==> !is_some_header(#[trigger] lines[m])
    &&& end < lines.len() ==> is_some_header(lines[end])
}

proof fn lemma_header(s: IniView, line: Seq<char>)
    ensures
        !is_comment(line) ==> (crate::metadata::begins_section(trimmed(line)) <==> is_some_header(
            line,
        )),
        forall|name: Seq<char>| #[trigger]
            is_header(line, name) ==> !is_comment(line) && after_line(s, trimmed(line)) == (
            IniView { sections: saved(s), current: Some(name), entries: Map::empty() }),
{
    let t = trimmed(line);
    if crate::metadata::begins_section(t) {
        let name = t.subrange(1, t.len() - 1);
        assert(t =~= seq!['['] + name + seq![']']);
        assert(is_header(line, name));
    }
    assert forall|name: Seq<char>| #[trigger] is_header(line, name) implies !is_comment(line)
        && after_line(s, t) == (IniView {
        sections: saved(s),
        current: Some(name),
        entries: Map::empty(),
    }) && crate::metadata::begins_section(t) by {
        assert(t[0] == '[');
        assert(t.last() == ']');
        assert(t.subrange(1, t.len() - 1) =~= name);
    }
}

proof fn lemma_line(s: IniView, line: Seq<char>)
    requires
        !is_some_header(line),
    ensures
        after_line(s, trimmed(line)).sections == s.sections,
        after_line(s, trimmed(line)).current == s.current,
        forall|key: Seq<char>, value: Seq<char>| #[trigger]
            is_entry(line, key, value) ==> after_line(s, trimmed(line)).entries
                == s.entries.insert(key, value),
        forall|key: Seq<char>|
            !#[trigger] has_key(line, key) ==> (after_line(s, trimmed(line)).entries.contains_key(
                key,
            ) <==> s.entries.contains_key(key)) && after_line(s, trimmed(line)).entries[key]
                == s.entries[key],
{
    let t = trimmed(line);
    lemma_header(s, line);
    assert forall|key: Seq<char>, value: Seq<char>| #[trigger]
        is_entry(line, key, value) implies after_line(s, t).entries == s.entries.insert(
        key,
        value,
    ) by {
        let (a, b) = choose|a: Seq<char>, b: Seq<char>|
            t == #[trigger] (a + seq!['='] + b) && !a.contains('=') && key == trimmed(a) && value
                == trimmed(b);
        law_entry_is_read_back(s, a, b);
    }
    if !is_comment(line) && t.contains('=') {
        let n = lemma_first_equals(t, 0);
        let k = choose|k: int| equals_at(t, k);
        assert(equals_at(t, n));
        let a = t.take(k);
        let b = t.skip(k + 1);
        assert(t =~= a + seq!['='] + b);
        assert(!a.contains('=')) by {
            if a.contains('=') {
                assert(t[a.index_of('=')] == '=');
            }
        }
        assert(is_entry(line, trimmed(a), trimmed(b)));
        assert(has_key(line, trimmed(a)));
    }
}

proof fn lemma_first_equals(t: Seq<char>, from: int) -> (k: int)
    requires
        0 <= from <= t.len(),
        t.contains('='),
        forall|j: int| 0 <= j < from ==> t[j] != '=',
    ensures
        equals_at(t, k),
    decreases t.len() - from,
{
    if from == t.len() {
        assert(t[t.index_of('=')] == '=');
        0
    } else if t[from] == '=' {
        from
    } else {
        lemma_first_equals(t, from + 1)
    }
}

/// What is read of the lines of a section so far.
proof fn lemma_in_section(
    lines: Seq<Seq<char>>,
    first: int,
    n: int,
    name: Seq<char>,
    key: Seq<char>,
    j: int,
    value: Seq<char>,
)
    requires
        0 <= first < n <= lines.len(),
        is_header(lines[first], name),
        forall|m: int| first < m < n ==> !is_some_header(#[trigger] lines[m]),
    ensures
        after_lines(lines.take(n)).current == Some(name),
        first < j < n && is_entry(lines[j], key, value) && (forall|m: int|
            j < m < n ==> !has_key(#[trigger] lines[m], key)) ==> after_lines(
            lines.take(n),
        ).entries.contains_key(key) && after_lines(lines.take(n)).entries[key] == value,
        (forall|m: int| first < m < n ==> !has_key(#[trigger] lines[m], key)) ==> !after_lines(
            lines.take(n),
        ).entries.contains_key(key),
    decreases n,
{
    let line = lines[n - 1];
    let old = lines.take(n - 1);
    let s = after_lines(old);
    assert(lines.take(n).drop_last() =~= old);
    assert(lines.take(n).last() == line);
    if n == first + 1 {
        lemma_header(s, line);
    } else {
        lemma_in_section(lines, first, n - 1, name, key, j, value);
        lemma_line(s, line);
        assert(!is_some_header(lines[n - 1]));
        if first < j < n && is_entry(lines[j], key, value) && (forall|m: int|
            j < m < n ==> !has_key(#[trigger] lines[m], key)) {
            if j < n - 1 {
                assert(!has_key(lines[n - 1], key));
            }
        }
        if forall|m: int| first < m < n ==> !has_key(#[trigger] lines[m], key) {
            assert(!has_key(lines[n - 1], key));
        }
    }
}

/// A section stays as it was read, where no other has its name.
proof fn lemma_after_section(lines: Seq<Seq<char>>, first: int, end: int, n: int, name: Seq<char>)
    requires
        is_section(lines, first, end),
        is_header(lines[first], name),
        end <= n <= lines.len(),
        forall|m: int| end <= m < n ==> !is_header(#[trigger] lines[m], name),
    ensures
        saved(after_lines(lines.take(n))).contains_key(name),
        saved(after_lines(lines.take(n)))[name] == after_lines(lines.take(end)).entries,
        n > end ==> after_lines(lines.take(n)).current is Some && after_lines(
            lines.take(n),
        ).current != Some(name),
    decreases n,
{
    if n == end {
        lemma_in_section(lines, first, end, name, name, 0, name);
    } else {
        lemma_after_section(lines, first, end, n - 1, name);
        let line = lines[n - 1];
        let s = after_lines(lines.take(n - 1));
        assert(lines.take(n).drop_last() =~= lines.take(n - 1));
        assert(lines.take(n).last() == line);
        assert(!is_header(line, name));
        if is_some_header(line) {
            let other = choose|other: Seq<char>| is_header(line, other);
            lemma_header(s, line);
            assert(other != name);
        } else {
            assert(n - 1 > end);
            lemma_line(s, line);
        }
    }
}

/// The value of a key in a section is that of its last entry in the last section with its
/// name, without the white space around it.
pub proof fn law_metadata_entry(
    content: Seq<char>,
    first: int,
    end: int,
    name: Seq<char>,
    j: int,
    key: Seq<char>,
    value: Seq<char>,
)
    requires
        is_section(line_list(content), first, end),
        is_header(line_list(content)[first], name),
        forall|m: int|
            end <= m < line_list(content).len() ==> !is_header(
                #[trigger] line_list(content)[m],
                name,
            ),
        first < j < end,
        is_entry(line_list(content)[j], key, value),
        forall|m: int| j < m < end ==> !has_key(#[trigger] line_list(content)[m], key),
    ensures
        metadata_of(content).contains_key(name),
        metadata_of(content)[name].contains_key(key),
        metadata_of(content)[name][key] == value,
{
    let lines = line_list(content);
    lemma_after_section(lines, first, end, lines.len() as int, name);
    lemma_in_section(lines, first, end, name, key, j, value);
    assert(lines.take(lines.len() as int) =~= lines);
}

/// A key of which the last section with a name has no entry is not in it.
pub proof fn law_no_other_entries(
    content: Seq<char>,
    first: int,
    end: int,
    name: Seq<char>,
    key: Seq<char>,
)
    requires
        is_section(line_list(content), first, end),
        is_header(line_list(content)[first], name),
        forall|m: int|
            end <= m < line_list(content).len() ==> !is_header(
                #[trigger] line_list(content)[m],
                name,
            ),
        forall|m: int| first < m < end ==> !has_key(#[trigger] line_list(content)[m], key),
    ensures
        metadata_of(content).contains_key(name),
        !metadata_of(content)[name].contains_key(key),
{
    let lines = line_list(content);
    lemma_after_section(lines, first, end, lines.len() as int, name);
    lemma_in_section(lines, first, end, name, key, 0, key);
    assert(lines.take(lines.len() as int) =~= lines);
}

/// There are no sections but those that begin somewhere.
pub proof fn law_no_other_sections(content: Seq<char>, name: Seq<char>)
    requires
        metadata_of(content).contains_key(name),
    ensures
        exists|i: int|
            0 <= i < line_list(content).len() && is_header(#[trigger] line_list(content)[i], name),
{
    lemma_sections(line_list(content), name);
}

proof fn lemma_sections(lines: Seq<Seq<char>>, name: Seq<char>)
    requires
        saved(after_lines(lines)).contains_key(name),
    ensures
        exists|i: int| 0 <= i < lines.len() && is_header(#[trigger] lines[i], name),
    decreases lines.len(),
{
    if lines.len() > 0 {
        let rest = lines.drop_last();
        let line = lines.last();
        let s = after_lines(rest);
        lemma_header(s, line);
        if is_header(line, name) {
            assert(is_header(lines[lines.len() - 1], name));
        } else {
            if is_some_header(line) {
                let other = choose|other: Seq<char>| is_header(line, other);
                assert(after_line(s, trimmed(line)).current == Some(other));
            } else {
                lemma_line(s, line);
            }
            lemma_sections(rest, name);
            let i = choose|i: int| 0 <= i < rest.len() && is_header(#[trigger] rest[i], name);
            assert(lines[i] == rest[i]);
        }
    }
}

// ---------------------------------------------------------------------------
// Manifests
// ---------------------------------------------------------------------------

/// A text under a key, or nothing.
pub open spec fn text_of(v: JsonView, key: Seq<char>) -> Seq<char> {
    if v.get(key) is Some && v.get(key)->Some_0 is Text {
        v.get(key)->Some_0->Text_0
    } else {
        Seq::empty()
    }
}

/// An item of a manifest with product information is the product of that name, or else of
/// the name of the item, in the version that the information gives. Another item is the
/// product of its own name and version.
pub proof fn law_item_product(item: JsonView)
    ensures
        ({
            let cpe = item.get("x-cpe"@);
            if cpe is Some && cpe->Some_0 is Record {
                let info = cpe->Some_0;
                &&& item_product(item).1 == text_of(info, "version"@)
                &&& item_product(item).0 == (if info.get("product"@) is Some && info.get(
                    "product"@,
                )->Some_0 is Text {
                    text_of(info, "product"@)
                } else {
                    text_of(item, "name"@)
                })
            } else {
                &&& item_product(item).0 == text_of(item, "name"@)
                &&& item_product(item).1 == (if item.get("name"@) is Some && item.get(
                    "name"@,
                )->Some_0 is Text {
                    text_of(item, "version"@)
                } else {
                    Seq::empty()
                })
            }
        }),
{
}

/// The products of a manifest are those of its items that have a name, in order.
pub proof fn law_item_products(items: Seq<JsonView>)
    ensures
        item_products(items) == items.map_values(|item: JsonView| item_product(item)).filter(
            |p: (Seq<char>, Seq<char>)| p.0.len() > 0,
        ),
    decreases items.len(),
{
    reveal(Seq::filter);
    let product = |item: JsonView| item_product(item);
    let named = |p: (Seq<char>, Seq<char>)| p.0.len() > 0;
    let all = items.map_values(product);
    if items.len() > 0 {
        law_item_products(items.drop_last());
        assert(all.drop_last() =~= items.drop_last().map_values(product));
        assert(all.last() == item_product(items.last()));
    }
    assert(item_products(items) =~= all.filter(named));
}

/// The items of a manifest are the manifest itself, its modules or its components: the
/// first of these that is a list. A manifest without products gives none.
pub proof fn law_manifest(raw: JsonView)
    ensures
        raw matches JsonView::List(list) ==> manifest_items(raw) == Some(list),
        !(raw is List) ==> match raw.get("modules"@) {
            Some(JsonView::List(list)) => manifest_items(raw) == Some(list),
            _ => match raw.get("components"@) {
                Some(JsonView::List(list)) => manifest_items(raw) == Some(list),
                _ => manifest_items(raw) is None,
            },
        },
        manifest_products(raw) is Some <==> manifest_items(raw) is Some && item_products(
            manifest_items(raw)->Some_0,
        ).len() > 0,
        manifest_products(raw) matches Some(list) ==> list == item_products(
            manifest_items(raw)->Some_0,
        ),
{
}

} // verus!
