//! The metadata file and the manifest of a runtime.
use vstd::prelude::*;

use crate::json::{json_views, Json, JsonView};
use crate::json_text::{json_parse, parse_json};
use crate::pairs::string_map;
use crate::table::Table;
use crate::text::{
    find_char, from_range, line_list, lines, opt_view, to_chars, trim, trimmed, views,
};

verus! {

// ---------------------------------------------------------------------------
// Metadata parsing
// ---------------------------------------------------------------------------

/// What was read of a metadata file up to some line.
#[verifier::ext_equal]
pub struct IniView {
    /// The sections that have ended.
    pub sections: Map<Seq<char>, Map<Seq<char>, Seq<char>>>,
    /// The section that has begun.
    pub current: Option<Seq<char>>,
    /// The entries since then.
    pub entries: Map<Seq<char>, Seq<char>>,
}

/// The sections, with the one that has begun.
pub open spec fn saved(s: IniView) -> Map<Seq<char>, Map<Seq<char>, Seq<char>>> {
    match s.current {
        Some(name) => s.sections.insert(name, s.entries),
        None => s.sections,
    }
}

/// A line that says nothing: it is empty or a comment.
pub open spec fn says_nothing(line: Seq<char>) -> bool {
    line.len() == 0 || line[0] == '#' || line[0] == ';'
}

/// A line that begins a section.
pub open spec fn begins_section(line: Seq<char>) -> bool {
    line.len() > 0 && line[0] == '[' && line.last() == ']'
}

/// The place of the first equals sign of a line.
pub open spec fn equals_at(line: Seq<char>, k: int) -> bool {
    0 <= k < line.len() && line[k] == '=' && forall|j: int| 0 <= j < k ==> line[j] != '='
}

/// What is read of a line without the white space at its ends.
pub open spec fn after_line(s: IniView, line: Seq<char>) -> IniView {
    if says_nothing(line) {
        s
    } else if begins_section(line) {
        IniView {
            sections: saved(s),
            current: Some(line.subrange(1, line.len() - 1)),
            entries: Map::empty(),
        }
    } else if line.contains('=') {
        let k = choose|k: int| equals_at(line, k);
        IniView {
            entries: s.entries.insert(trimmed(line.take(k)), trimmed(line.skip(k + 1))),
            ..s
        }
    } else {
        s
    }
}

/// What is read of lines.
pub open spec fn after_lines(lines: Seq<Seq<char>>) -> IniView
    decreases lines.len(),
{
    if lines.len() == 0 {
        IniView { sections: Map::empty(), current: None, entries: Map::empty() }
    } else {
        after_line(after_lines(lines.drop_last()), trimmed(lines.last()))
    }
}

/// The sections of a metadata file.
pub open spec fn metadata_of(content: Seq<char>) -> Map<Seq<char>, Map<Seq<char>, Seq<char>>> {
    saved(after_lines(line_list(content)))
}

/// The sections of a table.
pub open spec fn section_map(t: &Table<Table<String>>) -> Map<
    Seq<char>,
    Map<Seq<char>, Seq<char>>,
> {
    t.map().map_values(|e: Table<String>| string_map(&e))
}

/// A table of sections that are well-formed.
pub open spec fn sections_wf(t: &Table<Table<String>>) -> bool {
    t.wf() && forall|k: Seq<char>| #[trigger] t.has(k) ==> t.at(k).wf()
}

/// Comments and empty lines do not matter.
pub proof fn law_comments_are_skipped(s: IniView, line: Seq<char>)
    requires
        line.len() == 0 || line[0] == '#' || line[0] == ';',
    ensures
        after_line(s, line) == s,
{
}

proof fn lemma_equals_unique(line: Seq<char>, a: int, b: int)
    requires
        equals_at(line, a),
        equals_at(line, b),
    ensures
        a == b,
{
    if a < b {
        assert(line[a] != '=');
    } else if b < a {
        assert(line[b] != '=');
    }
}

/// An entry as it is written is read back: its key and its value, without the
/// white space around them, in the section that has begun.
pub proof fn law_entry_is_read_back(s: IniView, key: Seq<char>, value: Seq<char>)
    requires
        !key.contains('='),
        !says_nothing(key + seq!['='] + value),
        !begins_section(key + seq!['='] + value),
    ensures
        after_line(s, key + seq!['='] + value).entries == s.entries.insert(
            trimmed(key),
            trimmed(value),
        ),
        after_line(s, key + seq!['='] + value).current == s.current,
        after_line(s, key + seq!['='] + value).sections == s.sections,
{
    let line = key + seq!['='] + value;
    let n = key.len() as int;
    assert(line[n] == '=');
    assert forall|j: int| 0 <= j < n implies line[j] != '=' by {
        assert(key.contains(key[j]));
    }
    assert(equals_at(line, n));
    assert(line.contains('='));
    lemma_equals_unique(line, n, choose|k: int| equals_at(line, k));
    assert(line.take(n) =~= key);
    assert(line.skip(n + 1) =~= value);
}

/// Parse a simple INI-format metadata file. There is nothing where it has no
/// section.
pub fn parse_metadata(content: &str) -> (r: Option<Table<Table<String>>>)
    ensures
        match r {
            Some(t) => sections_wf(&t) && section_map(&t) == metadata_of(content@)
                && t.key_list().len() > 0,
            None => metadata_of(content@) == Map::<Seq<char>, Map<Seq<char>, Seq<char>>>::empty(),
        },
{
    let all: Vec<String> = lines(content);
    let ghost v = line_list(content@);
    let mut sections: Table<Table<String>> = Table::new();
    let mut current: Option<String> = None;
    let mut entries: Table<String> = Table::new();
    let mut i: usize = 0;
    proof {
        assert(section_map(&sections) =~= Map::empty());
        assert(string_map(&entries) =~= Map::empty());
    }
    while i < all.len()
        invariant
            i <= all@.len(),
            v == views(all@),
            sections_wf(&sections),
            entries.wf(),
            after_lines(v.take(i as int)) == (IniView {
                sections: section_map(&sections),
                current: opt_view(current),
                entries: string_map(&entries),
            }),
            current is None ==> sections.key_list().len() == 0,
        decreases all@.len() - i,
    {
        let line: String = trim(&all[i]);
        let ghost s0 = after_lines(v.take(i as int));
        proof {
            let t = v.take(i as int + 1);
            assert(t.drop_last() =~= v.take(i as int));
            assert(t.last() == all@[i as int]@);
        }
        let chars: Vec<char> = to_chars(&line);
        let n: usize = chars.len();
        if n == 0 || chars[0] == '#' || chars[0] == ';' {
        } else if chars[0] == '[' && chars[n - 1] == ']' {
            // Save previous section
            let ghost sections0 = sections;
            match current {
                Some(name) => {
                    let ghost e = string_map(&entries);
                    sections.insert(name, entries);
                    proof {
                        assert(section_map(&sections) =~= section_map(&sections0).insert(name@, e));
                    }
                },
                None => {},
            }
            current = Some(from_range(&chars, 1, n - 1));
            entries = Table::new();
            proof {
                assert(string_map(&entries) =~= Map::empty());
                assert(after_line(s0, line@) == (IniView {
                    sections: section_map(&sections),
                    current: opt_view(current),
                    entries: string_map(&entries),
                }));
            }
        } else {
            match find_char(&chars, '=') {
                Some(k) => {
                    let key: String = trim(&from_range(&chars, 0, k));
                    let value: String = trim(&from_range(&chars, k + 1, n));
                    let ghost entries0 = entries;
                    proof {
                        assert(equals_at(line@, k as int));
                        lemma_equals_unique(line@, k as int, choose|j: int| equals_at(line@, j));
                        assert(line@.contains('='));
                        assert(line@.take(k as int) =~= chars@.subrange(0, k as int));
                        assert(line@.skip(k as int + 1) =~= chars@.subrange(k as int + 1, n as int));
                    }
                    entries.insert(key, value);
                    proof {
                        assert(string_map(&entries) =~= string_map(&entries0).insert(key@, value@));
                        assert(after_line(s0, line@) == (IniView {
                            sections: section_map(&sections),
                            current: opt_view(current),
                            entries: string_map(&entries),
                        }));
                    }
                },
                None => {},
            }
        }
        i += 1;
    }
    proof {
        assert(v.take(i as int) =~= v);
    }
    // Save last section
    match current {
        Some(name) => {
            let ghost sections0 = sections;
            let ghost e = string_map(&entries);
            sections.insert(name, entries);
            proof {
                assert(section_map(&sections) =~= section_map(&sections0).insert(name@, e));
                assert(sections.has(name@));
            }
            Some(sections)
        },
        None => {
            proof {
                assert(section_map(&sections) =~= Map::empty());
            }
            None
        },
    }
}

// ---------------------------------------------------------------------------
// Manifest parsing
// ---------------------------------------------------------------------------

/// A product that a runtime holds.
pub struct Product {
    pub name: String,
    pub version: String,
}

impl Product {
    pub open spec fn view(self) -> (Seq<char>, Seq<char>) {
        (self.name@, self.version@)
    }
}

pub open spec fn product_views(list: Seq<Product>) -> Seq<(Seq<char>, Seq<char>)> {
    list.map_values(|p: Product| p.view())
}

/// The text of a member, or none.
pub open spec fn text_or_empty(v: JsonView, key: Seq<char>) -> Seq<char> {
    match v.text_at(key) {
        Some(s) => s,
        None => seq![],
    }
}

/// The product information of an item of a manifest.
pub open spec fn cpe_of(item: JsonView) -> Option<JsonView> {
    match item.get("x-cpe"@) {
        Some(v) => if v is Record {
            Some(v)
        } else {
            None
        },
        None => None,
    }
}

/// The name and version of an item of a manifest.
pub open spec fn item_product(item: JsonView) -> (Seq<char>, Seq<char>) {
    match cpe_of(item) {
        Some(cpe) => (
            match cpe.text_at("product"@) {
                Some(name) => name,
                None => text_or_empty(item, "name"@),
            },
            text_or_empty(cpe, "version"@),
        ),
        None => (
            text_or_empty(item, "name"@),
            if item.text_at("name"@) is Some {
                text_or_empty(item, "version"@)
            } else {
                seq![]
            },
        ),
    }
}

/// The products of the items of a manifest. Items without a name are left out.
pub open spec fn item_products(items: Seq<JsonView>) -> Seq<(Seq<char>, Seq<char>)>
    decreases items.len(),
{
    if items.len() == 0 {
        seq![]
    } else {
        let before = item_products(items.drop_last());
        let product = item_product(items.last());
        if product.0.len() > 0 {
            before.push(product)
        } else {
            before
        }
    }
}

/// The items of a manifest: the list itself, or its modules, or its components.
pub open spec fn manifest_items(raw: JsonView) -> Option<Seq<JsonView>> {
    match raw.list() {
        Some(list) => Some(list),
        None => match raw.list_at("modules"@) {
            Some(list) => Some(list),
            None => raw.list_at("components"@),
        },
    }
}

/// The products of a manifest, where there are any.
pub open spec fn manifest_products(raw: JsonView) -> Option<Seq<(Seq<char>, Seq<char>)>> {
    match manifest_items(raw) {
        Some(items) => if item_products(items).len() > 0 {
            Some(item_products(items))
        } else {
            None
        },
        None => None,
    }
}

fn member_text(v: &Json, key: &str) -> (r: String)
    ensures
        r@ == text_or_empty(v@, key@),
{
    match v.text_at(key) {
        Some(s) => s.clone(),
        None => String::new(),
    }
}

fn read_product(item: &Json) -> (r: Product)
    ensures
        r@ == item_product(item@),
{
    match item.get("x-cpe") {
        Some(cpe) => {
            if let Json::Record(_) = cpe {
                let name: String = match cpe.text_at("product") {
                    Some(name) => name.clone(),
                    None => member_text(item, "name"),
                };
                return Product { name, version: member_text(cpe, "version") };
            }
        },
        None => {},
    }
    match item.text_at("name") {
        Some(name) => Product { name: name.clone(), version: member_text(item, "version") },
        None => Product { name: String::new(), version: String::new() },
    }
}

fn read_items(items: &Vec<Json>) -> (r: Option<Vec<Product>>)
    ensures
        match r {
            Some(list) => product_views(list@) == item_products(json_views(items@)) && list@.len()
                > 0,
            None => item_products(json_views(items@)).len() == 0,
        },
{
    let ghost v = json_views(items@);
    let mut r: Vec<Product> = Vec::new();
    let mut i: usize = 0;
    proof {
        assert(product_views(r@) =~= item_products(v.take(0)));
    }
    while i < items.len()
        invariant
            i <= items@.len(),
            v == json_views(items@),
            product_views(r@) == item_products(v.take(i as int)),
        decreases items@.len() - i,
    {
        let product: Product = read_product(&items[i]);
        proof {
            let t = v.take(i as int + 1);
            assert(t.drop_last() =~= v.take(i as int));
            assert(t.last() == items@[i as int]@);
            assert(product_views(r@.push(product)) =~= product_views(r@).push(product@));
        }
        if !product.name.as_str().is_empty() {
            r.push(product);
        }
        i += 1;
    }
    proof {
        assert(v.take(i as int) =~= v);
        assert(product_views(r@).len() == r@.len());
    }
    if r.len() > 0 {
        Some(r)
    } else {
        None
    }
}

/// The products of a manifest, from its JSON value.
pub fn parse_manifest(raw: &Json) -> (r: Option<Vec<Product>>)
    ensures
        match r {
            Some(list) => manifest_products(raw@) == Some(product_views(list@)),
            None => manifest_products(raw@) is None,
        },
{
    match raw.list() {
        Some(list) => read_items(list),
        None => match raw.list_at("modules") {
            Some(list) => read_items(list),
            None => match raw.list_at("components") {
                Some(list) => read_items(list),
                None => None,
            },
        },
    }
}

/// Parse the manifest of a runtime for CPE product information. A text that is no
/// JSON has none.
pub fn parse_manifest_text(content: &str) -> (r: Option<Vec<Product>>)
    ensures
        match r {
            Some(list) => json_parse(content@) is Some && manifest_products(
                json_parse(content@)->Some_0,
            ) == Some(product_views(list@)),
            None => json_parse(content@) is None || manifest_products(
                json_parse(content@)->Some_0,
            ) is None,
        },
{
    match parse_json(content) {
        Ok(raw) => parse_manifest(&raw),
        Err(_) => None,
    }
}

} // verus!
