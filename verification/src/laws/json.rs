//! Members of JSON values.
use vstd::prelude::*;

use crate::json::{
    keyed_record, lemma_keyed_record, lemma_lookup, lemma_lookup_none, member_keys, optional_member,
    text_list, JsonView,
};
use crate::order::sorted;

verus! {

/// A member of an object is the first with its key. Other values have no members.
pub proof fn law_members(v: JsonView, key: Seq<char>)
    ensures
        v.get(key) is Some ==> v is Record,
        v matches JsonView::Record(members) ==> {
            &&& (forall|i: int|
                0 <= i < members.len() && (#[trigger] members[i]).0 == key && (forall|j: int|
                    0 <= j < i ==> (#[trigger] members[j]).0 != key) ==> v.get(key) == Some(
                    members[i].1,
                ))
            &&& (forall|i: int| 0 <= i < members.len() ==> (#[trigger] members[i]).0 != key)
                ==> v.get(key) is None
        },
{
    if v is Record {
        let members = v->Record_0;
        assert forall|i: int|
            0 <= i < members.len() && (#[trigger] members[i]).0 == key && (forall|j: int|
                0 <= j < i ==> (#[trigger] members[j]).0 != key) implies v.get(key) == Some(
            members[i].1,
        ) by {
            lemma_lookup(members, key, i);
        }
        if forall|i: int| 0 <= i < members.len() ==> (#[trigger] members[i]).0 != key {
            lemma_lookup_none(members, key);
        }
    }
}

/// What is asked of members is asked of their values.
pub proof fn law_values(v: JsonView, key: Seq<char>, inner: Seq<char>)
    ensures
        v.text() == (if v is Text {
            Some(v->Text_0)
        } else {
            None
        }),
        v.list() == (if v is List {
            Some(v->List_0)
        } else {
            None
        }),
        v.get(key) is None ==> v.text_at(key) is None && v.list_at(key) is None && v.get2(
            key,
            inner,
        ) is None,
        v.get(key) matches Some(m) ==> v.text_at(key) == m.text() && v.list_at(key) == m.list()
            && v.get2(key, inner) == m.get(inner),
{
}

/// The keys of an object are those of its members, in order.
pub proof fn law_keys(v: JsonView)
    ensures
        v.keys() is Some <==> v is Record,
        v matches JsonView::Record(members) ==> v.keys()->Some_0.len() == members.len() && (forall|
            i: int,
        |
            0 <= i < members.len() ==> #[trigger] v.keys()->Some_0[i] == members[i].0),
{
}

/// Texts as a JSON value are a list of them.
pub proof fn law_text_list(texts: Seq<Seq<char>>)
    ensures
        text_list(texts) is List,
        text_list(texts)->List_0.len() == texts.len(),
        forall|i: int|
            0 <= i < texts.len() ==> #[trigger] text_list(texts)->List_0[i] == JsonView::Text(
                texts[i],
            ),
{
}

/// An object with given keys has a member for each, in order, and no others.
pub proof fn law_keyed_record(
    keys: Seq<Seq<char>>,
    value: spec_fn(Seq<char>) -> JsonView,
    key: Seq<char>,
)
    ensures
        keys.contains(key) ==> keyed_record(keys, value).get(key) == Some(value(key)),
        !keys.contains(key) ==> keyed_record(keys, value).get(key) is None,
        keyed_record(keys, value).keys() == Some(sorted(keys)),
{
    lemma_keyed_record(keys, value, key);
    let v = keyed_record(keys, value);
    assert(member_keys(v->Record_0) =~= sorted(keys));
}

/// A member that may be missing is there where it has a value.
pub proof fn law_optional_member(key: Seq<char>, value: Option<JsonView>)
    ensures
        value is None ==> optional_member(key, value).len() == 0,
        value matches Some(v) ==> optional_member(key, value) == seq![(key, v)],
{
}

} // verus!
