//! JSON values: what the index and the plan are made of.
use vstd::prelude::*;

use crate::order::{lemma_sorted, sorted};
use crate::text::{lemma_views_push, same_text, views};

verus! {

/// A JSON value. Numbers that are no unsigned integers are `Other`: nothing
/// reads them.
pub enum Json {
    Null,
    Bool(bool),
    Number(u64),
    Other,
    Text(String),
    List(Vec<Json>),
    Record(Vec<Member>),
}

/// A member of a JSON object.
pub struct Member {
    pub key: String,
    pub value: Json,
}

/// The model of a JSON value.
pub enum JsonView {
    Null,
    Bool(bool),
    Number(u64),
    Other,
    Text(Seq<char>),
    List(Seq<JsonView>),
    Record(Seq<(Seq<char>, JsonView)>),
}

/// The value of the first member with the given key.
pub open spec fn lookup(members: Seq<(Seq<char>, JsonView)>, key: Seq<char>) -> Option<JsonView>
    decreases members.len(),
{
    if members.len() == 0 {
        None
    } else if members[0].0 == key {
        Some(members[0].1)
    } else {
        lookup(members.drop_first(), key)
    }
}

/// The keys of members.
pub open spec fn member_keys(members: Seq<(Seq<char>, JsonView)>) -> Seq<Seq<char>> {
    members.map_values(|m: (Seq<char>, JsonView)| m.0)
}

impl JsonView {
    /// The member of an object with the given key.
    pub open spec fn get(self, key: Seq<char>) -> Option<JsonView> {
        match self {
            JsonView::Record(members) => lookup(members, key),
            _ => None,
        }
    }

    pub open spec fn text(self) -> Option<Seq<char>> {
        match self {
            JsonView::Text(s) => Some(s),
            _ => None,
        }
    }

    pub open spec fn list(self) -> Option<Seq<JsonView>> {
        match self {
            JsonView::List(v) => Some(v),
            _ => None,
        }
    }

    /// The keys of an object.
    pub open spec fn keys(self) -> Option<Seq<Seq<char>>> {
        match self {
            JsonView::Record(members) => Some(member_keys(members)),
            _ => None,
        }
    }

    /// The text of a member.
    pub open spec fn text_at(self, key: Seq<char>) -> Option<Seq<char>> {
        match self.get(key) {
            Some(v) => v.text(),
            None => None,
        }
    }

    /// The list of a member.
    pub open spec fn list_at(self, key: Seq<char>) -> Option<Seq<JsonView>> {
        match self.get(key) {
            Some(v) => v.list(),
            None => None,
        }
    }

    /// A member of a member.
    pub open spec fn get2(self, key: Seq<char>, inner: Seq<char>) -> Option<JsonView> {
        match self.get(key) {
            Some(v) => v.get(inner),
            None => None,
        }
    }
}

/// A list of texts as a JSON value.
pub open spec fn text_list(texts: Seq<Seq<char>>) -> JsonView {
    JsonView::List(texts.map_values(|t: Seq<char>| JsonView::Text(t)))
}

/// `text` is an element of `list`.
pub open spec fn lists_text(list: Seq<JsonView>, text: Seq<char>) -> bool {
    list.contains(JsonView::Text(text))
}

/// A key that stands once is found with its value.
pub proof fn lemma_lookup(members: Seq<(Seq<char>, JsonView)>, key: Seq<char>, i: int)
    requires
        0 <= i < members.len(),
        members[i].0 == key,
        forall|j: int| 0 <= j < i ==> (#[trigger] members[j]).0 != key,
    ensures
        lookup(members, key) == Some(members[i].1),
    decreases i,
{
    if i > 0 {
        let rest = members.drop_first();
        assert forall|j: int| 0 <= j < i - 1 implies (#[trigger] rest[j]).0 != key by {
            assert(members[j + 1].0 != key);
        }
        lemma_lookup(rest, key, i - 1);
    }
}

pub proof fn lemma_lookup_none(members: Seq<(Seq<char>, JsonView)>, key: Seq<char>)
    requires
        forall|j: int| 0 <= j < members.len() ==> (#[trigger] members[j]).0 != key,
    ensures
        lookup(members, key) is None,
    decreases members.len(),
{
    if members.len() > 0 {
        let rest = members.drop_first();
        assert forall|j: int| 0 <= j < rest.len() implies (#[trigger] rest[j]).0 != key by {
            assert(members[j + 1].0 != key);
        }
        lemma_lookup_none(rest, key);
    }
}

/// A key is found in the first of two rows of members that has it.
pub proof fn lemma_lookup_concat(
    a: Seq<(Seq<char>, JsonView)>,
    b: Seq<(Seq<char>, JsonView)>,
    key: Seq<char>,
)
    ensures
        lookup(a + b, key) == (match lookup(a, key) {
            Some(v) => Some(v),
            None => lookup(b, key),
        }),
    decreases a.len(),
{
    if a.len() == 0 {
        assert(a + b =~= b);
    } else {
        assert((a + b).drop_first() =~= a.drop_first() + b);
        assert((a + b)[0] == a[0]);
        lemma_lookup_concat(a.drop_first(), b, key);
    }
}

/// A member, where there is a value.
pub open spec fn optional_member(key: Seq<char>, value: Option<JsonView>) -> Seq<
    (Seq<char>, JsonView),
> {
    match value {
        Some(v) => seq![(key, v)],
        None => seq![],
    }
}

/// A member that may be there is found where it is.
pub proof fn lemma_optional_member(key: Seq<char>, value: Option<JsonView>, other: Seq<char>)
    ensures
        lookup(optional_member(key, value), other) == (if key == other {
            value
        } else {
            None
        }),
{
    match value {
        Some(v) => {
            if key == other {
                lemma_lookup(seq![(key, v)], other, 0);
            } else {
                lemma_lookup_none(seq![(key, v)], other);
            }
        },
        None => {},
    }
}

/// An object with the given keys, in order, and a value for each.
pub open spec fn keyed_record(
    keys: Seq<Seq<char>>,
    value: spec_fn(Seq<char>) -> JsonView,
) -> JsonView {
    JsonView::Record(sorted(keys).map_values(|k: Seq<char>| (k, value(k))))
}

/// An object with the given keys has those, with their values.
pub proof fn lemma_keyed_record(
    keys: Seq<Seq<char>>,
    value: spec_fn(Seq<char>) -> JsonView,
    key: Seq<char>,
)
    ensures
        keyed_record(keys, value).get(key) == (if keys.contains(key) {
            Some(value(key))
        } else {
            None
        }),
{
    let all = sorted(keys);
    let members = keyed_record(keys, value)->Record_0;
    lemma_sorted(keys);
    if keys.contains(key) {
        assert(all.contains(key));
        let i = lemma_first_place(all, key);
        lemma_lookup(members, key, i);
    } else {
        assert forall|j: int| 0 <= j < members.len() implies (#[trigger] members[j]).0 != key by {
            assert(all.contains(all[j]));
        }
        lemma_lookup_none(members, key);
    }
}

/// The first place of an element.
proof fn lemma_first_place(s: Seq<Seq<char>>, x: Seq<char>) -> (i: int)
    requires
        s.contains(x),
    ensures
        0 <= i < s.len(),
        s[i] == x,
        forall|j: int| 0 <= j < i ==> s[j] != x,
    decreases s.len(),
{
    if s.drop_last().contains(x) {
        let rest = s.drop_last();
        let i = lemma_first_place(rest, x);
        assert forall|j: int| 0 <= j < i implies s[j] != x by {
            assert(rest[j] == s[j]);
        }
        i
    } else {
        assert(s[s.index_of(x)] == x);
        assert forall|j: int| 0 <= j < s.len() - 1 implies s[j] != x by {
            if s[j] == x {
                assert(s.drop_last()[j] == x);
            }
        }
        s.len() - 1
    }
}

/// The models of a list of values.
pub open spec fn json_views(list: Seq<Json>) -> Seq<JsonView> {
    list.map_values(|v: Json| v.view())
}

/// The models of the members of an object.
pub open spec fn member_views(list: Seq<Member>) -> Seq<(Seq<char>, JsonView)> {
    list.map_values(|m: Member| (m.key@, m.value.view()))
}

impl Json {
    pub open spec fn view(self) -> JsonView
        decreases self,
    {
        match self {
            Json::Null => JsonView::Null,
            Json::Bool(b) => JsonView::Bool(b),
            Json::Number(n) => JsonView::Number(n),
            Json::Other => JsonView::Other,
            Json::Text(s) => JsonView::Text(s@),
            Json::List(v) => JsonView::List(
                Seq::new(
                    v@.len(),
                    |i: int|
                        if 0 <= i < v@.len() {
                            v@[i].view()
                        } else {
                            JsonView::Null
                        },
                ),
            ),
            Json::Record(v) => JsonView::Record(
                Seq::new(
                    v@.len(),
                    |i: int|
                        if 0 <= i < v@.len() {
                            (v@[i].key@, v@[i].value.view())
                        } else {
                            (seq![], JsonView::Null)
                        },
                ),
            ),
        }
    }

    /// The member of an object with the given key.
    pub fn get(&self, key: &str) -> (r: Option<&Json>)
        ensures
            match r {
                Some(v) => self@.get(key@) == Some(v@),
                None => self@.get(key@) is None,
            },
    {
        match self {
            Json::Record(members) => {
                let ghost all = member_views(members@);
                proof {
                    lemma_view(*self);
                    assert(all.skip(0) =~= all);
                }
                let mut i: usize = 0;
                while i < members.len()
                    invariant
                        i <= members@.len(),
                        all == member_views(members@),
                        self@.get(key@) == lookup(all.skip(i as int), key@),
                    decreases members@.len() - i,
                {
                    proof {
                        assert(all.skip(i as int)[0] == all[i as int]);
                        assert(all.skip(i as int).drop_first() =~= all.skip(i as int + 1));
                    }
                    if same_text(&members[i].key, key) {
                        return Some(&members[i].value);
                    }
                    i += 1;
                }
                None
            },
            _ => None,
        }
    }

    pub fn text(&self) -> (r: Option<&String>)
        ensures
            match r {
                Some(s) => self@.text() == Some(s@),
                None => self@.text() is None,
            },
    {
        match self {
            Json::Text(s) => Some(s),
            _ => None,
        }
    }

    pub fn list(&self) -> (r: Option<&Vec<Json>>)
        ensures
            match r {
                Some(v) => self@.list() == Some(json_views(v@)),
                None => self@.list() is None,
            },
    {
        proof {
            lemma_view(*self);
        }
        match self {
            Json::List(v) => Some(v),
            _ => None,
        }
    }

    /// The keys of an object.
    pub fn keys(&self) -> (r: Option<Vec<String>>)
        ensures
            match r {
                Some(list) => self@.keys() == Some(views(list@)),
                None => self@.keys() is None,
            },
    {
        proof {
            lemma_view(*self);
        }
        match self {
            Json::Record(members) => {
                let ghost all = member_keys(member_views(members@));
                let mut r: Vec<String> = Vec::new();
                let mut i: usize = 0;
                while i < members.len()
                    invariant
                        i <= members@.len(),
                        all == member_keys(member_views(members@)),
                        views(r@) == all.take(i as int),
                    decreases members@.len() - i,
                {
                    let key: String = members[i].key.clone();
                    proof {
                        lemma_views_push(r@, key);
                        assert(all[i as int] == key@);
                        assert(all.take(i as int + 1) =~= all.take(i as int).push(key@));
                    }
                    r.push(key);
                    i += 1;
                }
                proof {
                    assert(all.take(i as int) =~= all);
                }
                Some(r)
            },
            _ => None,
        }
    }

    /// The text of a member.
    pub fn text_at(&self, key: &str) -> (r: Option<&String>)
        ensures
            match r {
                Some(s) => self@.text_at(key@) == Some(s@),
                None => self@.text_at(key@) is None,
            },
    {
        match self.get(key) {
            Some(v) => v.text(),
            None => None,
        }
    }

    /// The list of a member.
    pub fn list_at(&self, key: &str) -> (r: Option<&Vec<Json>>)
        ensures
            match r {
                Some(v) => self@.list_at(key@) == Some(json_views(v@)),
                None => self@.list_at(key@) is None,
            },
    {
        match self.get(key) {
            Some(v) => v.list(),
            None => None,
        }
    }

    /// A member of a member.
    pub fn get2(&self, key: &str, inner: &str) -> (r: Option<&Json>)
        ensures
            match r {
                Some(v) => self@.get2(key@, inner@) == Some(v@),
                None => self@.get2(key@, inner@) is None,
            },
    {
        match self.get(key) {
            Some(v) => v.get(inner),
            None => None,
        }
    }

    /// A list of texts as a JSON value.
    pub fn from_texts(texts: &Vec<String>) -> (r: Json)
        ensures
            r@ == text_list(views(texts@)),
    {
        let mut list: Vec<Json> = Vec::new();
        let mut i: usize = 0;
        while i < texts.len()
            invariant
                i <= texts@.len(),
                list@.len() == i,
                forall|k: int| 0 <= k < i ==> (#[trigger] list@[k])@ == JsonView::Text(texts@[k]@),
            decreases texts@.len() - i,
        {
            list.push(Json::Text(texts[i].clone()));
            i += 1;
        }
        let r: Json = Json::List(list);
        proof {
            lemma_view(r);
            assert(json_views(list@) =~= views(texts@).map_values(|t: Seq<char>| JsonView::Text(t)));
        }
        r
    }
}

/// The model of a list holds the models of its elements, and the model of an
/// object those of its members.
pub proof fn lemma_view(v: Json)
    ensures
        v matches Json::List(list) ==> v@ == JsonView::List(json_views(list@)),
        v matches Json::Record(list) ==> v@ == JsonView::Record(member_views(list@)),
{
    match v {
        Json::List(list) => {
            assert(v@->List_0 =~= json_views(list@));
        },
        Json::Record(list) => {
            assert(v@->Record_0 =~= member_views(list@));
        },
        _ => {},
    }
}

/// A member of a JSON object.
pub fn member(key: &str, value: Json) -> (r: Member)
    ensures
        (r.key@, r.value@) == (key@, value@),
{
    Member { key: key.to_owned(), value }
}

/// A member whose value is a text.
pub fn text_member(key: &str, text: &str) -> (r: Member)
    ensures
        (r.key@, r.value@) == (key@, JsonView::Text(text@)),
{
    Member { key: key.to_owned(), value: Json::Text(text.to_owned()) }
}

/// Whether `text` is an element of `list`.
pub fn has_text(list: &Vec<Json>, text: &str) -> (r: bool)
    ensures
        r == lists_text(json_views(list@), text@),
{
    let mut i: usize = 0;
    let ghost v = json_views(list@);
    while i < list.len()
        invariant
            i <= list@.len(),
            v == json_views(list@),
            forall|k: int| 0 <= k < i ==> v[k] != JsonView::Text(text@),
        decreases list@.len() - i,
    {
        proof {
            assert(v[i as int] == list@[i as int]@);
        }
        match list[i].text() {
            Some(s) => {
                if same_text(s, text) {
                    return true;
                }
            },
            None => {},
        }
        i += 1;
    }
    false
}

} // verus!
