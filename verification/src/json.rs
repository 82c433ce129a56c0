//! JSON values, as far as the tool server looks into them.

use vstd::prelude::*;

use crate::text::texts;

verus! {

/// A JSON value. Numbers are kept as far as they are looked into.
#[derive(Debug)]
pub enum Json {
    Null,
    Bool(bool),
    /// A whole number that is not negative.
    Whole(u64),
    /// A negative whole number.
    Negative(i64),
    /// Any other number, rounded to the nearest whole number that is not
    /// negative.
    Rounded(u64),
    Text(String),
    List(Vec<Json>),
    Object(Vec<(String, Json)>),
}

/// What a JSON value says.
#[verifier::ext_equal]
pub enum JsonView {
    Null,
    Bool(bool),
    Whole(u64),
    Negative(i64),
    Rounded(u64),
    Text(Seq<char>),
    List(Seq<JsonView>),
    Object(Seq<(Seq<char>, JsonView)>),
}

impl View for Json {
    type V = JsonView;

    open spec fn view(&self) -> JsonView
        decreases self,
    {
        match self {
            Json::Null => JsonView::Null,
            Json::Bool(b) => JsonView::Bool(*b),
            Json::Whole(n) => JsonView::Whole(*n),
            Json::Negative(n) => JsonView::Negative(*n),
            Json::Rounded(n) => JsonView::Rounded(*n),
            Json::Text(s) => JsonView::Text(s@),
            Json::List(items) => JsonView::List(
                Seq::new(
                    items@.len(),
                    |i: int|
                        if 0 <= i < items@.len() {
                            items@[i].view()
                        } else {
                            JsonView::Null
                        },
                ),
            ),
            Json::Object(fields) => JsonView::Object(
                Seq::new(
                    fields@.len(),
                    |i: int|
                        if 0 <= i < fields@.len() {
                            (fields@[i].0@, fields@[i].1.view())
                        } else {
                            (seq![], JsonView::Null)
                        },
                ),
            ),
        }
    }
}

/// What each value of a list says.
pub open spec fn json_views(items: Seq<Json>) -> Seq<JsonView> {
    items.map_values(|j: Json| j@)
}

/// What each field of an object says.
pub open spec fn field_views(fields: Seq<(String, Json)>) -> Seq<(Seq<char>, JsonView)> {
    fields.map_values(|f: (String, Json)| (f.0@, f.1@))
}

/// The value of the first field with the given name.
pub open spec fn find_field(fields: Seq<(Seq<char>, JsonView)>, key: Seq<char>) -> Option<JsonView>
    decreases fields.len(),
{
    if fields.len() == 0 {
        None
    } else if fields[0].0 == key {
        Some(fields[0].1)
    } else {
        find_field(fields.skip(1), key)
    }
}

impl JsonView {
    /// The value of a field, if this is an object that has it.
    pub open spec fn field(self, key: Seq<char>) -> Option<JsonView> {
        match self {
            JsonView::Object(fields) => find_field(fields, key),
            _ => None,
        }
    }

    /// The text of a field, if it has one.
    pub open spec fn field_text(self, key: Seq<char>) -> Option<Seq<char>> {
        match self.field(key) {
            Some(JsonView::Text(s)) => Some(s),
            _ => None,
        }
    }

    /// The whole number of a field, if it has one.
    pub open spec fn field_whole(self, key: Seq<char>) -> Option<u64> {
        match self.field(key) {
            Some(JsonView::Whole(n)) => Some(n),
            _ => None,
        }
    }

    /// The number of a field, rounded, if it has one.
    pub open spec fn field_rounded(self, key: Seq<char>) -> Option<u64> {
        match self.field(key) {
            Some(JsonView::Whole(n)) => Some(n),
            Some(JsonView::Negative(_)) => Some(0),
            Some(JsonView::Rounded(n)) => Some(n),
            _ => None,
        }
    }
}

/// The view of a list and of an object, by the views of what is in them.
pub proof fn lemma_views(j: Json)
    ensures
        j matches Json::List(items) ==> j@ == JsonView::List(json_views(items@)),
        j matches Json::Object(fields) ==> j@ == JsonView::Object(field_views(fields@)),
{
    reveal_with_fuel(<Json as View>::view, 2);
    match j {
        Json::List(items) => {
            assert forall|i: int| 0 <= i < items@.len() implies #[trigger] j@->List_0[i]
                == items@[i]@ by {}
            assert(j@->List_0 =~= json_views(items@));
        },
        Json::Object(fields) => {
            assert forall|i: int| 0 <= i < fields@.len() implies #[trigger] j@->Object_0[i] == (
                fields@[i].0@,
                fields@[i].1@,
            ) by {}
            assert(j@->Object_0 =~= field_views(fields@));
        },
        _ => {},
    }
}

impl Json {
    /// A text.
    pub fn text(s: &str) -> (res: Json)
        ensures
            res@ == JsonView::Text(s@),
    {
        Json::Text(s.to_owned())
    }

    /// A list.
    pub fn list(items: Vec<Json>) -> (res: Json)
        ensures
            res@ == JsonView::List(json_views(items@)),
    {
        let res = Json::List(items);
        proof {
            lemma_views(res);
        }
        res
    }

    /// An object.
    pub fn object(fields: Vec<(String, Json)>) -> (res: Json)
        ensures
            res@ == JsonView::Object(field_views(fields@)),
    {
        let res = Json::Object(fields);
        proof {
            lemma_views(res);
        }
        res
    }

    /// The value of a field, if this is an object that has it.
    pub fn get(&self, key: &str) -> (res: Option<&Json>)
        ensures
            match res {
                Some(j) => self@.field(key@) == Some(j@),
                None => self@.field(key@) is None,
            },
    {
        proof {
            lemma_views(*self);
        }
        match self {
            Json::Object(fields) => {
                let ghost all = field_views(fields@);
                let mut i: usize = 0;
                assert(all.skip(0) =~= all);
                while i < fields.len()
                    invariant
                        i <= fields@.len(),
                        all == field_views(fields@),
                        self@ == JsonView::Object(all),
                        find_field(all, key@) == find_field(all.skip(i as int), key@),
                    decreases fields@.len() - i,
                {
                    assert(all.skip(i as int)[0] == (fields@[i as int].0@, fields@[i as int].1@));
                    assert(all.skip(i as int).skip(1) =~= all.skip(i + 1));
                    if *fields[i].0.as_str() == *key {
                        return Some(&fields[i].1);
                    }
                    i = i + 1;
                }
                None
            },
            _ => None,
        }
    }

    /// The text of a field, if it has one.
    pub fn get_text(&self, key: &str) -> (res: Option<&String>)
        ensures
            match res {
                Some(s) => self@.field_text(key@) == Some(s@),
                None => self@.field_text(key@) is None,
            },
    {
        match self.get(key) {
            Some(Json::Text(s)) => Some(s),
            _ => None,
        }
    }

    /// The whole number of a field, if it has one.
    pub fn get_whole(&self, key: &str) -> (res: Option<u64>)
        ensures
            res == self@.field_whole(key@),
    {
        match self.get(key) {
            Some(Json::Whole(n)) => Some(*n),
            _ => None,
        }
    }

    /// The number of a field, rounded, if it has one.
    pub fn get_rounded(&self, key: &str) -> (res: Option<u64>)
        ensures
            res == self@.field_rounded(key@),
    {
        match self.get(key) {
            Some(Json::Whole(n)) => Some(*n),
            Some(Json::Negative(_)) => Some(0),
            Some(Json::Rounded(n)) => Some(*n),
            _ => None,
        }
    }
}

/// The texts in a list, in order; what is no text is left out.
pub open spec fn texts_in(items: Seq<JsonView>) -> Seq<Seq<char>>
    decreases items.len(),
{
    if items.len() == 0 {
        seq![]
    } else {
        let rest = texts_in(items.drop_last());
        match items.last() {
            JsonView::Text(s) => rest.push(s),
            _ => rest,
        }
    }
}

/// The texts in a list.
pub fn collect_texts(items: &Vec<Json>) -> (res: Vec<String>)
    ensures
        texts(res@) == texts_in(json_views(items@)),
{
    let ghost all = json_views(items@);
    let mut res: Vec<String> = Vec::new();
    let mut i: usize = 0;
    assert(all.take(0) =~= seq![]);
    assert(texts(res@) =~= seq![]);
    while i < items.len()
        invariant
            i <= items@.len(),
            all == json_views(items@),
            texts(res@) == texts_in(all.take(i as int)),
        decreases items@.len() - i,
    {
        assert(all.take(i + 1).drop_last() =~= all.take(i as int));
        assert(all.take(i + 1).last() == items@[i as int]@);
        let ghost before = res@;
        match &items[i] {
            Json::Text(s) => {
                res.push(s.clone());
                assert(texts(res@) =~= texts(before).push(s@));
            },
            _ => {},
        }
        i = i + 1;
    }
    assert(all.take(i as int) =~= all);
    res
}

/// A field is the first one with its name: it is the one at the front if that has the
/// name, and else what is found behind that one. There is none in a value that is no
/// object.
pub proof fn law_fields(
    name: Seq<char>,
    value: JsonView,
    rest: Seq<(Seq<char>, JsonView)>,
    key: Seq<char>,
)
    ensures
        JsonView::Object(seq![]).field(key) is None,
        JsonView::Object(seq![(name, value)] + rest).field(name) == Some(value),
        key != name ==> JsonView::Object(seq![(name, value)] + rest).field(key)
            == JsonView::Object(rest).field(key),
        JsonView::List(seq![]).field(key) is None,
        JsonView::Text(name).field(key) is None,
        JsonView::Null.field(key) is None,
{
    let all = seq![(name, value)] + rest;
    assert(all[0] == (name, value));
    assert(all.skip(1) =~= rest);
}

/// A field at a known place is found, if no field before it has its name.
pub proof fn lemma_field_at(fields: Seq<(Seq<char>, JsonView)>, i: int)
    requires
        0 <= i < fields.len(),
        forall|j: int| 0 <= j < i ==> (#[trigger] fields[j]).0 != fields[i].0,
    ensures
        find_field(fields, fields[i].0) == Some(fields[i].1),
    decreases fields.len(),
{
    if i > 0 {
        let rest = fields.skip(1);
        assert forall|j: int| 0 <= j < i - 1 implies (#[trigger] rest[j]).0 != rest[i - 1].0 by {
            assert(rest[j] == fields[j + 1]);
        }
        lemma_field_at(rest, i - 1);
        assert(rest[i - 1] == fields[i]);
        assert(fields[0].0 != fields[i].0);
    }
}

/// What a field is read as: a text only if it is one, a whole number only if it is
/// one. Where rounding is allowed, a negative number counts as zero, and a fraction
/// as what it was rounded to.
pub proof fn law_field_kinds(v: JsonView, key: Seq<char>, s: Seq<char>, n: u64, m: i64)
    ensures
        v.field(key) == Some(JsonView::Text(s)) ==> v.field_text(key) == Some(s) && v.field_whole(
            key,
        ) is None && v.field_rounded(key) is None,
        v.field(key) == Some(JsonView::Whole(n)) ==> v.field_whole(key) == Some(n)
            && v.field_rounded(key) == Some(n) && v.field_text(key) is None,
        v.field(key) == Some(JsonView::Rounded(n)) ==> v.field_rounded(key) == Some(n)
            && v.field_whole(key) is None && v.field_text(key) is None,
        v.field(key) == Some(JsonView::Negative(m)) ==> v.field_rounded(key) == Some(0u64)
            && v.field_whole(key) is None && v.field_text(key) is None,
        v.field(key) is None ==> v.field_text(key) is None && v.field_whole(key) is None
            && v.field_rounded(key) is None,
        v.field(key) == Some(JsonView::Null) ==> v.field_text(key) is None && v.field_whole(
            key,
        ) is None && v.field_rounded(key) is None,
{
}

/// The texts of a list are its items that are texts, in their order.
pub proof fn law_texts_of_a_list(items: Seq<JsonView>, s: Seq<char>, other: JsonView)
    requires
        other !is Text,
    ensures
        texts_in(seq![]) == Seq::<Seq<char>>::empty(),
        texts_in(items.push(JsonView::Text(s))) == texts_in(items).push(s),
        texts_in(items.push(other)) == texts_in(items),
{
    assert(items.push(JsonView::Text(s)).drop_last() =~= items);
    assert(items.push(other).drop_last() =~= items);
}

} // verus!
