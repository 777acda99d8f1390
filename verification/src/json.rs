//! JSON values that the library builds: tool schemas, request bodies,
//! responses and session rows.

use vstd::prelude::*;
use crate::text::same_text;

verus! {

/// A JSON value. The fields of an object keep their order.
#[derive(Debug, PartialEq, Eq)]
pub enum Json {
    Null,
    Bool(bool),
    Number(u64),
    Text(String),
    Array(Vec<Json>),
    Object(Vec<(String, Json)>),
}

/// What a JSON value says.
#[verifier::ext_equal]
pub enum JsonView {
    Null,
    Bool(bool),
    Number(nat),
    Text(Seq<char>),
    Array(Seq<JsonView>),
    Object(Seq<(Seq<char>, JsonView)>),
}

/// What a JSON value says.
pub open spec fn json_view(j: Json) -> JsonView
    decreases j,
{
    match j {
        Json::Null => JsonView::Null,
        Json::Bool(b) => JsonView::Bool(b),
        Json::Number(n) => JsonView::Number(n as nat),
        Json::Text(s) => JsonView::Text(s@),
        Json::Array(items) => JsonView::Array(
            Seq::new(
                items@.len(),
                |i: int|
                    if 0 <= i < items@.len() {
                        json_view(items@[i])
                    } else {
                        JsonView::Null
                    },
            ),
        ),
        Json::Object(fields) => JsonView::Object(
            Seq::new(
                fields@.len(),
                |i: int|
                    if 0 <= i < fields@.len() {
                        (fields@[i].0@, json_view(fields@[i].1))
                    } else {
                        (Seq::empty(), JsonView::Null)
                    },
            ),
        ),
    }
}

impl View for Json {
    type V = JsonView;

    open spec fn view(&self) -> JsonView {
        json_view(*self)
    }
}

impl JsonView {
    /// The value of the first field of this name.
    pub open spec fn field(self, name: Seq<char>) -> Option<JsonView> {
        match self {
            JsonView::Object(fields) => first_field(fields, name),
            _ => None,
        }
    }

    /// The object with one more field.
    pub open spec fn with(self, name: Seq<char>, value: JsonView) -> JsonView {
        match self {
            JsonView::Object(fields) => JsonView::Object(fields.push((name, value))),
            other => other,
        }
    }
}

/// The object without fields.
pub open spec fn empty_object() -> JsonView {
    JsonView::Object(Seq::empty())
}

/// The value of the first field of this name.
pub open spec fn first_field(fields: Seq<(Seq<char>, JsonView)>, name: Seq<char>) -> Option<
    JsonView,
>
    decreases fields.len(),
{
    if fields.len() == 0 {
        None
    } else if fields[0].0 == name {
        Some(fields[0].1)
    } else {
        first_field(fields.drop_first(), name)
    }
}

impl Json {
    /// A string value.
    pub fn text(s: &str) -> (r: Json)
        ensures
            r@ == JsonView::Text(s@),
    {
        Json::Text(s.to_owned())
    }

    /// A string value, or null.
    pub fn optional_text(s: &Option<String>) -> (r: Json)
        ensures
            r@ == optional_text_view(crate::text::opt_view(*s)),
    {
        match s {
            Some(s) => Json::Text(s.clone()),
            None => Json::Null,
        }
    }

    /// The object without fields.
    pub fn object() -> (r: Json)
        ensures
            r@ == empty_object(),
            r is Object,
    {
        let r = Json::Object(Vec::new());
        assert(r@->Object_0 =~= Seq::empty());
        r
    }

    /// The object with one more field.
    pub fn with(self, name: &str, value: Json) -> (r: Json)
        requires
            self is Object,
        ensures
            r@ == self@.with(name@, value@),
            r is Object,
    {
        match self {
            Json::Object(fields) => {
                let ghost before = self@->Object_0;
                let ghost added = (name@, value@);
                let mut all = fields;
                all.push((name.to_owned(), value));
                let r = Json::Object(all);
                assert(r@->Object_0 =~= before.push(added));
                r
            },
            other => other,
        }
    }

    /// An array.
    pub fn array(items: Vec<Json>) -> (r: Json)
        ensures
            r@ == JsonView::Array(crate::text::views(items@)),
    {
        let r = Json::Array(items);
        assert(r@->Array_0 =~= crate::text::views(items@));
        r
    }

    /// An array of strings.
    pub fn texts(items: &[String]) -> (r: Json)
        ensures
            r@ == texts_view(crate::text::views(items@)),
    {
        broadcast use {crate::text::lemma_views_push, crate::text::lemma_views_empty};

        let ghost all = texts_view(crate::text::views(items@))->Array_0;
        let mut out: Vec<Json> = Vec::new();
        let mut i: usize = 0;
        while i < items.len()
            invariant
                i <= items@.len(),
                all == texts_view(crate::text::views(items@))->Array_0,
                crate::text::views(out@) == all.take(i as int),
            decreases items@.len() - i,
        {
            let ghost so_far = crate::text::views(out@);
            out.push(Json::text(items[i].as_str()));
            assert(crate::text::views(out@) == so_far.push(all[i as int]));
            i += 1;
            assert(crate::text::views(out@) =~= all.take(i as int));
        }
        assert(crate::text::views(out@) =~= all);
        Json::array(out)
    }

    /// The value of the first field of this name; none where there is none or
    /// the value is no object.
    pub fn get(&self, name: &str) -> (r: Option<&Json>)
        ensures
            match r {
                Some(v) => self@.field(name@) == Some(v@),
                None => self@.field(name@) is None,
            },
    {
        match self {
            Json::Object(fields) => {
                let ghost all = self@->Object_0;
                let mut i: usize = 0;
                assert(all.skip(0) =~= all);
                while i < fields.len()
                    invariant
                        i <= fields@.len(),
                        *self == Json::Object(*fields),
                        all == self@->Object_0,
                        all.len() == fields@.len(),
                        self@.field(name@) == first_field(all.skip(i as int), name@),
                    decreases fields@.len() - i,
                {
                    assert(all.skip(i as int)[0] == all[i as int]);
                    assert(all[i as int] == (fields@[i as int].0@, json_view(fields@[i as int].1)));
                    assert(all.skip(i as int).drop_first() =~= all.skip(i + 1));
                    if same_text(fields[i].0.as_str(), name) {
                        return Some(&fields[i].1);
                    }
                    i += 1;
                }
                None
            },
            _ => None,
        }
    }

    /// The text of a string value.
    pub fn as_str(&self) -> (r: Option<&str>)
        ensures
            match r {
                Some(s) => self@ == JsonView::Text(s@),
                None => !(self@ is Text),
            },
    {
        match self {
            Json::Text(s) => Some(s.as_str()),
            _ => None,
        }
    }

    /// The value of a number.
    pub fn as_u64(&self) -> (r: Option<u64>)
        ensures
            match r {
                Some(n) => self@ == JsonView::Number(n as nat),
                None => !(self@ is Number),
            },
    {
        match self {
            Json::Number(n) => Some(*n),
            _ => None,
        }
    }

    /// The items of an array.
    pub fn as_array(&self) -> (r: Option<&Vec<Json>>)
        ensures
            match r {
                Some(items) => self@ == JsonView::Array(crate::text::views(items@)),
                None => !(self@ is Array),
            },
    {
        match self {
            Json::Array(items) => {
                assert(self@->Array_0 =~= crate::text::views(items@));
                Some(items)
            },
            _ => None,
        }
    }
}

/// The array of these strings.
pub open spec fn texts_view(items: Seq<Seq<char>>) -> JsonView {
    JsonView::Array(Seq::new(items.len(), |i: int| JsonView::Text(items[i])))
}

/// What an optional text says: null where there is none.
pub open spec fn optional_text_view(s: Option<Seq<char>>) -> JsonView {
    match s {
        Some(s) => JsonView::Text(s),
        None => JsonView::Null,
    }
}

/// A field that is added to an object is found there under its name, in place
/// of nothing, and leaves the other fields as they are.
pub proof fn law_added_fields_are_found(
    object: JsonView,
    name: Seq<char>,
    value: JsonView,
    other: Seq<char>,
)
    requires
        object is Object,
    ensures
        empty_object().field(other) is None,
        object.with(name, value) is Object,
        object.field(name) is None ==> object.with(name, value).field(name) == Some(value),
        object.field(name) is Some ==> object.with(name, value).field(name) == object.field(name),
        other != name ==> object.with(name, value).field(other) == object.field(other),
{
    lemma_first_field_push(object->Object_0, name, value, name);
    lemma_first_field_push(object->Object_0, name, value, other);
}

proof fn lemma_first_field_push(
    fields: Seq<(Seq<char>, JsonView)>,
    name: Seq<char>,
    value: JsonView,
    asked: Seq<char>,
)
    ensures
        first_field(fields.push((name, value)), asked) == match first_field(fields, asked) {
            Some(v) => Some(v),
            None => if asked == name {
                Some(value)
            } else {
                None
            },
        },
    decreases fields.len(),
{
    let all = fields.push((name, value));
    if fields.len() == 0 {
        reveal_with_fuel(first_field, 2);
    } else {
        assert(all.drop_first() =~= fields.drop_first().push((name, value)));
        assert(all[0] == fields[0]);
        lemma_first_field_push(fields.drop_first(), name, value, asked);
    }
}

} // verus!
