//! JSON values, as the attributes of nodes hold them.

use vstd::prelude::*;

use crate::schema::{opt_text, spans_view, Span, SpanView};
use crate::text::same_text;

verus! {

/// A JSON value.
pub enum Json {
    Null,
    Bool(bool),
    /// An integer that is not negative.
    Unsigned(u64),
    /// A negative integer.
    Negative(i64),
    /// Any other number, as it is written.
    Float(String),
    Text(String),
    Array(Vec<Json>),
    Object(Vec<(String, Json)>),
}

/// The mathematical view of a [`Json`].
#[verifier::ext_equal]
pub enum JsonView {
    Null,
    Bool(bool),
    Unsigned(int),
    Negative(int),
    Float(Seq<char>),
    Text(Seq<char>),
    Array(Seq<JsonView>),
    Object(Seq<(Seq<char>, JsonView)>),
}

/// The view of a JSON value.
pub open spec fn json_view(j: Json) -> JsonView
    decreases j,
{
    match j {
        Json::Null => JsonView::Null,
        Json::Bool(b) => JsonView::Bool(b),
        Json::Unsigned(n) => JsonView::Unsigned(n as int),
        Json::Negative(n) => JsonView::Negative(n as int),
        Json::Float(n) => JsonView::Float(n@),
        Json::Text(t) => JsonView::Text(t@),
        Json::Array(items) => JsonView::Array(
            Seq::new(
                items@.len(),
                |i: int|
                    if 0 <= i < items@.len() {
                        json_view(items@[i])
                    } else {
                        JsonView::Null
                    },
            ),
        ),
        Json::Object(fields) => JsonView::Object(
            Seq::new(
                fields@.len(),
                |i: int|
                    if 0 <= i < fields@.len() {
                        (fields@[i].0@, json_view(fields@[i].1))
                    } else {
                        (Seq::empty(), JsonView::Null)
                    },
            ),
        ),
    }
}

impl View for Json {
    type V = JsonView;

    open spec fn view(&self) -> JsonView {
        json_view(*self)
    }
}

/// The views of JSON values.
pub open spec fn jsons_view(items: Seq<Json>) -> Seq<JsonView> {
    items.map_values(|j: Json| j@)
}

/// The views of the fields of an object.
pub open spec fn fields_view(fields: Seq<(String, Json)>) -> Seq<(Seq<char>, JsonView)> {
    fields.map_values(|f: (String, Json)| (f.0@, f.1@))
}

/// An array's view is made of the views of its items, an object's of those of its fields.
pub broadcast proof fn lemma_json_view(j: Json)
    ensures
        j matches Json::Array(items) ==> #[trigger] json_view(j) == JsonView::Array(
            jsons_view(items@),
        ),
        j matches Json::Object(fields) ==> json_view(j) == JsonView::Object(fields_view(fields@)),
{
    match j {
        Json::Array(items) => {
            assert(json_view(j)->Array_0 =~= jsons_view(items@));
        },
        Json::Object(fields) => {
            assert(json_view(j)->Object_0 =~= fields_view(fields@));
        },
        _ => {},
    }
}

/// The value of the first of the fields from `k` on with this name.
pub open spec fn field_from(
    fields: Seq<(Seq<char>, JsonView)>,
    name: Seq<char>,
    k: int,
) -> Option<JsonView>
    decreases fields.len() - k,
{
    if k < 0 || k >= fields.len() {
        None
    } else if fields[k].0 == name {
        Some(fields[k].1)
    } else {
        field_from(fields, name, k + 1)
    }
}

impl JsonView {
    /// The value of the field with this name, of an object that has one.
    pub open spec fn field(self, name: Seq<char>) -> Option<JsonView> {
        match self {
            JsonView::Object(fields) => field_from(fields, name, 0),
            _ => None,
        }
    }
}

/// The number, where a value is there and is an integer that is not negative.
pub open spec fn number(j: Option<JsonView>) -> Option<int> {
    match j {
        Some(JsonView::Unsigned(n)) => Some(n),
        _ => None,
    }
}

/// The number, where a value is there and is an integer of at most 63 bits and a sign.
pub open spec fn signed_number(j: Option<JsonView>) -> Option<int> {
    match j {
        Some(JsonView::Unsigned(n)) => if n <= i64::MAX {
            Some(n)
        } else {
            None
        },
        Some(JsonView::Negative(n)) => Some(n),
        _ => None,
    }
}

/// The text, where a value is there and is one.
pub open spec fn string(j: Option<JsonView>) -> Option<Seq<char>> {
    match j {
        Some(JsonView::Text(t)) => Some(t),
        _ => None,
    }
}

/// Whether a value is there and is `true`.
pub open spec fn is_true(j: Option<JsonView>) -> bool {
    j == Some(JsonView::Bool(true))
}

/// The items, where a value is there and is an array.
pub open spec fn array(j: Option<JsonView>) -> Option<Seq<JsonView>> {
    match j {
        Some(JsonView::Array(items)) => Some(items),
        _ => None,
    }
}

/// The view of an optional value.
pub open spec fn opt_json(j: Option<&Json>) -> Option<JsonView> {
    match j {
        Some(v) => Some(v@),
        None => None,
    }
}

/// The field of this name of an optional value.
pub open spec fn opt_field(j: Option<JsonView>, name: Seq<char>) -> Option<JsonView> {
    match j {
        Some(v) => v.field(name),
        None => None,
    }
}

impl Json {
    /// The value of the field with this name, of an object that has one.
    pub fn get<'a>(&'a self, name: &str) -> (r: Option<&'a Json>)
        ensures
            opt_json(r) == self@.field(name@),
    {
        broadcast use lemma_json_view;

        match self {
            Json::Object(fields) => {
                let ghost all = fields_view(fields@);
                let mut k: usize = 0;
                while k < fields.len()
                    invariant
                        k <= fields@.len(),
                        all == fields_view(fields@),
                        self@.field(name@) == field_from(all, name@, k as int),
                    decreases fields@.len() - k,
                {
                    if same_text(fields[k].0.as_str(), name) {
                        return Some(&fields[k].1);
                    }
                    k += 1;
                }
                None
            },
            _ => None,
        }
    }
}

/// The field of this name of an optional value.
pub fn get_field<'a>(j: Option<&'a Json>, name: &str) -> (r: Option<&'a Json>)
    ensures
        opt_json(r) == opt_field(opt_json(j), name@),
{
    match j {
        Some(v) => v.get(name),
        None => None,
    }
}

/// The number, where a value is there and is an integer that is not negative.
pub fn as_u64(j: Option<&Json>) -> (r: Option<u64>)
    ensures
        match r {
            Some(n) => number(opt_json(j)) == Some(n as int),
            None => number(opt_json(j)) is None,
        },
{
    match j {
        Some(Json::Unsigned(n)) => Some(*n),
        _ => None,
    }
}

/// The number, where a value is there and is an integer of at most 63 bits and a sign.
pub fn as_i64(j: Option<&Json>) -> (r: Option<i64>)
    ensures
        match r {
            Some(n) => signed_number(opt_json(j)) == Some(n as int),
            None => signed_number(opt_json(j)) is None,
        },
{
    match j {
        Some(Json::Unsigned(n)) => if *n <= i64::MAX as u64 {
            Some(*n as i64)
        } else {
            None
        },
        Some(Json::Negative(n)) => Some(*n),
        _ => None,
    }
}

/// The text, where a value is there and is one.
pub fn as_str<'a>(j: Option<&'a Json>) -> (r: Option<&'a str>)
    ensures
        match r {
            Some(t) => string(opt_json(j)) == Some(t@),
            None => string(opt_json(j)) is None,
        },
{
    match j {
        Some(Json::Text(t)) => Some(t.as_str()),
        _ => None,
    }
}

/// Whether a value is there and is `true`.
pub fn as_true(j: Option<&Json>) -> (r: bool)
    ensures
        r == is_true(opt_json(j)),
{
    match j {
        Some(Json::Bool(b)) => *b,
        _ => false,
    }
}

/// The items, where a value is there and is an array.
pub fn as_array<'a>(j: Option<&'a Json>) -> (r: Option<&'a Vec<Json>>)
    ensures
        match r {
            Some(items) => array(opt_json(j)) == Some(jsons_view(items@)),
            None => array(opt_json(j)) is None,
        },
{
    broadcast use lemma_json_view;

    match j {
        Some(Json::Array(items)) => Some(items),
        _ => None,
    }
}

// ---------------------------------------------------------------------------
// Making values
// ---------------------------------------------------------------------------

/// An integer as JSON.
pub open spec fn int_json(n: int) -> JsonView {
    if n >= 0 {
        JsonView::Unsigned(n)
    } else {
        JsonView::Negative(n)
    }
}

/// An integer as JSON.
pub fn signed_to_json(n: i64) -> (r: Json)
    ensures
        r@ == int_json(n as int),
{
    if n >= 0 {
        Json::Unsigned(n as u64)
    } else {
        Json::Negative(n)
    }
}

/// Fields that start with this one.
pub fn object1(k0: &str, v0: Json) -> (r: Vec<(String, Json)>)
    ensures
        fields_view(r@) == seq![(k0@, v0@)],
{
    let mut fields: Vec<(String, Json)> = Vec::new();
    fields.push((k0.to_owned(), v0));
    assert(fields_view(fields@) =~= seq![(k0@, v0@)]);
    fields
}

/// Fields with one more.
pub fn with_field(fields: Vec<(String, Json)>, name: &str, value: Json) -> (r: Vec<(String, Json)>)
    ensures
        fields_view(r@) == fields_view(fields@).push((name@, value@)),
{
    let mut out = fields;
    out.push((name.to_owned(), value));
    assert(fields_view(out@) =~= fields_view(fields@).push((name@, value@)));
    out
}

/// The object with these fields.
pub fn object(fields: Vec<(String, Json)>) -> (r: Json)
    ensures
        r@ == JsonView::Object(fields_view(fields@)),
{
    broadcast use lemma_json_view;

    Json::Object(fields)
}

/// A text as JSON, or nothing.
pub open spec fn text_json(t: Option<Seq<char>>) -> JsonView {
    match t {
        Some(s) => JsonView::Text(s),
        None => JsonView::Null,
    }
}

/// A text as JSON, or nothing.
pub fn text_to_json(t: &Option<String>) -> (r: Json)
    ensures
        r@ == text_json(opt_text(*t)),
{
    match t {
        Some(s) => Json::Text(s.clone()),
        None => Json::Null,
    }
}

/// An integer as JSON, or nothing.
pub open spec fn optional_json(n: Option<i64>) -> JsonView {
    match n {
        Some(n) => int_json(n as int),
        None => JsonView::Null,
    }
}

/// An integer as JSON, or nothing.
pub fn optional_to_json(n: Option<i64>) -> (r: Json)
    ensures
        r@ == optional_json(n),
{
    match n {
        Some(n) => signed_to_json(n),
        None => Json::Null,
    }
}

/// An array of these values.
pub fn json_array(items: Vec<Json>) -> (r: Json)
    ensures
        r@ == JsonView::Array(jsons_view(items@)),
{
    broadcast use lemma_json_view;

    Json::Array(items)
}

/// A copy of a value.
pub fn copy_json(j: &Json) -> (r: Json)
    ensures
        r@ == j@,
    decreases j,
{
    broadcast use lemma_json_view;

    match j {
        Json::Null => Json::Null,
        Json::Bool(b) => Json::Bool(*b),
        Json::Unsigned(n) => Json::Unsigned(*n),
        Json::Negative(n) => Json::Negative(*n),
        Json::Float(n) => Json::Float(n.clone()),
        Json::Text(t) => Json::Text(t.clone()),
        Json::Array(items) => json_array(copy_items(items)),
        Json::Object(fields) => object(copy_fields(fields)),
    }
}

fn copy_items(items: &Vec<Json>) -> (r: Vec<Json>)
    ensures
        jsons_view(r@) == jsons_view(items@),
    decreases items,
{
    let ghost all = jsons_view(items@);
    let mut out: Vec<Json> = Vec::new();
    let mut i: usize = 0;
    while i < items.len()
        invariant
            i <= items@.len(),
            all == jsons_view(items@),
            jsons_view(out@) =~= all.take(i as int),
        decreases items@.len() - i,
    {
        let copy = copy_json(&items[i]);
        let ghost before = out@;
        assert(all[i as int] == copy@);
        out.push(copy);
        i += 1;
        assert(jsons_view(out@) =~= jsons_view(before).push(copy@));
        assert(all.take(i as int) =~= all.take(i - 1).push(all[i - 1]));
    }
    assert(all.take(i as int) =~= all);
    out
}

fn copy_fields(fields: &Vec<(String, Json)>) -> (r: Vec<(String, Json)>)
    ensures
        fields_view(r@) == fields_view(fields@),
    decreases fields,
{
    let ghost all = fields_view(fields@);
    let mut out: Vec<(String, Json)> = Vec::new();
    let mut i: usize = 0;
    while i < fields.len()
        invariant
            i <= fields@.len(),
            all == fields_view(fields@),
            fields_view(out@) =~= all.take(i as int),
        decreases fields@.len() - i,
    {
        let copy = copy_json(&fields[i].1);
        let name = fields[i].0.clone();
        let ghost before = out@;
        assert(all[i as int] == (name@, copy@));
        out.push((name, copy));
        i += 1;
        assert(fields_view(out@) =~= fields_view(before).push((name@, copy@)));
        assert(all.take(i as int) =~= all.take(i - 1).push(all[i - 1]));
    }
    assert(all.take(i as int) =~= all);
    out
}

// ---------------------------------------------------------------------------
// Spans
// ---------------------------------------------------------------------------

/// A span as JSON.
pub open spec fn span_json(s: SpanView) -> JsonView {
    let fields = seq![
        ("start"@, JsonView::Unsigned(s.start)),
        ("end"@, JsonView::Unsigned(s.end)),
        ("type"@, JsonView::Text(s.span_type)),
    ];
    JsonView::Object(
        match s.href {
            Some(h) => fields.push(("href"@, JsonView::Text(h))),
            None => fields,
        },
    )
}

/// Spans as JSON.
pub open spec fn spans_json(spans: Seq<SpanView>) -> JsonView {
    JsonView::Array(spans.map_values(|s: SpanView| span_json(s)))
}

/// The span that a JSON value stands for: an object with the numbers `start` and `end`, the text
/// `type`, and, unless it is left out or null, the text `href`.
pub open spec fn span_of(j: JsonView) -> Option<SpanView> {
    let href = j.field("href"@);
    match (number(j.field("start"@)), number(j.field("end"@)), string(j.field("type"@))) {
        (Some(start), Some(end), Some(span_type)) => {
            if start > usize::MAX || end > usize::MAX {
                None
            } else if href is None || href == Some(JsonView::Null) {
                Some(SpanView { start, end, span_type, href: None })
            } else {
                match string(href) {
                    Some(h) => Some(SpanView { start, end, span_type, href: Some(h) }),
                    None => None,
                }
            }
        },
        _ => None,
    }
}

/// The spans that JSON values stand for, if each stands for one.
pub open spec fn all_spans(items: Seq<JsonView>) -> Option<Seq<SpanView>>
    decreases items.len(),
{
    if items.len() == 0 {
        Some(Seq::empty())
    } else {
        match (all_spans(items.drop_last()), span_of(items.last())) {
            (Some(before), Some(s)) => Some(before.push(s)),
            _ => None,
        }
    }
}

/// The spans of a node with these attributes; none where one of them is malformed.
pub open spec fn spans_of(attributes: Option<JsonView>) -> Seq<SpanView> {
    match array(opt_field(attributes, "spans"@)) {
        Some(items) => match all_spans(items) {
            Some(spans) => spans,
            None => Seq::empty(),
        },
        None => Seq::empty(),
    }
}

/// A span as JSON.
pub fn span_to_json(s: &Span) -> (r: Json)
    ensures
        r@ == span_json(s@),
{
    broadcast use lemma_json_view;

    let mut fields: Vec<(String, Json)> = Vec::new();
    fields.push(("start".to_owned(), Json::Unsigned(s.start as u64)));
    fields.push(("end".to_owned(), Json::Unsigned(s.end as u64)));
    fields.push(("type".to_owned(), Json::Text(s.span_type.clone())));
    if let Some(h) = &s.href {
        fields.push(("href".to_owned(), Json::Text(h.clone())));
    }
    let r = Json::Object(fields);
    assert(fields_view(fields@) =~= span_json(s@)->Object_0);
    r
}

/// Spans as JSON.
pub fn spans_to_json(spans: &Vec<Span>) -> (r: Json)
    ensures
        r@ == spans_json(spans_view(spans@)),
{
    broadcast use lemma_json_view;

    let mut items: Vec<Json> = Vec::new();
    let mut i: usize = 0;
    while i < spans.len()
        invariant
            i <= spans@.len(),
            items@.len() == i,
            forall|k: int| 0 <= k < i ==> (#[trigger] items@[k])@ == span_json(spans@[k]@),
        decreases spans@.len() - i,
    {
        items.push(span_to_json(&spans[i]));
        i += 1;
    }
    assert(jsons_view(items@) =~= spans_view(spans@).map_values(|s: SpanView| span_json(s)));
    Json::Array(items)
}

fn span_from_json(j: &Json) -> (r: Option<Span>)
    ensures
        match r {
            Some(s) => span_of(j@) == Some(s@),
            None => span_of(j@) is None,
        },
{
    let start: u64 = match as_u64(j.get("start")) {
        Some(n) => n,
        None => return None,
    };
    let end: u64 = match as_u64(j.get("end")) {
        Some(n) => n,
        None => return None,
    };
    let span_type = match as_str(j.get("type")) {
        Some(t) => t.to_owned(),
        None => return None,
    };
    if start > usize::MAX as u64 || end > usize::MAX as u64 {
        return None;
    }
    let href = match j.get("href") {
        None => None,
        Some(Json::Null) => None,
        Some(Json::Text(h)) => Some(h.clone()),
        Some(_) => return None,
    };
    Some(Span { start: start as usize, end: end as usize, span_type, href })
}

/// The spans of a node with these attributes; none where one of them is malformed.
pub fn parse_spans(attributes: Option<&Json>) -> (r: Vec<Span>)
    ensures
        spans_view(r@) == spans_of(opt_json(attributes)),
{
    let mut out: Vec<Span> = Vec::new();
    assert(spans_view(out@) == Seq::<SpanView>::empty());
    let items = match as_array(get_field(attributes, "spans")) {
        Some(items) => items,
        None => return out,
    };
    let ghost all = jsons_view(items@);
    let mut i: usize = 0;
    assert(all.take(0).len() == 0);
    while i < items.len()
        invariant
            i <= items@.len(),
            all == jsons_view(items@),
            array(opt_field(opt_json(attributes), "spans"@)) == Some(all),
            all_spans(all.take(i as int)) == Some(spans_view(out@)),
        decreases items@.len() - i,
    {
        assert(all.take(i + 1).drop_last() == all.take(i as int));
        assert(all.take(i + 1).last() == items@[i as int]@);
        let ghost before = out@;
        match span_from_json(&items[i]) {
            Some(s) => {
                out.push(s);
                assert(spans_view(out@) == spans_view(before).push(s@));
            },
            None => {
                proof {
                    lemma_malformed_span(all, i as int);
                }
                let none: Vec<Span> = Vec::new();
                assert(spans_view(none@) == Seq::<SpanView>::empty());
                return none;
            },
        }
        i += 1;
    }
    assert(all.take(i as int) == all);
    out
}

proof fn lemma_malformed_span(items: Seq<JsonView>, i: int)
    requires
        0 <= i < items.len(),
        span_of(items[i]) is None,
    ensures
        all_spans(items) is None,
    decreases items.len(),
{
    if i < items.len() - 1 {
        lemma_malformed_span(items.drop_last(), i);
    }
}

proof fn lemma_span_round_trip(s: SpanView)
    requires
        0 <= s.start <= usize::MAX,
        0 <= s.end <= usize::MAX,
    ensures
        span_of(span_json(s)) == Some(s),
{
    reveal_strlit("start");
    reveal_strlit("end");
    reveal_strlit("type");
    reveal_strlit("href");
    assert("start"@.len() == 5 && "end"@.len() == 3 && "type"@.len() == 4 && "href"@.len() == 4);
    assert("type"@[0] == 't' && "href"@[0] == 'h');
    let f = span_json(s)->Object_0;
    assert(f[0].0 == "start"@ && f[1].0 == "end"@ && f[2].0 == "type"@);
    assert(field_from(f, "start"@, 0) == Some(f[0].1));
    assert(field_from(f, "end"@, 1) == Some(f[1].1));
    assert(field_from(f, "end"@, 0) == Some(f[1].1));
    assert(field_from(f, "type"@, 2) == Some(f[2].1));
    assert(field_from(f, "type"@, 1) == Some(f[2].1));
    assert(field_from(f, "type"@, 0) == Some(f[2].1));
    if s.href is Some {
        assert(f[3].0 == "href"@);
        assert(field_from(f, "href"@, 3) == Some(f[3].1));
    } else {
        assert(field_from(f, "href"@, 3) is None);
    }
    assert(field_from(f, "href"@, 2) == field_from(f, "href"@, 3));
    assert(field_from(f, "href"@, 1) == field_from(f, "href"@, 3));
    assert(field_from(f, "href"@, 0) == field_from(f, "href"@, 3));
}

proof fn lemma_all_spans_round_trip(spans: Seq<SpanView>)
    requires
        forall|i: int|
            0 <= i < spans.len() ==> 0 <= (#[trigger] spans[i]).start <= usize::MAX && 0
                <= spans[i].end <= usize::MAX,
    ensures
        all_spans(spans.map_values(|s: SpanView| span_json(s))) == Some(spans),
    decreases spans.len(),
{
    let items = spans.map_values(|s: SpanView| span_json(s));
    if spans.len() > 0 {
        let head = spans.drop_last();
        assert forall|i: int| 0 <= i < head.len() implies 0 <= (#[trigger] head[i]).start
            <= usize::MAX && 0 <= head[i].end <= usize::MAX by {
            assert(head[i] == spans[i]);
        }
        lemma_all_spans_round_trip(head);
        assert(items.drop_last() =~= head.map_values(|s: SpanView| span_json(s)));
        lemma_span_round_trip(spans[spans.len() - 1]);
        assert(head.push(spans.last()) =~= spans);
    } else {
        assert(spans =~= Seq::empty());
    }
}

/// Spans that are written as the `spans` of a node's attributes are read back as they were.
pub proof fn spans_survive_json(spans: Seq<SpanView>, attributes: JsonView)
    requires
        forall|i: int|
            0 <= i < spans.len() ==> 0 <= (#[trigger] spans[i]).start <= usize::MAX && 0
                <= spans[i].end <= usize::MAX,
        attributes.field("spans"@) == Some(spans_json(spans)),
    ensures
        spans_of(Some(attributes)) == spans,
{
    lemma_all_spans_round_trip(spans);
}

} // verus!
