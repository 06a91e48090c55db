//! JSON values as the library reads them, and the parser that produces them.

use crate::text;
use vstd::prelude::*;

verus! {

/// `serde_json::Value`, carried from the parser to [`convert`].
#[verifier::external_type_specification]
#[verifier::external_body]
pub struct ExValue(serde_json::Value);

/// `serde_json::Error`, carried from the parser to the caller.
#[verifier::external_type_specification]
#[verifier::external_body]
pub struct ExError(serde_json::Error);

/// An entry that is found stands among the entries, under its key.
pub proof fn lemma_lookup(entries: Seq<(Seq<char>, JsonView)>, key: Seq<char>)
    requires
        lookup(entries, key) is Some,
    ensures
        exists|i: int|
            0 <= i < entries.len() && #[trigger] entries[i] == (key, lookup(entries, key)->0),
    decreases entries.len(),
{
    if entries.first().0 == key {
        assert(entries[0] == (key, lookup(entries, key)->0));
    } else {
        let rest = entries.drop_first();
        lemma_lookup(rest, key);
        let i = choose|i: int|
            0 <= i < rest.len() && #[trigger] rest[i] == (key, lookup(rest, key)->0);
        assert(entries[i + 1] == rest[i]);
    }
}

/// A JSON value as a mathematical object. Numbers stand for themselves only:
/// nothing here depends on which number it is.
pub enum JsonView {
    Null,
    Bool(bool),
    Number,
    Text(Seq<char>),
    Array(Seq<JsonView>),
    Object(Seq<(Seq<char>, JsonView)>),
}

/// A JSON value. The entries of an object stand in the order of its keys.
#[derive(Debug)]
pub enum Json {
    Null,
    Bool(bool),
    Number,
    Text(String),
    Array(Vec<Json>),
    Object(Vec<(String, Json)>),
}

/// The value of the first entry under `key`.
pub open spec fn lookup(entries: Seq<(Seq<char>, JsonView)>, key: Seq<char>) -> Option<JsonView>
    decreases entries.len(),
{
    if entries.len() == 0 {
        None
    } else if entries.first().0 == key {
        Some(entries.first().1)
    } else {
        lookup(entries.drop_first(), key)
    }
}

/// `a` comes before `b` in the order of strings: by the first character in
/// which they differ, a proper prefix first.
pub open spec fn text_lt(a: Seq<char>, b: Seq<char>) -> bool
    decreases a.len(),
{
    if b.len() == 0 {
        false
    } else if a.len() == 0 {
        true
    } else if a.first() == b.first() {
        text_lt(a.drop_first(), b.drop_first())
    } else {
        a.first() < b.first()
    }
}

/// The keys of an object's entries ascend, so that none occurs twice.
pub open spec fn keys_ascend(entries: Seq<(Seq<char>, JsonView)>) -> bool {
    forall|i: int, j: int|
        0 <= i < j < entries.len() ==> text_lt((#[trigger] entries[i]).0, (#[trigger] entries[j]).0)
}

impl JsonView {
    /// The value under `key`, where this is an object that has the key.
    pub open spec fn get(self, key: Seq<char>) -> Option<JsonView> {
        match self {
            JsonView::Object(entries) => lookup(entries, key),
            _ => None,
        }
    }

    /// The text, where this is a string.
    pub open spec fn as_str(self) -> Option<Seq<char>> {
        match self {
            JsonView::Text(text) => Some(text),
            _ => None,
        }
    }

    /// The items, where this is an array.
    pub open spec fn as_array(self) -> Option<Seq<JsonView>> {
        match self {
            JsonView::Array(items) => Some(items),
            _ => None,
        }
    }

    /// The entries, where this is an object.
    pub open spec fn as_object(self) -> Option<Seq<(Seq<char>, JsonView)>> {
        match self {
            JsonView::Object(entries) => Some(entries),
            _ => None,
        }
    }

    /// The text under `key`, where this is an object that has a string there.
    pub open spec fn str_at(self, key: Seq<char>) -> Option<Seq<char>> {
        match self.get(key) {
            Some(value) => value.as_str(),
            None => None,
        }
    }

    /// Every object in this value has ascending keys.
    pub open spec fn well_formed(self) -> bool
        decreases self,
    {
        match self {
            JsonView::Array(items) => forall|i: int|
                0 <= i < items.len() ==> (#[trigger] items[i]).well_formed(),
            JsonView::Object(entries) => {
                &&& keys_ascend(entries)
                &&& forall|i: int| 0 <= i < entries.len() ==> (#[trigger] entries[i]).1.well_formed()
            },
            _ => true,
        }
    }
}

/// What the items of an array hold.
pub open spec fn items_view(items: Seq<Json>) -> Seq<JsonView> {
    items.map_values(|item: Json| item@)
}

/// What the entries of an object hold.
pub open spec fn entries_view(entries: Seq<(String, Json)>) -> Seq<(Seq<char>, JsonView)> {
    entries.map_values(|entry: (String, Json)| (entry.0@, entry.1@))
}

/// What an optional value holds.
pub open spec fn opt_view(value: Option<&Json>) -> Option<JsonView> {
    match value {
        Some(value) => Some(value@),
        None => None,
    }
}

impl Json {
    /// What this value holds.
    pub open spec fn model(self) -> JsonView
        decreases self,
    {
        match self {
            Json::Null => JsonView::Null,
            Json::Bool(b) => JsonView::Bool(b),
            Json::Number => JsonView::Number,
            Json::Text(text) => JsonView::Text(text@),
            Json::Array(items) => JsonView::Array(
                Seq::new(
                    items@.len(),
                    |i: int|
                        if 0 <= i < items@.len() {
                            items@[i].model()
                        } else {
                            JsonView::Null
                        },
                ),
            ),
            Json::Object(entries) => JsonView::Object(
                Seq::new(
                    entries@.len(),
                    |i: int|
                        if 0 <= i < entries@.len() {
                            (entries@[i].0@, entries@[i].1.model())
                        } else {
                            (Seq::empty(), JsonView::Null)
                        },
                ),
            ),
        }
    }
}

impl View for Json {
    type V = JsonView;

    open spec fn view(&self) -> JsonView {
        self.model()
    }
}

/// An array holds what its items hold.
pub proof fn lemma_array_view(items: Vec<Json>)
    ensures
        Json::Array(items)@ == JsonView::Array(items_view(items@)),
{
    assert(Json::Array(items)@->Array_0 =~= items_view(items@));
}

/// An object holds what its entries hold.
pub proof fn lemma_object_view(entries: Vec<(String, Json)>)
    ensures
        Json::Object(entries)@ == JsonView::Object(entries_view(entries@)),
{
    assert(Json::Object(entries)@->Object_0 =~= entries_view(entries@));
}

/// The value of the first entry under `key`.
pub fn find_entry<'a>(entries: &'a Vec<(String, Json)>, key: &str) -> (r: Option<&'a Json>)
    ensures
        opt_view(r) == lookup(entries_view(entries@), key@),
{
    let ghost views = entries_view(entries@);
    let mut i: usize = 0;
    assert(views.skip(0) =~= views);
    while i < entries.len()
        invariant
            i <= entries.len(),
            views == entries_view(entries@),
            lookup(views, key@) == lookup(views.skip(i as int), key@),
        decreases entries.len() - i,
    {
        proof {
            assert(views.skip(i as int).first() == (entries@[i as int].0@, entries@[i as int].1@));
            assert(views.skip(i as int).drop_first() =~= views.skip(i as int + 1));
        }
        if *entries[i].0.as_str() == *key {
            return Some(&entries[i].1);
        }
        i += 1;
    }
    None
}

impl Json {
    /// The value under `key`, where this is an object that has the key.
    pub fn get(&self, key: &str) -> (r: Option<&Json>)
        ensures
            opt_view(r) == self@.get(key@),
    {
        match self {
            Json::Object(entries) => {
                proof {
                    lemma_object_view(*entries);
                }
                find_entry(entries, key)
            },
            _ => None,
        }
    }

    /// The text, where this is a string.
    pub fn as_str(&self) -> (r: Option<&str>)
        ensures
            text::opt_slice(r) == self@.as_str(),
    {
        match self {
            Json::Text(text) => Some(text.as_str()),
            _ => None,
        }
    }

    /// The text under `key`, where this is an object that has a string there.
    pub fn str_at(&self, key: &str) -> (r: Option<&str>)
        ensures
            text::opt_slice(r) == self@.str_at(key@),
    {
        match self.get(key) {
            Some(value) => value.as_str(),
            None => None,
        }
    }

    /// The items, where this is an array.
    pub fn as_array(&self) -> (r: Option<&Vec<Json>>)
        ensures
            r is Some <==> self@.as_array() is Some,
            r matches Some(items) ==> self@.as_array() == Some(items_view(items@)),
    {
        match self {
            Json::Array(items) => {
                proof {
                    lemma_array_view(*items);
                }
                Some(items)
            },
            _ => None,
        }
    }

    /// The entries, where this is an object.
    pub fn as_object(&self) -> (r: Option<&Vec<(String, Json)>>)
        ensures
            r is Some <==> self@.as_object() is Some,
            r matches Some(entries) ==> self@.as_object() == Some(entries_view(entries@)),
    {
        match self {
            Json::Object(entries) => {
                proof {
                    lemma_object_view(*entries);
                }
                Some(entries)
            },
            _ => None,
        }
    }
}

/// What a `serde_json::Value` holds.
pub uninterp spec fn value_view(value: serde_json::Value) -> JsonView;

/// What `serde_json::from_str` makes of `text`: the value it holds, or the
/// error that tells where it is no JSON.
pub uninterp spec fn json_result(text: Seq<char>) -> Result<JsonView, serde_json::Error>;

/// One level of a `serde_json::Value`: its kind, and the values below it.
enum Node {
    Null,
    Bool(bool),
    Number,
    Text(String),
    Array(Vec<serde_json::Value>),
    Object(Vec<(String, serde_json::Value)>),
}

impl Node {
    /// What the value holds of which this is the top level.
    spec fn model(self) -> JsonView {
        match self {
            Node::Null => JsonView::Null,
            Node::Bool(b) => JsonView::Bool(b),
            Node::Number => JsonView::Number,
            Node::Text(text) => JsonView::Text(text@),
            Node::Array(values) => JsonView::Array(
                values@.map_values(|value: serde_json::Value| value_view(value)),
            ),
            Node::Object(entries) => JsonView::Object(
                entries@.map_values(
                    |entry: (String, serde_json::Value)| (entry.0@, value_view(entry.1)),
                ),
            ),
        }
    }

    /// The keys ascend, where this is an object.
    spec fn ordered(self) -> bool {
        self.model() matches JsonView::Object(entries) ==> keys_ascend(entries)
    }
}

/// The outcome of a parse, with the value taken by what it holds.
pub open spec fn value_outcome(
    outcome: Result<serde_json::Value, serde_json::Error>,
) -> Result<JsonView, serde_json::Error> {
    match outcome {
        Ok(value) => Ok(value_view(value)),
        Err(error) => Err(error),
    }
}

/// The outcome of a parse, with the value taken by what it holds.
pub open spec fn json_outcome(outcome: Result<Json, serde_json::Error>) -> Result<
    JsonView,
    serde_json::Error,
> {
    match outcome {
        Ok(value) => Ok(value@),
        Err(error) => Err(error),
    }
}

/// The variants of `serde_json::Value` told apart. The entries of an object
/// come as `serde_json::Map::into_iter` yields them. Its keys ascend because the
/// map is a `BTreeMap`, which it is only without serde_json's feature
/// `preserve_order`; that feature must stay off.
#[verifier::external_body]
fn unfold(value: serde_json::Value) -> (node: Node)
    ensures
        node.model() == value_view(value),
        node.ordered(),
{
    match value {
        serde_json::Value::Null => Node::Null,
        serde_json::Value::Bool(b) => Node::Bool(b),
        serde_json::Value::Number(_) => Node::Number,
        serde_json::Value::String(text) => Node::Text(text),
        serde_json::Value::Array(values) => Node::Array(values),
        serde_json::Value::Object(map) => Node::Object(map.into_iter().collect()),
    }
}

/// The white space that JSON allows between its parts.
pub open spec fn is_json_space(c: char) -> bool {
    c == ' ' || c == '\n' || c == '\t' || c == '\r'
}

/// [`is_json_space`] as a function value.
pub open spec fn json_space() -> spec_fn(char) -> bool {
    |c: char| is_json_space(c)
}

/// `text` without JSON's white space at either end.
pub open spec fn stripped(text: Seq<char>) -> Seq<char> {
    text::without_ends(text, json_space())
}

/// The value of a parse that succeeded.
pub open spec fn parsed<T>(outcome: Result<T, serde_json::Error>) -> Option<T> {
    match outcome {
        Ok(value) => Some(value),
        Err(_) => None,
    }
}

/// `serde_json::from_str` into a `serde_json::Value`: a function of the text
/// alone, in the value as in the error. Spaces, tabs, line feeds and carriage
/// returns around the text are skipped: they change neither whether it is JSON
/// nor its value, only the place that an error names.
#[verifier::external_body]
fn read_value(text: &str) -> (r: Result<serde_json::Value, serde_json::Error>)
    ensures
        value_outcome(r) == json_result(text@),
        parsed(value_outcome(r)) == parsed(json_result(stripped(text@))),
{
    serde_json::from_str(text)
}

/// The value that `value` holds.
fn convert(value: serde_json::Value) -> (json: Json)
    ensures
        json@ == value_view(value),
        json@.well_formed(),
    decreases value_view(value),
{
    let ghost whole = value_view(value);
    match unfold(value) {
        Node::Null => Json::Null,
        Node::Bool(b) => Json::Bool(b),
        Node::Number => Json::Number,
        Node::Text(text) => Json::Text(text),
        Node::Array(values) => {
            let ghost views = whole->Array_0;
            let mut items: Vec<Json> = Vec::new();
            for v in it: values
                invariant
                    whole == value_view(value),
                    whole == JsonView::Array(views),
                    views.len() == it.seq().len(),
                    forall|k: int| 0 <= k < views.len() ==> views[k] == value_view(it.seq()[k]),
                    items@.len() == it.index(),
                    forall|k: int|
                        0 <= k < items@.len() ==> {
                            &&& (#[trigger] items@[k])@ == views[k]
                            &&& views[k].well_formed()
                        },
            {
                proof {
                    assert(views[it.index() as int] == value_view(v));
                    assert(decreases_to!(whole => whole->Array_0));
                    assert(decreases_to!(views => views[it.index() as int]));
                }
                items.push(convert(v));
            }
            proof {
                lemma_array_view(items);
                assert(items_view(items@) =~= views);
                assert forall|k: int| 0 <= k < views.len() implies (
                #[trigger] views[k]).well_formed() by {
                    assert(items@[k]@ == views[k]);
                }
            }
            Json::Array(items)
        },
        Node::Object(values) => {
            let ghost views = whole->Object_0;
            let mut entries: Vec<(String, Json)> = Vec::new();
            for entry in it: values
                invariant
                    whole == value_view(value),
                    whole == JsonView::Object(views),
                    views.len() == it.seq().len(),
                    forall|k: int|
                        0 <= k < views.len() ==> #[trigger] views[k] == (
                            it.seq()[k].0@,
                            value_view(it.seq()[k].1),
                        ),
                    entries@.len() == it.index(),
                    forall|k: int|
                        0 <= k < entries@.len() ==> {
                            &&& (#[trigger] entries@[k]).0@ == views[k].0
                            &&& entries@[k].1@ == views[k].1
                            &&& views[k].1.well_formed()
                        },
            {
                let (key, v) = entry;
                proof {
                    let k = it.index() as int;
                    assert(views[k] == (key@, value_view(v)));
                    assert(decreases_to!(whole => whole->Object_0));
                    assert(decreases_to!(views => views[k]));
                    assert(decreases_to!(views[k] => views[k].1));
                }
                let below = convert(v);
                entries.push((key, below));
            }
            proof {
                lemma_object_view(entries);
                assert(entries_view(entries@) =~= views);
                assert forall|k: int| 0 <= k < views.len() implies (
                #[trigger] views[k]).1.well_formed() by {
                    assert(entries@[k].1@ == views[k].1);
                }
            }
            Json::Object(entries)
        },
    }
}

/// Parses `text` as JSON.
pub fn parse_json(text: &str) -> (r: Result<Json, serde_json::Error>)
    ensures
        json_outcome(r) == json_result(text@),
        parsed(json_outcome(r)) == parsed(json_result(stripped(text@))),
        r matches Ok(json) ==> json@.well_formed(),
{
    match read_value(text) {
        Ok(value) => Ok(convert(value)),
        Err(error) => Err(error),
    }
}

/// What the parser makes of each of `texts`, or its error at the first that is
/// no JSON.
pub open spec fn parse_each(texts: Seq<Seq<char>>) -> Result<Seq<JsonView>, serde_json::Error>
    decreases texts.len(),
{
    if texts.len() == 0 {
        Ok(seq![])
    } else {
        match parse_each(texts.drop_last()) {
            Ok(before) => match json_result(texts.last()) {
                Ok(value) => Ok(before.push(value)),
                Err(error) => Err(error),
            },
            Err(error) => Err(error),
        }
    }
}

/// The records of a file that holds one JSON value per line, blank lines left
/// out, or the parser's error at the first line that is no JSON.
pub open spec fn json_records(content: Seq<char>) -> Result<Seq<JsonView>, serde_json::Error> {
    parse_each(text::solid_lines(content))
}

/// The outcome of parsing several texts, with the values taken by what they
/// hold.
pub open spec fn records_outcome(outcome: Result<Vec<Json>, serde_json::Error>) -> Result<
    Seq<JsonView>,
    serde_json::Error,
> {
    match outcome {
        Ok(values) => Ok(items_view(values@)),
        Err(error) => Err(error),
    }
}

/// An error among the first texts is the outcome for all of them.
proof fn lemma_error_persists(texts: Seq<Seq<char>>, n: int)
    requires
        0 <= n <= texts.len(),
        parse_each(texts.take(n)) is Err,
    ensures
        parse_each(texts) == parse_each(texts.take(n)),
    decreases texts.len(),
{
    if n == texts.len() {
        assert(texts.take(n) =~= texts);
    } else {
        assert(texts.drop_last().take(n) =~= texts.take(n));
        lemma_error_persists(texts.drop_last(), n);
    }
}

/// Parses a file that holds one JSON value per line, blank lines left out.
pub fn parse_lines(content: &str) -> (r: Result<Vec<Json>, serde_json::Error>)
    ensures
        records_outcome(r) == json_records(content@),
        r matches Ok(values) ==> forall|i: int|
            0 <= i < values@.len() ==> (#[trigger] values@[i])@.well_formed(),
{
    let lines = text::nonblank_lines(content);
    let ghost texts = text::solid_lines(content@);
    let mut values: Vec<Json> = Vec::new();
    let mut i: usize = 0;
    assert(items_view(values@) =~= seq![]);
    while i < lines.len()
        invariant
            i <= lines.len(),
            text::slices(lines@) == texts,
            texts == text::solid_lines(content@),
            parse_each(texts.take(i as int)) == Ok::<_, serde_json::Error>(items_view(values@)),
            forall|k: int| 0 <= k < values@.len() ==> (#[trigger] values@[k])@.well_formed(),
        decreases lines.len() - i,
    {
        proof {
            assert(texts.take(i as int + 1).drop_last() =~= texts.take(i as int));
            assert(texts.take(i as int + 1).last() == lines@[i as int]@);
        }
        match parse_json(lines[i]) {
            Ok(value) => {
                proof {
                    assert(items_view(values@.push(value)) =~= items_view(values@).push(value@));
                }
                values.push(value);
            },
            Err(error) => {
                proof {
                    lemma_error_persists(texts, i as int + 1);
                }
                return Err(error);
            },
        }
        i += 1;
    }
    assert(texts.take(texts.len() as int) =~= texts);
    Ok(values)
}

} // verus!
