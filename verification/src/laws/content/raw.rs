//! JSON values and texts by what they plainly hold, and what the functions of the
//! library read of them in these terms.

use crate::json;
use crate::json::{Json, JsonView};
use crate::text;
use vstd::prelude::*;

verus! {

/// The entry at `i` is the first one under `key`.
pub open spec fn is_first_under(entries: Seq<(Seq<char>, JsonView)>, key: Seq<char>, i: int) -> bool {
    &&& 0 <= i < entries.len()
    &&& entries[i].0 == key
    &&& forall|j: int| 0 <= j < i ==> (#[trigger] entries[j]).0 != key
}

/// What stands under `key` among these entries.
pub open spec fn entry_under(entries: Seq<(Seq<char>, JsonView)>, key: Seq<char>) -> Option<
    JsonView,
> {
    if exists|i: int| is_first_under(entries, key, i) {
        Some(entries[choose|i: int| is_first_under(entries, key, i)].1)
    } else {
        None
    }
}

/// What stands under `key`, where the value is an object.
pub open spec fn under(value: JsonView, key: Seq<char>) -> Option<JsonView> {
    if value is Object {
        entry_under(value->Object_0, key)
    } else {
        None
    }
}

/// The string under `key`, where there is one.
pub open spec fn text_under(value: JsonView, key: Seq<char>) -> Option<Seq<char>> {
    if under(value, key) is Some && under(value, key)->0 is Text {
        Some(under(value, key)->0->Text_0)
    } else {
        None
    }
}

/// The items of the array under `key`, where there is one.
pub open spec fn list_under(value: JsonView, key: Seq<char>) -> Option<Seq<JsonView>> {
    if under(value, key) is Some && under(value, key)->0 is Array {
        Some(under(value, key)->0->Array_0)
    } else {
        None
    }
}

/// An entry is found exactly where one has the key, and it is the first of
/// those.
pub proof fn entries_are_found_under_their_keys(
    entries: Seq<(Seq<char>, JsonView)>,
    key: Seq<char>,
)
    ensures
        json::lookup(entries, key) == entry_under(entries, key),
        json::lookup(entries, key) is Some <==> exists|i: int|
            0 <= i < entries.len() && (#[trigger] entries[i]).0 == key,
    decreases entries.len(),
{
    if entries.len() > 0 {
        let rest = entries.drop_first();
        entries_are_found_under_their_keys(rest, key);
        assert forall|i: int| 0 < i < entries.len() implies entries[i] == rest[i - 1] by {}
        if entries[0].0 == key {
            assert(is_first_under(entries, key, 0));
            let i = choose|i: int| is_first_under(entries, key, i);
            assert(i == 0);
        } else {
            if exists|i: int| is_first_under(rest, key, i) {
                let i = choose|i: int| is_first_under(rest, key, i);
                assert(is_first_under(entries, key, i + 1)) by {
                    assert(entries[i + 1] == rest[i]);
                    assert forall|j: int| 0 <= j < i + 1 implies (#[trigger] entries[j]).0 != key by {
                        if j > 0 {
                            assert(entries[j] == rest[j - 1]);
                        }
                    }
                }
                let k = choose|k: int| is_first_under(entries, key, k);
                if k < i + 1 {
                    assert(entries[k].0 != key);
                } else if k > i + 1 {
                    assert(entries[i + 1].0 != key);
                }
            }
            if exists|i: int| is_first_under(entries, key, i) {
                let i = choose|i: int| is_first_under(entries, key, i);
                assert(i > 0);
                assert(is_first_under(rest, key, i - 1)) by {
                    assert(rest[i - 1] == entries[i]);
                    assert forall|j: int| 0 <= j < i - 1 implies (#[trigger] rest[j]).0 != key by {
                        assert(rest[j] == entries[j + 1]);
                    }
                }
            }
            if exists|i: int| 0 <= i < entries.len() && (#[trigger] entries[i]).0 == key {
                let i = choose|i: int| 0 <= i < entries.len() && (#[trigger] entries[i]).0 == key;
                assert(rest[i - 1].0 == key);
            }
            if exists|i: int| 0 <= i < rest.len() && (#[trigger] rest[i]).0 == key {
                let i = choose|i: int| 0 <= i < rest.len() && (#[trigger] rest[i]).0 == key;
                assert(entries[i + 1].0 == key);
            }
        }
    }
}

/// What is read under a key is what stands there; only objects have keys, and
/// only strings are read as text.
pub proof fn values_are_read_under_their_keys(value: JsonView, key: Seq<char>)
    ensures
        value.get(key) == under(value, key),
        value.str_at(key) == text_under(value, key),
{
    if value is Object {
        entries_are_found_under_their_keys(value->Object_0, key);
    }
}

/// [`values_are_read_under_their_keys`], of every key.
pub(super) proof fn lemma_reads(value: JsonView)
    ensures
        forall|key: Seq<char>| #[trigger] value.get(key) == under(value, key),
        forall|key: Seq<char>| #[trigger] value.str_at(key) == text_under(value, key),
{
    assert forall|key: Seq<char>| #[trigger] value.get(key) == under(value, key) by {
        values_are_read_under_their_keys(value, key);
    }
    assert forall|key: Seq<char>| #[trigger] value.str_at(key) == text_under(value, key) by {
        values_are_read_under_their_keys(value, key);
    }
}

/// A value is read as the text, the items or the entries that it is made of, and
/// as nothing else.
pub proof fn values_are_read_as_they_are(value: JsonView)
    ensures
        value.as_str() == if value is Text {
            Some(value->Text_0)
        } else {
            None
        },
        value.as_array() == if value is Array {
            Some(value->Array_0)
        } else {
            None
        },
        value.as_object() == if value is Object {
            Some(value->Object_0)
        } else {
            None
        },
{
}

/// A value that was parsed shows what it holds: its own kind, its own text, and
/// its own items and entries, all of them and in order.
pub proof fn values_show_what_they_hold(value: Json)
    ensures
        match value {
            Json::Null => value@ == JsonView::Null,
            Json::Bool(b) => value@ == JsonView::Bool(b),
            Json::Number => value@ == JsonView::Number,
            Json::Text(text) => value@ == JsonView::Text(text@),
            Json::Array(items) => {
                &&& value@ is Array
                &&& value@->Array_0.len() == items@.len()
                &&& forall|i: int| 0 <= i < items@.len() ==> value@->Array_0[i] == (#[trigger] items@[i])@
            },
            Json::Object(entries) => {
                &&& value@ is Object
                &&& value@->Object_0.len() == entries@.len()
                &&& forall|i: int|
                    0 <= i < entries@.len() ==> {
                        &&& value@->Object_0[i].0 == (#[trigger] entries@[i]).0@
                        &&& value@->Object_0[i].1 == entries@[i].1@
                    }
            },
        },
{
}

/// Lists show what their elements hold, all of them and in order.
pub proof fn lists_show_their_elements(items: Seq<Json>, entries: Seq<(String, Json)>)
    ensures
        json::items_view(items).len() == items.len(),
        forall|i: int| 0 <= i < items.len() ==> json::items_view(items)[i] == (#[trigger] items[i])@,
        json::entries_view(entries).len() == entries.len(),
        forall|i: int|
            0 <= i < entries.len() ==> json::entries_view(entries)[i] == (
                (#[trigger] entries[i]).0@,
                entries[i].1@,
            ),
{
}

/// White space are the 25 characters that Unicode lists as such: tab, line feed,
/// vertical tab, form feed, carriage return, space, next line, no-break space and
/// the wider ones. Four of them are white space in JSON.
pub proof fn white_space_is_what_unicode_lists(c: char)
    ensures
        text::is_white_space(c) <==> {
            let code = c as u32;
            ||| 9 <= code <= 13
            ||| code == 32 || code == 133 || code == 160 || code == 5760
            ||| 8192 <= code <= 8202
            ||| code == 8232 || code == 8233 || code == 8239 || code == 8287 || code == 12288
        },
        json::is_json_space(c) <==> {
            let code = c as u32;
            code == 9 || code == 10 || code == 13 || code == 32
        },
{
}

/// The text holds nothing but white space.
pub open spec fn is_blank(s: Seq<char>) -> bool {
    forall|i: int| 0 <= i < s.len() ==> text::is_white_space(#[trigger] s[i])
}

/// The part of `s` from `from` up to `to` starts and ends with no white space,
/// and has nothing but white space around it.
pub open spec fn is_core_of(s: Seq<char>, from: int, to: int) -> bool {
    &&& 0 <= from < to <= s.len()
    &&& !text::is_white_space(s[from])
    &&& !text::is_white_space(s[to - 1])
    &&& forall|i: int| 0 <= i < from ==> text::is_white_space(#[trigger] s[i])
    &&& forall|i: int| to <= i < s.len() ==> text::is_white_space(#[trigger] s[i])
}

/// The text without the white space around it.
pub open spec fn kernel(s: Seq<char>) -> Seq<char> {
    if is_blank(s) {
        seq![]
    } else {
        let (from, to) = choose|from: int, to: int| is_core_of(s, from, to);
        s.subrange(from, to)
    }
}

proof fn lemma_leading(s: Seq<char>, kind: spec_fn(char) -> bool) -> (n: int)
    ensures
        0 <= n <= s.len(),
        text::without_leading(s, kind) == s.skip(n),
        forall|i: int| 0 <= i < n ==> kind(#[trigger] s[i]),
        n < s.len() ==> !kind(s[n]),
    decreases s.len(),
{
    if s.len() > 0 && kind(s.first()) {
        let rest = s.drop_first();
        let n = lemma_leading(rest, kind);
        assert(rest.skip(n) =~= s.skip(n + 1));
        assert forall|i: int| 0 <= i < n + 1 implies kind(#[trigger] s[i]) by {
            if i > 0 {
                assert(s[i] == rest[i - 1]);
            }
        }
        n + 1
    } else {
        assert(s.skip(0) =~= s);
        0
    }
}

proof fn lemma_trailing(s: Seq<char>, kind: spec_fn(char) -> bool) -> (n: int)
    ensures
        0 <= n <= s.len(),
        text::without_trailing(s, kind) == s.take(n),
        forall|i: int| n <= i < s.len() ==> kind(#[trigger] s[i]),
        n > 0 ==> !kind(s[n - 1]),
    decreases s.len(),
{
    if s.len() > 0 && kind(s.last()) {
        let rest = s.drop_last();
        let n = lemma_trailing(rest, kind);
        assert(rest.take(n) =~= s.take(n));
        assert forall|i: int| n <= i < s.len() implies kind(#[trigger] s[i]) by {
            if i < rest.len() {
                assert(s[i] == rest[i]);
            }
        }
        n
    } else {
        assert(s.take(s.len() as int) =~= s);
        s.len() as int
    }
}

/// Trimming leaves what stands between the first and the last character that is
/// no white space, both of them with it.
pub proof fn trimming_leaves_the_core(s: Seq<char>)
    ensures
        text::trimmed(s) == kernel(s),
        text::trimmed(s).len() == 0 <==> is_blank(s),
        text::solid(s) == if is_blank(s) {
            None
        } else {
            Some(kernel(s))
        },
        kernel(kernel(s)) == kernel(s),
        is_blank(kernel(s)) <==> is_blank(s),
{
    lemma_trimmed_is_core(s);
    lemma_trimmed_is_core(text::trimmed(s));
    super::trimming_is_idempotent(s);
}

proof fn lemma_trimmed_is_core(s: Seq<char>)
    ensures
        text::trimmed(s) == kernel(s),
        text::trimmed(s).len() == 0 <==> is_blank(s),
{
    let kind = text::white_space();
    let from = lemma_leading(s, kind);
    let rest = s.skip(from);
    let n = lemma_trailing(rest, kind);
    let to = from + n;
    assert(rest.take(n) =~= s.subrange(from, to));
    assert forall|i: int| 0 <= i < from implies text::is_white_space(#[trigger] s[i]) by {
        assert(kind(s[i]));
    }
    assert forall|i: int| to <= i < s.len() implies text::is_white_space(#[trigger] s[i]) by {
        assert(s[i] == rest[i - from]);
        assert(kind(rest[i - from]));
    }
    if n == 0 {
        assert forall|i: int| 0 <= i < s.len() implies text::is_white_space(#[trigger] s[i]) by {}
    } else {
        assert(rest[n - 1] == s[to - 1]);
        assert(rest[0] == s[from]);
        assert(!text::is_white_space(s[from])) by {
            assert(from < s.len());
            assert(!kind(s[from]));
        }
        assert(!text::is_white_space(s[to - 1])) by {
            assert(!kind(rest[n - 1]));
        }
        assert(is_core_of(s, from, to));
        let (a, b) = choose|a: int, b: int| is_core_of(s, a, b);
        assert(a == from) by {
            if a < from {
                assert(text::is_white_space(s[a]));
            }
        }
        assert(b == to) by {
            if b < to {
                assert(text::is_white_space(s[to - 1]));
            } else if b > to {
                assert(text::is_white_space(s[b - 1]));
            }
        }
    }
}

/// Joining keeps all parts and their order: nothing is made of no parts, a part
/// alone is itself, and what is joined of two lists is the one, the separator and
/// the other.
pub proof fn joining_keeps_every_part(a: Seq<Seq<char>>, b: Seq<Seq<char>>, sep: Seq<char>, part: Seq<char>)
    ensures
        text::joined(seq![], sep) == Seq::<char>::empty(),
        text::joined(seq![part], sep) == part,
        a.len() > 0 && b.len() > 0 ==> text::joined(a + b, sep) == text::joined(a, sep) + sep
            + text::joined(b, sep),
    decreases b.len(),
{
    if a.len() > 0 && b.len() > 0 {
        let before = b.drop_last();
        assert((a + b).drop_last() =~= a + before);
        assert((a + b).last() == b.last());
        if before.len() == 0 {
            assert(a + before =~= a);
        } else {
            joining_keeps_every_part(a, before, sep, part);
            assert(text::joined(a, sep) + sep + text::joined(before, sep) + sep + b.last()
                =~= text::joined(a, sep) + sep + text::joined(b, sep));
        }
    }
}

/// Replacing a character keeps the length, and every other character in its
/// place.
pub proof fn replacing_keeps_the_rest(s: Seq<char>, from: char, to: char)
    ensures
        text::replaced(s, from, to).len() == s.len(),
        forall|i: int|
            0 <= i < s.len() ==> #[trigger] text::replaced(s, from, to)[i] == if s[i] == from {
                to
            } else {
                s[i]
            },
{
}

/// The text has no line feed.
pub open spec fn is_one_line(s: Seq<char>) -> bool {
    forall|i: int| 0 <= i < s.len() ==> #[trigger] s[i] != '\n'
}

proof fn lemma_line_end(a: Seq<char>, b: Seq<char>)
    requires
        is_one_line(a),
    ensures
        text::line_len(a) == a.len(),
        text::line_len(a + seq!['\n'] + b) == a.len(),
    decreases a.len(),
{
    let whole = a + seq!['\n'] + b;
    if a.len() == 0 {
        assert(whole.first() == '\n');
    } else {
        let rest = a.drop_first();
        assert(a[0] != '\n');
        assert forall|i: int| 0 <= i < rest.len() implies #[trigger] rest[i] != '\n' by {
            assert(rest[i] == a[i + 1]);
        }
        lemma_line_end(rest, b);
        assert(whole.drop_first() =~= rest + seq!['\n'] + b);
        assert(whole.first() == a[0]);
    }
}

/// Lines end at line feeds: those of a text that goes on after one are the lines
/// before it and the lines after it. Each is trimmed; blank ones are left out.
pub proof fn lines_end_at_line_feeds(a: Seq<char>, b: Seq<char>)
    ensures
        text::solid_lines(a + seq!['\n'] + b) == text::solid_lines(a) + text::solid_lines(b),
        is_one_line(a) ==> text::solid_lines(a) == if is_blank(a) {
            seq![]
        } else {
            seq![kernel(a)]
        },
    decreases a.len(),
{
    let whole = a + seq!['\n'] + b;
    let f = text::solid_fn();
    trimming_leaves_the_core(a);
    if is_one_line(a) {
        lemma_line_end(a, b);
        assert(whole.take(a.len() as int) =~= a);
        assert(whole.skip(a.len() as int + 1) =~= b);
        let first = text::chomped(a);
        assert(text::lines(whole) == seq![first] + text::lines(b));
        text::lemma_filter_map_add(seq![first], text::lines(b), f);
        Seq::<Seq<char>>::lemma_filter_map_singleton(first, f);
        lemma_chomped(a);
        if a.len() == 0 {
            assert(text::lines(a) =~= seq![]);
            assert(text::solid_lines(a) =~= seq![]);
        } else {
            Seq::<Seq<char>>::lemma_filter_map_singleton(a, f);
        }
    } else {
        let n = text::line_len(a) as int;
        super::lemma_line_len(a);
        lemma_line_len_stops(a);
        let line = a.take(n);
        let rest = a.skip(n + 1);
        assert(a =~= line + seq!['\n'] + rest);
        assert(whole =~= line + seq!['\n'] + (rest + seq!['\n'] + b));
        assert(is_one_line(line)) by {
            assert forall|i: int| 0 <= i < line.len() implies #[trigger] line[i] != '\n' by {
                assert(line[i] == a[i]);
            }
        }
        lines_end_at_line_feeds(line, rest);
        lines_end_at_line_feeds(rest, b);
        lines_end_at_line_feeds(line, rest + seq!['\n'] + b);
        assert(text::solid_lines(line) + (text::solid_lines(rest) + text::solid_lines(b))
            =~= text::solid_lines(line) + text::solid_lines(rest) + text::solid_lines(b));
    }
}

proof fn lemma_line_len_stops(s: Seq<char>)
    requires
        !is_one_line(s),
    ensures
        text::line_len(s) < s.len(),
        s[text::line_len(s) as int] == '\n',
    decreases s.len(),
{
    let i = choose|i: int| 0 <= i < s.len() && !(#[trigger] s[i] != '\n');
    if s.first() != '\n' {
        let rest = s.drop_first();
        assert(rest[i - 1] == '\n');
        lemma_line_len_stops(rest);
    }
}

/// A carriage return at the end makes no difference to what is left of a line.
proof fn lemma_chomped(line: Seq<char>)
    ensures
        text::solid(text::chomped(line)) == text::solid(line),
{
    if line.len() > 0 && line.last() == '\r' {
        assert(line =~= line.drop_last().push('\r'));
        assert(text::white_space()('\r'));
        text::lemma_without_ends_push(line.drop_last(), '\r', text::white_space());
    }
}

/// The records of a file are what the parser makes of its lines: of two parts,
/// the records of the one and then those of the other; the first line that is no
/// JSON gives the error of the whole.
pub proof fn records_are_parsed_line_by_line(a: Seq<char>, b: Seq<char>)
    ensures
        json::json_records(a + seq!['\n'] + b) == match (json::json_records(a), json::json_records(b)) {
            (Ok(before), Ok(after)) => Ok(before + after),
            (Ok(_), Err(error)) => Err(error),
            (Err(error), _) => Err(error),
        },
        is_one_line(a) && is_blank(a) ==> json::json_records(a) == Ok::<_, serde_json::Error>(
            Seq::<JsonView>::empty(),
        ),
        is_one_line(a) && !is_blank(a) ==> json::json_records(a) == match json::json_result(kernel(a)) {
            Ok(value) => Ok(seq![value]),
            Err(error) => Err(error),
        },
{
    lines_end_at_line_feeds(a, b);
    lemma_parse_each(text::solid_lines(a), text::solid_lines(b));
    if is_one_line(a) && !is_blank(a) {
        let texts = seq![kernel(a)];
        assert(texts.drop_last() =~= seq![]);
        assert(json::parse_each(texts.drop_last()) == Ok::<_, serde_json::Error>(Seq::<JsonView>::empty()));
        if let Ok(value) = json::json_result(kernel(a)) {
            assert(Seq::<JsonView>::empty().push(value) =~= seq![value]);
        }
    }
}

proof fn lemma_parse_each(a: Seq<Seq<char>>, b: Seq<Seq<char>>)
    ensures
        json::parse_each(a + b) == match (json::parse_each(a), json::parse_each(b)) {
            (Ok(before), Ok(after)) => Ok(before + after),
            (Ok(_), Err(error)) => Err(error),
            (Err(error), _) => Err(error),
        },
    decreases b.len(),
{
    if b.len() == 0 {
        assert(a + b =~= a);
        if let Ok(before) = json::parse_each(a) {
            assert(before + Seq::<JsonView>::empty() =~= before);
        }
    } else {
        assert((a + b).drop_last() =~= a + b.drop_last());
        lemma_parse_each(a, b.drop_last());
        if let (Ok(before), Ok(after), Ok(value)) = (
            json::parse_each(a),
            json::parse_each(b.drop_last()),
            json::json_result(b.last()),
        ) {
            assert((before + after).push(value) =~= before + after.push(value));
        }
    }
}

} // verus!
