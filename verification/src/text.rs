//! Text operations shared by detection and rendering: trimming, line
//! splitting and joining, stated over sequences of characters.

use vstd::prelude::*;

verus! {

/// The characters with the Unicode property `White_Space`.
pub open spec fn is_white_space(c: char) -> bool {
    ||| '\u{9}' <= c <= '\u{d}'
    ||| c == '\u{20}'
    ||| c == '\u{85}'
    ||| c == '\u{a0}'
    ||| c == '\u{1680}'
    ||| '\u{2000}' <= c <= '\u{200a}'
    ||| c == '\u{2028}'
    ||| c == '\u{2029}'
    ||| c == '\u{202f}'
    ||| c == '\u{205f}'
    ||| c == '\u{3000}'
}

/// [`is_white_space`] as a function value.
pub open spec fn white_space() -> spec_fn(char) -> bool {
    |c: char| is_white_space(c)
}

/// `s` without the characters of a kind that it starts with.
pub open spec fn without_leading(s: Seq<char>, kind: spec_fn(char) -> bool) -> Seq<char>
    decreases s.len(),
{
    if s.len() > 0 && kind(s.first()) {
        without_leading(s.drop_first(), kind)
    } else {
        s
    }
}

/// `s` without the characters of a kind that it ends with.
pub open spec fn without_trailing(s: Seq<char>, kind: spec_fn(char) -> bool) -> Seq<char>
    decreases s.len(),
{
    if s.len() > 0 && kind(s.last()) {
        without_trailing(s.drop_last(), kind)
    } else {
        s
    }
}

/// `s` without the characters of a kind at either end.
pub open spec fn without_ends(s: Seq<char>, kind: spec_fn(char) -> bool) -> Seq<char> {
    without_trailing(without_leading(s, kind), kind)
}

/// `s` without white space at either end.
pub open spec fn trimmed(s: Seq<char>) -> Seq<char> {
    without_ends(s, white_space())
}

/// The number of characters before the first line feed, or all of them.
pub open spec fn line_len(s: Seq<char>) -> nat
    decreases s.len(),
{
    if s.len() == 0 || s.first() == '\n' {
        0
    } else {
        1 + line_len(s.drop_first())
    }
}

/// A terminated line without the carriage return that belongs to its ending.
pub open spec fn chomped(line: Seq<char>) -> Seq<char> {
    if line.len() > 0 && line.last() == '\r' {
        line.drop_last()
    } else {
        line
    }
}

/// The lines of `s`: split at `\n` or `\r\n`, the endings left out, the ending
/// of the last line optional.
pub open spec fn lines(s: Seq<char>) -> Seq<Seq<char>>
    decreases s.len(),
{
    if s.len() == 0 {
        seq![]
    } else if line_len(s) >= s.len() {
        seq![s]
    } else {
        seq![chomped(s.take(line_len(s) as int))] + lines(s.skip(line_len(s) as int + 1))
    }
}

/// The trimmed text of a line, unless nothing is left of it.
pub open spec fn solid(line: Seq<char>) -> Option<Seq<char>> {
    if trimmed(line).len() == 0 {
        None
    } else {
        Some(trimmed(line))
    }
}

/// [`solid`] as a function value.
pub open spec fn solid_fn() -> spec_fn(Seq<char>) -> Option<Seq<char>> {
    |line: Seq<char>| solid(line)
}

/// The lines of `s` that hold more than white space, each trimmed.
pub open spec fn solid_lines(s: Seq<char>) -> Seq<Seq<char>> {
    lines(s).filter_map(solid_fn())
}

/// `parts` in order, with `sep` between each two.
pub open spec fn joined(parts: Seq<Seq<char>>, sep: Seq<char>) -> Seq<char>
    decreases parts.len(),
{
    if parts.len() == 0 {
        seq![]
    } else if parts.len() == 1 {
        parts[0]
    } else {
        joined(parts.drop_last(), sep) + sep + parts.last()
    }
}

/// What a list of string slices holds.
pub open spec fn slices(list: Seq<&str>) -> Seq<Seq<char>> {
    list.map_values(|s: &str| s@)
}

/// What a list of strings holds.
pub open spec fn strings(list: Seq<String>) -> Seq<Seq<char>> {
    list.map_values(|s: String| s@)
}

/// What an optional string slice holds.
pub open spec fn opt_slice(s: Option<&str>) -> Option<Seq<char>> {
    match s {
        Some(s) => Some(s@),
        None => None,
    }
}

/// What an optional string holds.
pub open spec fn opt_string(s: Option<String>) -> Option<Seq<char>> {
    match s {
        Some(s) => Some(s@),
        None => None,
    }
}

/// The text that `String::from_utf8_lossy` makes of `bytes`.
pub uninterp spec fn lossy_text(bytes: Seq<u8>) -> Seq<char>;

/// `str::trim` removes the leading and trailing characters that have the
/// Unicode property `White_Space`, and nothing else.
pub assume_specification[ str::trim ](s: &str) -> (r: &str)
    ensures
        r@ == trimmed(s@),
;

/// `==` on `str` holds exactly when both hold the same characters.
pub assume_specification[ <str as PartialEq>::eq ](a: &str, b: &str) -> (same: bool)
    ensures
        same == (a@ == b@),
;

/// The text before and after the first line feed, where there is one.
pub open spec fn split_at_line_feed(s: Seq<char>) -> Option<(Seq<char>, Seq<char>)> {
    if line_len(s) >= s.len() {
        None
    } else {
        Some((s.take(line_len(s) as int), s.skip(line_len(s) as int + 1)))
    }
}

/// What an optional pair of string slices holds.
pub open spec fn opt_slice_pair(pair: Option<(&str, &str)>) -> Option<(Seq<char>, Seq<char>)> {
    match pair {
        Some((a, b)) => Some((a@, b@)),
        None => None,
    }
}

/// `str::split_once` at a line feed: the text before the first one and the text
/// after it, or `None` where there is none.
#[verifier::external_body]
fn split_line(s: &str) -> (r: Option<(&str, &str)>)
    ensures
        opt_slice_pair(r) == split_at_line_feed(s@),
{
    s.split_once('\n')
}

/// `str::strip_suffix` of a carriage return: the text before a final one, or
/// `None` where the text does not end with one.
#[verifier::external_body]
fn strip_carriage_return(s: &str) -> (r: Option<&str>)
    ensures
        opt_slice(r) == (if s@.len() > 0 && s@.last() == '\r' {
            Some(s@.drop_last())
        } else {
            None
        }),
{
    s.strip_suffix('\r')
}

/// The lines of `s`, split at `\n` or `\r\n`, without their endings.
fn split_lines(s: &str) -> (r: Vec<&str>)
    ensures
        slices(r@) == lines(s@),
{
    let mut done: Vec<&str> = Vec::new();
    let mut rest = s;
    assert(slices(done@) + lines(s@) =~= lines(s@));
    loop
        invariant
            slices(done@) + lines(rest@) == lines(s@),
        ensures
            line_len(rest@) >= rest@.len(),
        decreases rest@.len(),
    {
        match split_line(rest) {
            Some((line, after)) => {
                let whole = match strip_carriage_return(line) {
                    Some(stripped) => stripped,
                    None => line,
                };
                proof {
                    assert(slices(done@.push(whole)) =~= slices(done@).push(whole@));
                    assert(slices(done@).push(whole@) + lines(after@) =~= slices(done@) + (
                    seq![whole@] + lines(after@)));
                }
                done.push(whole);
                rest = after;
            },
            None => {
                break;
            },
        }
    }
    if !rest.is_empty() {
        proof {
            assert(slices(done@.push(rest)) =~= slices(done@) + seq![rest@]);
        }
        done.push(rest);
    }
    assert(slices(done@) =~= lines(s@));
    done
}

/// `String::from_utf8_lossy`: a function of the bytes alone, and the decoded
/// text itself where the bytes are valid UTF-8.
#[verifier::external_body]
pub(crate) fn decode_lossy(bytes: &[u8]) -> (r: String)
    ensures
        r@ == lossy_text(bytes@),
        vstd::utf8::valid_utf8(bytes@) ==> r@ == vstd::utf8::decode_utf8(bytes@),
{
    String::from_utf8_lossy(bytes).into_owned()
}

/// `s` with `to` in place of every `from`.
pub open spec fn replaced(s: Seq<char>, from: char, to: char) -> Seq<char> {
    s.map_values(|c: char| if c == from { to } else { c })
}

/// `String::push`: appends the character.
pub assume_specification[ String::push ](s: &mut String, c: char)
    ensures
        final(s)@ == old(s)@.push(c),
;

/// `s` with `to` in place of every `from`.
pub fn replace_char(s: &str, from: char, to: char) -> (r: String)
    ensures
        r@ == replaced(s@, from, to),
{
    let mut out = String::new();
    for c in it: s.chars()
        invariant
            it.seq() == s@,
            out@ == replaced(s@.take(it.index() as int), from, to),
    {
        proof {
            let n = it.index() as int;
            assert(replaced(s@.take(n + 1), from, to) =~= replaced(s@.take(n), from, to).push(
                if c == from {
                    to
                } else {
                    c
                },
            ));
        }
        if c == from {
            out.push(to);
        } else {
            out.push(c);
        }
    }
    assert(s@.take(s@.len() as int) =~= s@);
    out
}

/// The lines of `content` that hold more than white space, each trimmed.
pub fn nonblank_lines(content: &str) -> (r: Vec<&str>)
    ensures
        slices(r@) == solid_lines(content@),
{
    let all = split_lines(content);
    let ghost views = lines(content@);
    let mut kept: Vec<&str> = Vec::new();
    let mut i: usize = 0;
    while i < all.len()
        invariant
            i <= all.len(),
            slices(all@) == views,
            slices(kept@) == views.take(i as int).filter_map(solid_fn()),
        decreases all.len() - i,
    {
        let line = all[i].trim();
        proof {
            assert(views[i as int] == all@[i as int]@);
            views.lemma_filter_map_take_succ(solid_fn(), i as int);
        }
        if !line.is_empty() {
            proof {
                assert(slices(kept@.push(line)) =~= slices(kept@).push(line@));
            }
            kept.push(line);
        }
        i += 1;
    }
    assert(views.take(views.len() as int) =~= views);
    kept
}

/// The strings of `parts` in order, with `sep` between each two.
pub fn join_strings(parts: &Vec<String>, sep: &str) -> (r: String)
    ensures
        r@ == joined(strings(parts@), sep@),
{
    let ghost views = strings(parts@);
    let mut out = String::new();
    let mut i: usize = 0;
    while i < parts.len()
        invariant
            i <= parts.len(),
            views == strings(parts@),
            out@ == joined(views.take(i as int), sep@),
        decreases parts.len() - i,
    {
        assert(views.take(i as int + 1).drop_last() =~= views.take(i as int));
        assert(views.take(i as int + 1).last() == parts@[i as int]@);
        if i > 0 {
            out.append(sep);
        }
        out.append(parts[i].as_str());
        i += 1;
    }
    assert(views.take(views.len() as int) =~= views);
    out
}

/// A copy of each of the strings, in order.
pub(crate) fn copy_strings(list: &Vec<String>) -> (r: Vec<String>)
    ensures
        strings(r@) == strings(list@),
{
    let mut copies: Vec<String> = Vec::new();
    let mut i: usize = 0;
    while i < list.len()
        invariant
            i <= list.len(),
            copies@.len() == i,
            forall|k: int| 0 <= k < i ==> (#[trigger] copies@[k])@ == list@[k]@,
        decreases list.len() - i,
    {
        copies.push(list[i].clone());
        i += 1;
    }
    assert(strings(copies@) =~= strings(list@));
    copies
}

/// What is left has no character of the kind at its start, and ends as before.
pub proof fn lemma_without_leading(s: Seq<char>, kind: spec_fn(char) -> bool)
    ensures
        without_leading(s, kind).len() > 0 ==> !kind(without_leading(s, kind).first()),
        without_leading(s, kind).len() > 0 ==> without_leading(s, kind).last() == s.last(),
    decreases s.len(),
{
    if s.len() > 0 && kind(s.first()) {
        lemma_without_leading(s.drop_first(), kind);
    }
}

/// What is left has no character of the kind at its end, and starts as before.
pub proof fn lemma_without_trailing(s: Seq<char>, kind: spec_fn(char) -> bool)
    ensures
        without_trailing(s, kind).len() > 0 ==> !kind(without_trailing(s, kind).last()),
        without_trailing(s, kind).len() > 0 ==> without_trailing(s, kind).first() == s.first(),
    decreases s.len(),
{
    if s.len() > 0 && kind(s.last()) {
        lemma_without_trailing(s.drop_last(), kind);
    }
}

/// A character of the kind at the end makes no difference.
pub proof fn lemma_without_ends_push(s: Seq<char>, c: char, kind: spec_fn(char) -> bool)
    requires
        kind(c),
    ensures
        without_leading(s.push(c), kind) == (if without_leading(s, kind).len() == 0 {
            Seq::<char>::empty()
        } else {
            without_leading(s, kind).push(c)
        }),
        without_ends(s.push(c), kind) == without_ends(s, kind),
    decreases s.len(),
{
    if s.len() == 0 {
        assert(s.push(c).drop_first() =~= seq![]);
        assert(without_leading(s, kind) =~= seq![]);
    } else if kind(s.first()) {
        assert(s.push(c).drop_first() =~= s.drop_first().push(c));
        lemma_without_ends_push(s.drop_first(), c, kind);
    }
    let rest = without_leading(s, kind);
    assert(rest.push(c).drop_last() =~= rest);
    if rest.len() == 0 {
        assert(rest =~= seq![]);
    }
}

/// A character of the kind at the start makes no difference.
pub proof fn lemma_without_ends_prepend(c: char, s: Seq<char>, kind: spec_fn(char) -> bool)
    requires
        kind(c),
    ensures
        without_ends(seq![c] + s, kind) == without_ends(s, kind),
{
    assert((seq![c] + s).drop_first() =~= s);
}

/// The carriage return of a line's ending is no part of its trimmed text.
proof fn lemma_solid_chomped(line: Seq<char>)
    ensures
        solid(chomped(line)) == solid(line),
{
    if line.len() > 0 && line.last() == '\r' {
        assert(line =~= line.drop_last().push('\r'));
        lemma_without_ends_push(line.drop_last(), '\r', white_space());
    }
}

/// Mapping and filtering two lists one after the other.
pub proof fn lemma_filter_map_add<A, B>(a: Seq<A>, b: Seq<A>, f: spec_fn(A) -> Option<B>)
    ensures
        (a + b).filter_map(f) == a.filter_map(f) + b.filter_map(f),
    decreases b.len(),
{
    if b.len() == 0 {
        assert(a + b =~= a);
        assert(a.filter_map(f) + b.filter_map(f) =~= a.filter_map(f));
    } else {
        assert((a + b).drop_last() =~= a + b.drop_last());
        lemma_filter_map_add(a, b.drop_last(), f);
        assert((a + b).filter_map(f) =~= a.filter_map(f) + b.filter_map(f));
    }
}

/// A line as a list of at most one: its trimmed text, unless it is blank.
spec fn solid_list(line: Seq<char>) -> Seq<Seq<char>> {
    match solid(line) {
        Some(text) => seq![text],
        None => seq![],
    }
}

/// The lines of a text that hold more than white space, its first line first.
proof fn lemma_solid_lines(s: Seq<char>)
    ensures
        line_len(s) >= s.len() ==> solid_lines(s) == solid_list(s),
        line_len(s) < s.len() ==> solid_lines(s) == solid_list(s.take(line_len(s) as int))
            + solid_lines(s.skip(line_len(s) as int + 1)),
{
    if s.len() == 0 {
        assert(lines(s) =~= seq![]);
        assert(solid(s) is None);
    } else if line_len(s) >= s.len() {
        Seq::<Seq<char>>::lemma_filter_map_singleton(s, solid_fn());
    } else {
        let first = s.take(line_len(s) as int);
        lemma_solid_chomped(first);
        Seq::<Seq<char>>::lemma_filter_map_singleton(chomped(first), solid_fn());
        lemma_filter_map_add(
            seq![chomped(first)],
            lines(s.skip(line_len(s) as int + 1)),
            solid_fn(),
        );
    }
}

/// White space before a text does not change its lines, blank ones left out and
/// the others trimmed.
pub proof fn lemma_solid_lines_prepend(c: char, s: Seq<char>)
    requires
        is_white_space(c),
    ensures
        solid_lines(seq![c] + s) == solid_lines(s),
{
    let longer = seq![c] + s;
    let n = line_len(s) as int;
    assert(longer.drop_first() =~= s);
    lemma_solid_lines(longer);
    lemma_solid_lines(s);
    if c == '\n' {
        assert(longer.take(0) =~= seq![]);
        assert(longer.skip(1) =~= s);
        assert(solid_lines(longer) =~= solid_lines(s));
    } else if n >= s.len() {
        lemma_without_ends_prepend(c, s, white_space());
    } else {
        assert(longer.take(n + 1) =~= seq![c] + s.take(n));
        assert(longer.skip(n + 2) =~= s.skip(n + 1));
        lemma_without_ends_prepend(c, s.take(n), white_space());
    }
}

/// How far the first line of a longer text goes.
proof fn lemma_line_len_push(s: Seq<char>, c: char)
    ensures
        line_len(s) <= s.len(),
        line_len(s.push(c)) == (if line_len(s) < s.len() || c == '\n' {
            line_len(s)
        } else {
            line_len(s) + 1
        }),
    decreases s.len(),
{
    if s.len() == 0 {
        assert(line_len(s.push(c).drop_first()) == 0);
    } else {
        assert(s.push(c).drop_first() =~= s.drop_first().push(c));
        lemma_line_len_push(s.drop_first(), c);
    }
}

/// White space after a text does not change its lines, blank ones left out and
/// the others trimmed.
pub proof fn lemma_solid_lines_push(s: Seq<char>, c: char)
    requires
        is_white_space(c),
    ensures
        solid_lines(s.push(c)) == solid_lines(s),
    decreases s.len(),
{
    let longer = s.push(c);
    let n = line_len(s) as int;
    lemma_line_len_push(s, c);
    lemma_solid_lines(longer);
    lemma_solid_lines(s);
    if n < s.len() {
        assert(longer.take(n) =~= s.take(n));
        assert(longer.skip(n + 1) =~= s.skip(n + 1).push(c));
        lemma_solid_lines_push(s.skip(n + 1), c);
    } else if c == '\n' {
        assert(longer.take(n) =~= s);
        assert(longer.skip(n + 1) =~= seq![]);
        assert(solid_lines(longer.skip(n + 1)) =~= seq![]);
        assert(solid_list(s) + seq![] =~= solid_list(s));
    } else {
        lemma_without_ends_push(s, c, white_space());
    }
}

/// Without white space of some kind at its ends, a text has the same lines,
/// blank ones left out and the others trimmed.
pub proof fn lemma_solid_lines_without_ends(s: Seq<char>, kind: spec_fn(char) -> bool)
    requires
        forall|c: char| #[trigger] kind(c) ==> is_white_space(c),
    ensures
        solid_lines(without_ends(s, kind)) == solid_lines(s),
    decreases s.len(),
{
    if s.len() > 0 && kind(s.first()) {
        let rest = s.drop_first();
        assert(s =~= seq![s.first()] + rest);
        lemma_solid_lines_prepend(s.first(), rest);
        lemma_without_ends_prepend(s.first(), rest, kind);
        lemma_solid_lines_without_ends(rest, kind);
    } else if s.len() > 0 && kind(s.last()) {
        let rest = s.drop_last();
        assert(s =~= rest.push(s.last()));
        lemma_solid_lines_push(rest, s.last());
        lemma_without_ends_push(rest, s.last(), kind);
        lemma_solid_lines_without_ends(rest, kind);
    }
}

} // verus!
