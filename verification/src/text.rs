//! Text as sequences of characters: the helpers that the parser and the
//! validators share.
use vstd::prelude::*;

verus! {

/// Whether `c` has the Unicode property `White_Space`.
pub open spec fn is_whitespace(c: char) -> bool {
    ||| c == ' '
    ||| ('\u{9}' <= c && c <= '\u{d}')
    ||| c == '\u{85}'
    ||| c == '\u{a0}'
    ||| c == '\u{1680}'
    ||| ('\u{2000}' <= c && c <= '\u{200a}')
    ||| c == '\u{2028}'
    ||| c == '\u{2029}'
    ||| c == '\u{202f}'
    ||| c == '\u{205f}'
    ||| c == '\u{3000}'
}

/// Tests a character for the Unicode property `White_Space`.
pub fn is_whitespace_char(c: char) -> (yes: bool)
    ensures
        yes == is_whitespace(c),
{
    c == ' ' || ('\u{9}' <= c && c <= '\u{d}') || c == '\u{85}' || c == '\u{a0}' || c == '\u{1680}'
        || ('\u{2000}' <= c && c <= '\u{200a}') || c == '\u{2028}' || c == '\u{2029}' || c
        == '\u{202f}' || c == '\u{205f}' || c == '\u{3000}'
}

/// The characters of `s`, in order.
pub fn chars_of(s: &str) -> (chars: Vec<char>)
    ensures
        chars@ == s@,
{
    let mut chars: Vec<char> = Vec::new();
    for c in it: s.chars()
        invariant
            chars@ == it.seq().take(it.index() as int),
            it.seq() == s@,
    {
        chars.push(c);
    }
    chars
}

/// `String::push` of std: the string afterwards is the string before with `c`
/// appended, as the documentation of std states.
#[verifier::external_body]
fn push_char(text: &mut String, c: char)
    ensures
        final(text)@ == old(text)@.push(c),
{
    text.push(c);
}

/// The text `chars[start..end]` as a `String`.
pub fn string_of(chars: &Vec<char>, start: usize, end: usize) -> (text: String)
    requires
        start <= end <= chars@.len(),
    ensures
        text@ == chars@.subrange(start as int, end as int),
{
    let mut text = String::new();
    let mut i: usize = start;
    while i < end
        invariant
            start <= i <= end <= chars@.len(),
            text@ == chars@.subrange(start as int, i as int),
        decreases end - i,
    {
        push_char(&mut text, chars[i]);
        assert(chars@.subrange(start as int, i + 1) == chars@.subrange(start as int, i as int).push(
            chars@[i as int],
        ));
        i += 1;
    }
    text
}

/// Whether `chars[start..end]` spells `word`.
pub fn range_spells(chars: &Vec<char>, start: usize, end: usize, word: &Vec<char>) -> (yes: bool)
    requires
        start <= end <= chars@.len(),
    ensures
        yes == (chars@.subrange(start as int, end as int) == word@),
{
    if end - start != word.len() {
        return false;
    }
    let mut i: usize = 0;
    while i < word.len()
        invariant
            start <= end <= chars@.len(),
            end - start == word@.len(),
            i <= word@.len(),
            forall|k: int| 0 <= k < i ==> chars@[start + k] == word@[k],
        decreases word.len() - i,
    {
        if chars[start + i] != word[i] {
            assert(chars@.subrange(start as int, end as int)[i as int] != word@[i as int]);
            return false;
        }
        i += 1;
    }
    assert(chars@.subrange(start as int, end as int) =~= word@);
    true
}

/// What a scan of a text stops at.
#[derive(Clone, Copy, Debug, PartialEq, Eq, Structural)]
pub enum Boundary {
    /// A line feed.
    Newline,
    /// A comma.
    Comma,
    /// A character with the property `White_Space`.
    Whitespace,
    /// A character without it.
    NonWhitespace,
}

/// Whether a scan for `boundary` stops at `c`.
pub open spec fn stops_at(boundary: Boundary, c: char) -> bool {
    match boundary {
        Boundary::Newline => c == '\n',
        Boundary::Comma => c == ',',
        Boundary::Whitespace => is_whitespace(c),
        Boundary::NonWhitespace => !is_whitespace(c),
    }
}

/// The first position at or after `from` at which a scan for `boundary`
/// stops: that of such a character, or the end of the text.
pub open spec fn scan_until(text: Seq<char>, from: int, boundary: Boundary) -> int
    decreases text.len() - from,
{
    if from < 0 || from >= text.len() || stops_at(boundary, text[from]) {
        from
    } else {
        scan_until(text, from + 1, boundary)
    }
}

/// A scan stops at the first boundary character and passes none.
pub proof fn lemma_scan_until(text: Seq<char>, from: int, boundary: Boundary)
    requires
        0 <= from <= text.len(),
    ensures
        from <= scan_until(text, from, boundary) <= text.len(),
        forall|k: int| from <= k < scan_until(text, from, boundary) ==> !stops_at(boundary, text[k]),
        scan_until(text, from, boundary) < text.len() ==> stops_at(
            boundary,
            text[scan_until(text, from, boundary)],
        ),
    decreases text.len() - from,
{
    if from < text.len() && !stops_at(boundary, text[from]) {
        lemma_scan_until(text, from + 1, boundary);
    }
}

/// Tests whether a scan for `boundary` stops at `c`.
pub fn is_boundary(boundary: Boundary, c: char) -> (yes: bool)
    ensures
        yes == stops_at(boundary, c),
{
    match boundary {
        Boundary::Newline => c == '\n',
        Boundary::Comma => c == ',',
        Boundary::Whitespace => is_whitespace_char(c),
        Boundary::NonWhitespace => !is_whitespace_char(c),
    }
}

/// Scans `chars` from `from` for `boundary`.
pub fn scan(chars: &Vec<char>, from: usize, boundary: Boundary) -> (at: usize)
    requires
        from <= chars@.len(),
    ensures
        at == scan_until(chars@, from as int, boundary),
        from <= at <= chars@.len(),
{
    let mut at: usize = from;
    while at < chars.len() && !is_boundary(boundary, chars[at])
        invariant
            from <= at <= chars@.len(),
            scan_until(chars@, from as int, boundary) == scan_until(chars@, at as int, boundary),
        decreases chars.len() - at,
    {
        at += 1;
    }
    at
}

/// The line that starts at `from`: the text up to the next line feed, without
/// the carriage return that may stand before that line feed.
pub open spec fn line_at(text: Seq<char>, from: int) -> Seq<char> {
    let end = scan_until(text, from, Boundary::Newline);
    if from < end < text.len() && text[end - 1] == '\r' {
        text.subrange(from, end - 1)
    } else {
        text.subrange(from, end)
    }
}

/// The lines of `text` from position `from` on.
pub open spec fn lines_from(text: Seq<char>, from: int) -> Seq<Seq<char>>
    decreases text.len() + 1 - from,
    via lines_from_decreases
{
    if from < 0 || from >= text.len() {
        Seq::empty()
    } else {
        seq![line_at(text, from)] + lines_from(
            text,
            scan_until(text, from, Boundary::Newline) + 1,
        )
    }
}

#[via_fn]
proof fn lines_from_decreases(text: Seq<char>, from: int) {
    if 0 <= from < text.len() {
        lemma_scan_until(text, from, Boundary::Newline);
    }
}

/// The lines of `text`: each ends with a line feed, but for the last, which
/// may end with the text. A text that ends with a line feed has no empty
/// line after it.
pub open spec fn lines_of(text: Seq<char>) -> Seq<Seq<char>> {
    lines_from(text, 0)
}

/// The words of `text` from position `from` on.
pub open spec fn tokens_from(text: Seq<char>, from: int) -> Seq<Seq<char>>
    decreases text.len() - from,
    via tokens_from_decreases
{
    let start = scan_until(text, from, Boundary::NonWhitespace);
    if from < 0 || start >= text.len() {
        Seq::empty()
    } else {
        let end = scan_until(text, start, Boundary::Whitespace);
        seq![text.subrange(start, end)] + tokens_from(text, end)
    }
}

#[via_fn]
proof fn tokens_from_decreases(text: Seq<char>, from: int) {
    if 0 <= from <= text.len() {
        lemma_scan_until(text, from, Boundary::NonWhitespace);
        let start = scan_until(text, from, Boundary::NonWhitespace);
        if start < text.len() {
            lemma_scan_until(text, start, Boundary::Whitespace);
        }
    }
}

/// The words of `text`: its longest stretches without white space, in order.
pub open spec fn tokens_of(text: Seq<char>) -> Seq<Seq<char>> {
    tokens_from(text, 0)
}

/// The stretches of `text` between commas, from position `from` on.
pub open spec fn segments_from(text: Seq<char>, from: int) -> Seq<Seq<char>>
    decreases text.len() + 1 - from,
    via segments_from_decreases
{
    if from < 0 || from > text.len() {
        Seq::empty()
    } else {
        let end = scan_until(text, from, Boundary::Comma);
        if end < text.len() {
            seq![text.subrange(from, end)] + segments_from(text, end + 1)
        } else {
            seq![text.subrange(from, end)]
        }
    }
}

#[via_fn]
proof fn segments_from_decreases(text: Seq<char>, from: int) {
    if 0 <= from <= text.len() {
        lemma_scan_until(text, from, Boundary::Comma);
    }
}

/// The stretches of `text` between commas: one more than there are commas.
pub open spec fn segments_of(text: Seq<char>) -> Seq<Seq<char>> {
    segments_from(text, 0)
}

/// `text` without the white space at its end.
pub open spec fn trim_end(text: Seq<char>) -> Seq<char>
    decreases text.len(),
{
    if text.len() > 0 && is_whitespace(text.last()) {
        trim_end(text.drop_last())
    } else {
        text
    }
}

/// `text` without the white space at its start and at its end.
pub open spec fn trim(text: Seq<char>) -> Seq<char> {
    trim_end(text.skip(scan_until(text, 0, Boundary::NonWhitespace)))
}

/// Splits `chars` into its lines.
pub fn split_lines(chars: &Vec<char>) -> (lines: Vec<String>)
    ensures
        lines.deep_view() == lines_of(chars@),
{
    let mut lines: Vec<String> = Vec::new();
    let mut from: usize = 0;
    while from < chars.len()
        invariant
            from <= chars@.len(),
            lines_of(chars@) == lines.deep_view() + lines_from(chars@, from as int),
        decreases chars.len() - from,
    {
        let end = scan(chars, from, Boundary::Newline);
        let stop = if from < end && end < chars.len() && chars[end - 1] == '\r' {
            end - 1
        } else {
            end
        };
        let line = string_of(chars, from, stop);
        let ghost before = lines.deep_view();
        lines.push(line);
        proof {
            assert(lines.deep_view() =~= before.push(line_at(chars@, from as int)));
            assert(before + (seq![line_at(chars@, from as int)] + lines_from(chars@, end + 1))
                =~= lines.deep_view() + lines_from(chars@, end + 1));
        }
        if end < chars.len() {
            from = end + 1;
        } else {
            from = end;
        }
    }
    assert(lines.deep_view() + Seq::<Seq<char>>::empty() =~= lines.deep_view());
    lines
}

/// Splits `chars` into its words.
pub fn split_tokens(chars: &Vec<char>) -> (tokens: Vec<String>)
    ensures
        tokens.deep_view() == tokens_of(chars@),
{
    let mut tokens: Vec<String> = Vec::new();
    let mut from: usize = 0;
    loop
        invariant
            from <= chars@.len(),
            tokens_of(chars@) == tokens.deep_view() + tokens_from(chars@, from as int),
        ensures
            tokens.deep_view() == tokens_of(chars@),
        decreases chars@.len() - from,
    {
        let start = scan(chars, from, Boundary::NonWhitespace);
        if start >= chars.len() {
            assert(tokens.deep_view() + Seq::<Seq<char>>::empty() =~= tokens.deep_view());
            break;
        }
        let end = scan(chars, start, Boundary::Whitespace);
        proof {
            lemma_scan_until(chars@, start as int, Boundary::Whitespace);
            lemma_scan_until(chars@, from as int, Boundary::NonWhitespace);
        }
        let token = string_of(chars, start, end);
        let ghost before = tokens.deep_view();
        tokens.push(token);
        proof {
            let word = chars@.subrange(start as int, end as int);
            assert(tokens.deep_view() =~= before.push(word));
            assert(before + (seq![word] + tokens_from(chars@, end as int)) =~= tokens.deep_view()
                + tokens_from(chars@, end as int));
        }
        from = end;
    }
    tokens
}

/// Finds what is left of `chars[from..end]` without the white space at its
/// start and at its end.
pub fn trim_range(chars: &Vec<char>, from: usize, end: usize) -> (range: (usize, usize))
    requires
        from <= end <= chars@.len(),
    ensures
        from <= range.0 <= range.1 <= end,
        chars@.subrange(range.0 as int, range.1 as int) == trim(
            chars@.subrange(from as int, end as int),
        ),
{
    let ghost part = chars@.subrange(from as int, end as int);
    let mut start: usize = from;
    while start < end && is_whitespace_char(chars[start])
        invariant
            from <= start <= end <= chars@.len(),
            part == chars@.subrange(from as int, end as int),
            scan_until(part, 0, Boundary::NonWhitespace) == scan_until(
                part,
                start - from,
                Boundary::NonWhitespace,
            ),
        decreases end - start,
    {
        assert(part[start - from] == chars@[start as int]);
        start += 1;
    }
    proof {
        if start < end {
            assert(part[start - from] == chars@[start as int]);
        }
        assert(scan_until(part, 0, Boundary::NonWhitespace) == start - from);
        assert(part.skip(start - from) =~= chars@.subrange(start as int, end as int));
    }
    let mut stop: usize = end;
    while stop > start && is_whitespace_char(chars[stop - 1])
        invariant
            start <= stop <= end <= chars@.len(),
            trim(part) == trim_end(chars@.subrange(start as int, stop as int)),
        decreases stop - start,
    {
        assert(chars@.subrange(start as int, stop as int).drop_last() =~= chars@.subrange(
            start as int,
            stop - 1,
        ));
        stop -= 1;
    }
    (start, stop)
}

/// Whether a component of `path` that spells `name` starts at position `at`:
/// it begins at the start of the path or after a separator, and ends at the
/// end of the path or before a separator.
pub open spec fn component_at(path: Seq<char>, at: int, name: Seq<char>) -> bool {
    &&& 0 <= at
    &&& at + name.len() <= path.len()
    &&& (at == 0 || path[at - 1] == '/')
    &&& path.subrange(at, at + name.len()) == name
    &&& (at + name.len() == path.len() || path[at + name.len()] == '/')
}

/// Whether a component of `path` spells `name`.
pub open spec fn has_component(path: Seq<char>, name: Seq<char>) -> bool {
    exists|at: int| #[trigger] component_at(path, at, name)
}

/// Whether a component of `path` other than the last spells `name`.
pub open spec fn has_inner_component(path: Seq<char>, name: Seq<char>) -> bool {
    exists|at: int| #[trigger] component_at(path, at, name) && at + name.len() < path.len()
}

/// Looks for a component of `chars` that spells `name`: among all components,
/// or among all but the last where `inner` is set.
pub fn find_component(chars: &Vec<char>, name: &Vec<char>, inner: bool) -> (found: bool)
    ensures
        found == (if inner {
            has_inner_component(chars@, name@)
        } else {
            has_component(chars@, name@)
        }),
{
    if name.len() > chars.len() {
        return false;
    }
    let last = chars.len() - name.len();
    let mut at: usize = 0;
    loop
        invariant
            at <= last,
            last + name@.len() == chars@.len(),
            chars@.len() <= usize::MAX,
            forall|k: int|
                0 <= k < at ==> !(#[trigger] component_at(chars@, k, name@) && (!inner || k
                    + name@.len() < chars@.len())),
        ensures
            at == last,
            forall|k: int|
                0 <= k <= last ==> !(#[trigger] component_at(chars@, k, name@) && (!inner || k
                    + name@.len() < chars@.len())),
        decreases last - at,
    {
        let end = at + name.len();
        if (at == 0 || chars[at - 1] == '/') && (if end == chars.len() {
            !inner
        } else {
            chars[end] == '/'
        }) && range_spells(chars, at, end, name) {
            assert(component_at(chars@, at as int, name@));
            return true;
        }
        if at == last {
            break;
        }
        at += 1;
    }
    false
}

/// Whether one of the first `upto` of `texts` is `text`.
pub open spec fn among_first(texts: Seq<Seq<char>>, upto: int, text: Seq<char>) -> bool {
    exists|k: int| 0 <= k < upto && #[trigger] texts[k] == text
}

/// Whether `set` holds the first `upto` of `texts` and nothing else.
pub open spec fn holds_first(set: Set<Seq<char>>, texts: Seq<Seq<char>>, upto: int) -> bool {
    forall|text: Seq<char>| set.contains(text) <==> among_first(texts, upto, text)
}

/// A set of the first texts, with the next text added, is a set of the first
/// texts and the next.
pub proof fn lemma_holds_one_more(set: Set<Seq<char>>, texts: Seq<Seq<char>>, upto: int)
    requires
        0 <= upto < texts.len(),
        holds_first(set, texts, upto),
    ensures
        holds_first(set.insert(texts[upto]), texts, upto + 1),
{
    let grown = set.insert(texts[upto]);
    assert forall|text: Seq<char>| grown.contains(text) <==> among_first(
        texts,
        upto + 1,
        text,
    ) by {
        if grown.contains(text) {
            if set.contains(text) {
                let k = choose|k: int| 0 <= k < upto && #[trigger] texts[k] == text;
                assert(0 <= k < upto + 1 && texts[k] == text);
            } else {
                assert(texts[upto] == text);
            }
        }
        if among_first(texts, upto + 1, text) {
            let k = choose|k: int| 0 <= k < upto + 1 && #[trigger] texts[k] == text;
            if k < upto {
                assert(among_first(texts, upto, text));
            }
        }
    }
}

} // verus!
