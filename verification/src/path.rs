//! Paths into a document: the text form with dots and brackets, reading the
//! place a path names, and writing to it.

use crate::error::{PathError, PathSyntaxError};
use crate::value::{
    items_view, lemma_fields_map, lemma_items_view, put_item, take_item, view_of_ref, Json,
    Object, Value,
};
use vstd::prelude::*;

verus! {

/// One step of a path.
#[derive(Debug, PartialEq)]
pub enum PathSegment {
    /// The field of an object, by its key.
    Key(String),
    /// The item of an array, by its position.
    Index(usize),
}

/// Mathematical view of one step of a path.
pub enum SegmentView {
    Key(Seq<char>),
    Index(nat),
}

impl View for PathSegment {
    type V = SegmentView;

    open spec fn view(&self) -> SegmentView {
        match self {
            PathSegment::Key(k) => SegmentView::Key(k@),
            PathSegment::Index(n) => SegmentView::Index(*n as nat),
        }
    }
}

impl Clone for PathSegment {
    fn clone(&self) -> (r: Self)
        ensures
            r@ == self@,
    {
        match self {
            PathSegment::Key(k) => PathSegment::Key(k.clone()),
            PathSegment::Index(n) => PathSegment::Index(*n),
        }
    }
}

/// The views of the steps of a path.
pub open spec fn segments_view(path: Seq<PathSegment>) -> Seq<SegmentView> {
    path.map_values(|p: PathSegment| p@)
}

/// Whether the character is a decimal digit.
pub open spec fn is_digit(c: char) -> bool {
    '0' <= c <= '9'
}

/// The number that a row of decimal digits stands for.
pub open spec fn digits_value(d: Seq<char>) -> nat
    decreases d.len(),
{
    if d.len() == 0 {
        0
    } else {
        (digits_value(d.drop_last()) * 10 + (d.last() as nat - '0' as nat)) as nat
    }
}

/// The index that a row of characters stands for: decimal digits, at least
/// one, and no more than the machine can count.
pub open spec fn digits_index(digits: Seq<char>) -> Option<usize> {
    if digits.len() > 0 && (forall|i: int| 0 <= i < digits.len() ==> is_digit(#[trigger] digits[i]))
        && digits_value(digits) <= usize::MAX {
        Some(digits_value(digits) as usize)
    } else {
        None
    }
}

/// The index that stands between two brackets: decimal digits, with or
/// without a `+` before them.
pub open spec fn index_value(body: Seq<char>) -> Option<usize> {
    if body.len() > 0 && body[0] == '+' {
        digits_index(body.skip(1))
    } else {
        digits_index(body)
    }
}

/// The position of the first `]` at or after `i`, or the end of the text
/// where there is none.
pub open spec fn bracket_end(text: Seq<char>, i: int) -> int
    decreases text.len() - i,
{
    if i < 0 || i >= text.len() {
        text.len() as int
    } else if text[i] == ']' {
        i
    } else {
        bracket_end(text, i + 1)
    }
}

/// The segments so far, with the key that runs from `key_start` to `i`
/// added where it is not empty.
pub open spec fn with_key(
    text: Seq<char>,
    key_start: int,
    i: int,
    done: Seq<SegmentView>,
) -> Seq<SegmentView> {
    if key_start < i {
        done.push(SegmentView::Key(text.subrange(key_start, i)))
    } else {
        done
    }
}

/// What the rest of a path text parses to, from position `i` on, with a key
/// under way since `key_start` and the segments `done` before it.
///
/// A dot ends a key; it may not begin or end the text, nor be followed by
/// another dot. A `[` ends a key and opens an index, which runs to the next
/// `]`; a `[` that no `]` follows is refused, and so is a `]` outside an
/// index. Every other character belongs to a key. A text without any segment
/// is refused.
pub open spec fn parse_from(
    text: Seq<char>,
    i: int,
    key_start: int,
    done: Seq<SegmentView>,
) -> Result<Seq<SegmentView>, PathSyntaxError>
    decreases text.len() - i,
{
    if i < 0 || key_start < 0 || key_start > i {
        Err(PathSyntaxError::EmptyPath)
    } else if i >= text.len() {
        let all = with_key(text, key_start, text.len() as int, done);
        if all.len() == 0 {
            Err(PathSyntaxError::EmptyPath)
        } else {
            Ok(all)
        }
    } else if text[i] == '.' {
        if i == 0 {
            Err(PathSyntaxError::LeadingDot)
        } else if i + 1 < text.len() && text[i + 1] == '.' {
            Err(PathSyntaxError::ConsecutiveDots)
        } else if i + 1 == text.len() {
            Err(PathSyntaxError::TrailingDot)
        } else {
            parse_from(text, i + 1, i + 1, with_key(text, key_start, i, done))
        }
    } else if text[i] == '[' {
        let close = bracket_end(text, i + 1);
        let body = text.subrange(i + 1, close);
        if close >= text.len() {
            Err(PathSyntaxError::UnclosedBracket)
        } else if body.len() == 0 {
            Err(PathSyntaxError::EmptyIndex)
        } else {
            proof {
                lemma_bracket_end(text, i + 1);
            }
            match index_value(body) {
                Some(n) => parse_from(
                    text,
                    close + 1,
                    close + 1,
                    with_key(text, key_start, i, done).push(SegmentView::Index(n as nat)),
                ),
                None => Err(
                    PathSyntaxError::InvalidIndex { start: (i + 1) as usize, end: close as usize },
                ),
            }
        }
    } else if text[i] == ']' {
        Err(PathSyntaxError::UnexpectedClosingBracket)
    } else {
        parse_from(text, i + 1, key_start, done)
    }
}

/// What a path text parses to.
pub open spec fn parse(text: Seq<char>) -> Result<Seq<SegmentView>, PathSyntaxError> {
    parse_from(text, 0, 0, Seq::empty())
}

/// `bracket_end` stays within the text, at or after where it started.
pub proof fn lemma_bracket_end(text: Seq<char>, i: int)
    requires
        0 <= i <= text.len(),
    ensures
        i <= bracket_end(text, i) <= text.len(),
        forall|j: int| i <= j < bracket_end(text, i) ==> text[j] != ']',
        bracket_end(text, i) < text.len() ==> text[bracket_end(text, i)] == ']',
    decreases text.len() - i,
{
    if i < text.len() && text[i] != ']' {
        lemma_bracket_end(text, i + 1);
    }
}

/// Whether the character may stand in a key: any but the dot and the two
/// brackets.
pub open spec fn is_key_char(c: char) -> bool {
    c != '.' && c != '[' && c != ']'
}

/// The segments are such as a path text gives: no key among them is empty,
/// and none holds a dot or a bracket.
pub open spec fn well_formed(segments: Seq<SegmentView>) -> bool {
    forall|i: int|
        0 <= i < segments.len() ==> (#[trigger] segments[i] matches SegmentView::Key(k) ==> k.len()
            > 0 && forall|j: int| 0 <= j < k.len() ==> is_key_char(#[trigger] k[j]))
}

/// What holds of the rest of a parse holds of its result.
proof fn lemma_parse_from(text: Seq<char>, i: int, key_start: int, done: Seq<SegmentView>)
    requires
        0 <= key_start <= i <= text.len(),
        well_formed(done),
        forall|j: int| key_start <= j < i ==> is_key_char(#[trigger] text[j]),
    ensures
        parse_from(text, i, key_start, done) matches Ok(segments) ==> segments.len() > 0
            && well_formed(segments),
    decreases text.len() - i,
{
    let flushed = with_key(text, key_start, i, done);
    assert(well_formed(flushed)) by {
        if key_start < i {
            let key = text.subrange(key_start, i);
            assert forall|j: int| 0 <= j < key.len() implies is_key_char(#[trigger] key[j]) by {
                assert(key[j] == text[key_start + j]);
            }
            assert forall|k: int| 0 <= k < flushed.len() implies (
            #[trigger] flushed[k] matches SegmentView::Key(held) ==> held.len() > 0 && forall|
                j: int,
            |
                0 <= j < held.len() ==> is_key_char(#[trigger] held[j])) by {
                if k < done.len() {
                    assert(flushed[k] == done[k]);
                }
            }
        }
    }
    if i >= text.len() {
    } else if text[i] == '.' {
        if i > 0 && i + 1 < text.len() && text[i + 1] != '.' {
            lemma_parse_from(text, i + 1, i + 1, flushed);
        }
    } else if text[i] == '[' {
        lemma_bracket_end(text, i + 1);
        let close = bracket_end(text, i + 1);
        let body = text.subrange(i + 1, close);
        let next = close + 1;
        if close < text.len() && body.len() > 0 && index_value(body) is Some {
            let index = SegmentView::Index(index_value(body)->0 as nat);
            let more = flushed.push(index);
            assert(well_formed(more)) by {
                assert forall|k: int| 0 <= k < more.len() implies (
                #[trigger] more[k] matches SegmentView::Key(held) ==> held.len() > 0 && forall|
                    j: int,
                |
                    0 <= j < held.len() ==> is_key_char(#[trigger] held[j])) by {
                    if k < flushed.len() {
                        assert(more[k] == flushed[k]);
                    }
                }
            }
            lemma_parse_from(text, next, next, more);
        }
    } else if text[i] == ']' {
    } else {
        lemma_parse_from(text, i + 1, key_start, done);
    }
}

/// A path that a text parses to has at least one segment; none of its keys
/// is empty, and none holds a dot or a bracket.
pub proof fn lemma_parse_well_formed(text: Seq<char>)
    ensures
        parse(text) matches Ok(segments) ==> segments.len() > 0 && well_formed(segments),
{
    lemma_parse_from(text, 0, 0, Seq::empty());
}

/// The segment stands in the text from `from` to `to`: a key as the
/// characters there, an index between a `[` at `from` and a `]` that ends at
/// `to`.
pub open spec fn segment_at(text: Seq<char>, segment: SegmentView, from: int, to: int) -> bool {
    &&& 0 <= from < to <= text.len()
    &&& match segment {
        SegmentView::Key(k) => k == text.subrange(from, to),
        SegmentView::Index(n) => {
            &&& from + 2 < to
            &&& text[from] == '['
            &&& text[to - 1] == ']'
            &&& index_value(text.subrange(from + 1, to - 1)) matches Some(v) && v == n
        },
    }
}

/// The segment stands in the text from `from` to `to`, and `to` is no
/// further on than `limit`.
pub open spec fn segment_before(
    text: Seq<char>,
    segment: SegmentView,
    span: (int, int),
    limit: int,
) -> bool {
    segment_at(text, segment, span.0, span.1) && span.1 <= limit
}

/// Each segment stands in the text at its span, and the spans follow each
/// other in the order of the segments, all of them before `limit`.
pub open spec fn spans_fit(
    text: Seq<char>,
    segments: Seq<SegmentView>,
    spans: Seq<(int, int)>,
    limit: int,
) -> bool {
    &&& spans.len() == segments.len()
    &&& forall|i: int|
        0 <= i < segments.len() ==> segment_before(text, #[trigger] segments[i], spans[i], limit)
    &&& forall|i: int, j: int|
        0 <= i < j < spans.len() ==> (#[trigger] spans[i]).1 <= (#[trigger] spans[j]).0
}

/// Adding a segment that stands after all the others keeps the spans fit.
proof fn lemma_spans_push(
    text: Seq<char>,
    segments: Seq<SegmentView>,
    spans: Seq<(int, int)>,
    limit: int,
    segment: SegmentView,
    from: int,
    to: int,
)
    requires
        spans_fit(text, segments, spans, limit),
        limit <= from,
        segment_at(text, segment, from, to),
    ensures
        spans_fit(text, segments.push(segment), spans.push((from, to)), to),
{
    let more = segments.push(segment);
    let wider = spans.push((from, to));
    assert forall|i: int| 0 <= i < more.len() implies segment_before(
        text,
        #[trigger] more[i],
        wider[i],
        to,
    ) by {
        if i < segments.len() {
            assert(more[i] == segments[i]);
            assert(wider[i] == spans[i]);
            assert(segment_before(text, segments[i], spans[i], limit));
        }
    }
    assert forall|i: int, j: int| 0 <= i < j < wider.len() implies (#[trigger] wider[i]).1 <= (
    #[trigger] wider[j]).0 by {
        assert(wider[i] == spans[i]);
        assert(segment_before(text, segments[i], spans[i], limit));
        if j < spans.len() {
            assert(wider[j] == spans[j]);
        }
    }
}

/// Where the segments so far stand in the text, those of the result do.
proof fn lemma_parse_from_spans(
    text: Seq<char>,
    i: int,
    key_start: int,
    done: Seq<SegmentView>,
    spans: Seq<(int, int)>,
) -> (all: Seq<(int, int)>)
    requires
        0 <= key_start <= i <= text.len(),
        spans_fit(text, done, spans, key_start),
    ensures
        parse_from(text, i, key_start, done) matches Ok(segments) ==> spans_fit(
            text,
            segments,
            all,
            text.len() as int,
        ),
    decreases text.len() - i,
{
    let flushed = with_key(text, key_start, i, done);
    let flushed_spans = if key_start < i {
        spans.push((key_start, i))
    } else {
        spans
    };
    if key_start < i {
        lemma_spans_push(
            text,
            done,
            spans,
            key_start,
            SegmentView::Key(text.subrange(key_start, i)),
            key_start,
            i,
        );
    }
    assert(spans_fit(text, flushed, flushed_spans, i)) by {
        if key_start >= i {
            assert forall|k: int| 0 <= k < done.len() implies segment_before(
                text,
                #[trigger] done[k],
                spans[k],
                i,
            ) by {
                assert(segment_before(text, done[k], spans[k], key_start));
            }
        }
    }
    if i >= text.len() {
        flushed_spans
    } else if text[i] == '.' {
        if i > 0 && i + 1 < text.len() && text[i + 1] != '.' {
            assert(spans_fit(text, flushed, flushed_spans, i + 1)) by {
                assert forall|k: int| 0 <= k < flushed.len() implies segment_before(
                    text,
                    #[trigger] flushed[k],
                    flushed_spans[k],
                    i + 1,
                ) by {
                    assert(segment_before(text, flushed[k], flushed_spans[k], i));
                }
            }
            lemma_parse_from_spans(text, i + 1, i + 1, flushed, flushed_spans)
        } else {
            spans
        }
    } else if text[i] == '[' {
        lemma_bracket_end(text, i + 1);
        let close = bracket_end(text, i + 1);
        let body = text.subrange(i + 1, close);
        if close < text.len() && body.len() > 0 && index_value(body) is Some {
            let index = SegmentView::Index(index_value(body)->0 as nat);
            assert(text.subrange(i + 1, close + 1 - 1) == body);
            lemma_spans_push(text, flushed, flushed_spans, i, index, i, close + 1);
            lemma_parse_from_spans(
                text,
                close + 1,
                close + 1,
                flushed.push(index),
                flushed_spans.push((i, close + 1)),
            )
        } else {
            spans
        }
    } else if text[i] == ']' {
        spans
    } else {
        lemma_parse_from_spans(text, i + 1, key_start, done, spans)
    }
}

/// The segments of a path stand in its text, one after the other in their
/// order: each key as a run of the text's characters, each index between a
/// `[` and the `]` that closes it.
pub proof fn lemma_parse_spans(text: Seq<char>) -> (spans: Seq<(int, int)>)
    ensures
        parse(text) matches Ok(segments) ==> spans_fit(text, segments, spans, text.len() as int),
{
    lemma_parse_from_spans(text, 0, 0, Seq::empty(), Seq::empty())
}

/// Whatever stands before it, a text that ends with a dot is refused.
proof fn lemma_trailing_dot_from(text: Seq<char>, i: int, key_start: int, done: Seq<SegmentView>)
    requires
        0 <= key_start <= i < text.len(),
        text.last() == '.',
    ensures
        parse_from(text, i, key_start, done) is Err,
    decreases text.len() - i,
{
    if text[i] == '.' {
        if i > 0 && i + 1 < text.len() && text[i + 1] != '.' {
            lemma_trailing_dot_from(text, i + 1, i + 1, with_key(text, key_start, i, done));
        }
    } else if text[i] == '[' {
        lemma_bracket_end(text, i + 1);
        let close = bracket_end(text, i + 1);
        let body = text.subrange(i + 1, close);
        if close < text.len() && body.len() > 0 && index_value(body) is Some {
            lemma_trailing_dot_from(
                text,
                close + 1,
                close + 1,
                with_key(text, key_start, i, done).push(
                    SegmentView::Index(index_value(body)->0 as nat),
                ),
            );
        }
    } else if text[i] == ']' {
    } else {
        lemma_trailing_dot_from(text, i + 1, key_start, done);
    }
}

/// A text that begins or ends with a dot is no path.
pub proof fn lemma_parse_refuses_outer_dots(text: Seq<char>)
    requires
        text.len() > 0,
        text[0] == '.' || text.last() == '.',
    ensures
        parse(text) is Err,
{
    if text[0] != '.' {
        lemma_trailing_dot_from(text, 0, 0, Seq::empty());
    }
}

/// Whatever stands before it, a `[` that no `]` follows makes the text no
/// path.
proof fn lemma_unclosed_from(
    text: Seq<char>,
    open: int,
    i: int,
    key_start: int,
    done: Seq<SegmentView>,
)
    requires
        0 <= key_start <= i <= open < text.len(),
        text[open] == '[',
        forall|j: int| open < j < text.len() ==> text[j] != ']',
    ensures
        parse_from(text, i, key_start, done) is Err,
    decreases text.len() - i,
{
    if text[i] == '.' {
        if i > 0 && i + 1 < text.len() && text[i + 1] != '.' {
            lemma_unclosed_from(text, open, i + 1, i + 1, with_key(text, key_start, i, done));
        }
    } else if text[i] == '[' {
        lemma_bracket_end(text, i + 1);
        let close = bracket_end(text, i + 1);
        let body = text.subrange(i + 1, close);
        if close < text.len() && body.len() > 0 && index_value(body) is Some {
            assert(text[close] == ']');
            lemma_unclosed_from(
                text,
                open,
                close + 1,
                close + 1,
                with_key(text, key_start, i, done).push(
                    SegmentView::Index(index_value(body)->0 as nat),
                ),
            );
        }
    } else if text[i] == ']' {
    } else {
        lemma_unclosed_from(text, open, i + 1, key_start, done);
    }
}

/// A text with a `[` that no `]` follows is no path.
pub proof fn lemma_parse_refuses_unclosed_bracket(text: Seq<char>, open: int)
    requires
        0 <= open < text.len(),
        text[open] == '[',
        forall|j: int| open < j < text.len() ==> text[j] != ']',
    ensures
        parse(text) is Err,
{
    lemma_unclosed_from(text, open, 0, 0, Seq::empty());
}

/// A text of key characters only is the key that it parses to, from
/// wherever in it the parse is taken up.
proof fn lemma_parse_key_from(text: Seq<char>, i: int)
    requires
        0 <= i <= text.len(),
        text.len() > 0,
        forall|j: int| 0 <= j < text.len() ==> is_key_char(#[trigger] text[j]),
    ensures
        parse_from(text, i, 0, Seq::empty()) == Ok::<Seq<SegmentView>, PathSyntaxError>(
            seq![SegmentView::Key(text)],
        ),
    decreases text.len() - i,
{
    if i < text.len() {
        assert(is_key_char(text[i]));
        lemma_parse_key_from(text, i + 1);
    } else {
        assert(text.subrange(0, text.len() as int) =~= text);
        assert(with_key(text, 0, text.len() as int, Seq::empty()) =~= seq![SegmentView::Key(text)]);
    }
}

/// A text without dots and brackets, and not empty, is a path of one key:
/// itself.
pub proof fn lemma_parse_single_key(text: Seq<char>)
    requires
        text.len() > 0,
        forall|j: int| 0 <= j < text.len() ==> is_key_char(#[trigger] text[j]),
    ensures
        parse(text) == Ok::<Seq<SegmentView>, PathSyntaxError>(seq![SegmentView::Key(text)]),
{
    lemma_parse_key_from(text, 0);
}

/// The characters of a text.
fn characters(text: &str) -> (r: Vec<char>)
    ensures
        r@ == text@,
{
    let mut out: Vec<char> = Vec::new();
    for c in it: text.chars()
        invariant
            it.seq() == text@,
            out@ == it.seq().take(it.index() as int),
    {
        out.push(c);
    }
    out
}

/// The value of the digit.
fn digit_of(c: char) -> (r: Option<usize>)
    ensures
        (match r {
            Some(d) => is_digit(c) && d == c as nat - '0' as nat,
            None => !is_digit(c),
        }),
{
    if '0' <= c && c <= '9' {
        Some((c as u32 - '0' as u32) as usize)
    } else {
        None
    }
}

/// A row of digits is worth no less than any of its beginnings.
proof fn lemma_digits_value_grows(d: Seq<char>, k: int)
    requires
        0 <= k <= d.len(),
        forall|i: int| 0 <= i < d.len() ==> is_digit(#[trigger] d[i]),
    ensures
        digits_value(d.take(k)) <= digits_value(d),
    decreases d.len() - k,
{
    if k < d.len() {
        assert(d.take(k + 1).drop_last() =~= d.take(k));
        assert(d.take(k + 1).last() == d[k]);
        lemma_digits_value_grows(d, k + 1);
    } else {
        assert(d.take(k) =~= d);
    }
}

/// The index written in `chars` from `from` to `to`.
fn read_index(chars: &Vec<char>, from: usize, to: usize) -> (r: Option<usize>)
    requires
        from < to <= chars.len(),
    ensures
        r == index_value(chars@.subrange(from as int, to as int)),
{
    let ghost body = chars@.subrange(from as int, to as int);
    let start = if chars[from] == '+' {
        from + 1
    } else {
        from
    };
    let ghost digits = chars@.subrange(start as int, to as int);
    assert(digits =~= if body.len() > 0 && body[0] == '+' {
        body.skip(1)
    } else {
        body
    });
    assert(index_value(body) == digits_index(digits));
    if start == to {
        return None;
    }
    let mut value: usize = 0;
    let mut i: usize = start;
    assert(digits.take(0) =~= Seq::empty());
    while i < to
        invariant
            start <= i <= to <= chars.len(),
            digits == chars@.subrange(start as int, to as int),
            index_value(chars@.subrange(from as int, to as int)) == digits_index(digits),
            forall|j: int| 0 <= j < i - start ==> is_digit(#[trigger] digits[j]),
            value == digits_value(digits.take(i - start)),
        decreases to - i,
    {
        assert(digits[i - start] == chars@[i as int]);
        assert(digits.take(i - start + 1).drop_last() =~= digits.take(i - start));
        assert(digits.take(i - start + 1).last() == digits[i - start]);
        let digit = match digit_of(chars[i]) {
            Some(d) => d,
            None => {
                return None;
            },
        };
        let next = match value.checked_mul(10) {
            Some(tens) => tens.checked_add(digit),
            None => None,
        };
        match next {
            Some(n) => {
                value = n;
            },
            None => {
                proof {
                    if forall|j: int| 0 <= j < digits.len() ==> is_digit(#[trigger] digits[j]) {
                        lemma_digits_value_grows(digits, i - start + 1);
                    }
                }
                return None;
            },
        }
        i += 1;
    }
    assert(digits.take(to - start) =~= digits);
    Some(value)
}

/// The view of what parsing gave.
pub open spec fn parsed(r: Result<Vec<PathSegment>, PathSyntaxError>) -> Result<
    Seq<SegmentView>,
    PathSyntaxError,
> {
    match r {
        Ok(segments) => Ok(segments_view(segments@)),
        Err(e) => Err(e),
    }
}

/// Parses a path text into its segments.
///
/// Keys are separated by dots, and an index stands in brackets: `a.b.c`,
/// `a[0]`, `orders[0].items[1].price`. A text of one key is a path of one
/// segment.
pub fn parse_path(path: &str) -> (r: Result<Vec<PathSegment>, PathSyntaxError>)
    ensures
        parsed(r) == parse(path@),
{
    let chars = characters(path);
    let n = chars.len();
    let mut segments: Vec<PathSegment> = Vec::new();
    let mut key_start: usize = 0;
    let mut i: usize = 0;
    assert(segments_view(segments@) =~= Seq::empty());
    while i < n
        invariant
            key_start <= i <= n,
            n == chars.len(),
            chars@ == path@,
            parse(path@) == parse_from(path@, i as int, key_start as int, segments_view(segments@)),
        decreases n - i,
    {
        let c = chars[i];
        if c == '.' {
            if i == 0 {
                return Err(PathSyntaxError::LeadingDot);
            }
            if i + 1 < n && chars[i + 1] == '.' {
                return Err(PathSyntaxError::ConsecutiveDots);
            }
            if i + 1 == n {
                return Err(PathSyntaxError::TrailingDot);
            }
            if key_start < i {
                let key = path.substring_char(key_start, i).to_owned();
                proof {
                    let before = segments@;
                    assert(segments_view(before.push(PathSegment::Key(key))) =~= segments_view(
                        before,
                    ).push(SegmentView::Key(key@)));
                }
                segments.push(PathSegment::Key(key));
            }
            i += 1;
            key_start = i;
        } else if c == '[' {
            proof {
                lemma_bracket_end(path@, i + 1);
            }
            if key_start < i {
                let key = path.substring_char(key_start, i).to_owned();
                proof {
                    let before = segments@;
                    assert(segments_view(before.push(PathSegment::Key(key))) =~= segments_view(
                        before,
                    ).push(SegmentView::Key(key@)));
                }
                segments.push(PathSegment::Key(key));
            }
            let mut close: usize = i + 1;
            while close < n && chars[close] != ']'
                invariant
                    i + 1 <= close <= n,
                    n == chars.len(),
                    chars@ == path@,
                    bracket_end(path@, i + 1) == bracket_end(path@, close as int),
                decreases n - close,
            {
                close += 1;
            }
            if close == n {
                return Err(PathSyntaxError::UnclosedBracket);
            }
            if close == i + 1 {
                return Err(PathSyntaxError::EmptyIndex);
            }
            match read_index(&chars, i + 1, close) {
                Some(index) => {
                    proof {
                        let before = segments@;
                        assert(segments_view(before.push(PathSegment::Index(index)))
                            =~= segments_view(before).push(SegmentView::Index(index as nat)));
                    }
                    segments.push(PathSegment::Index(index));
                },
                None => {
                    return Err(PathSyntaxError::InvalidIndex { start: i + 1, end: close });
                },
            }
            i = close + 1;
            key_start = i;
        } else if c == ']' {
            return Err(PathSyntaxError::UnexpectedClosingBracket);
        } else {
            i += 1;
        }
    }
    if key_start < n {
        let key = path.substring_char(key_start, n).to_owned();
        proof {
            let before = segments@;
            assert(segments_view(before.push(PathSegment::Key(key))) =~= segments_view(
                before,
            ).push(SegmentView::Key(key@)));
        }
        segments.push(PathSegment::Key(key));
    }
    if segments.len() == 0 {
        return Err(PathSyntaxError::EmptyPath);
    }
    Ok(segments)
}


/// The place that the steps of `path` from `i` on lead to from `j`: a key
/// leads into an object that holds it, an index into an array that is long
/// enough. Where a step leads nowhere there is no such place.
pub open spec fn navigate(j: Json, path: Seq<SegmentView>, i: int) -> Option<Json>
    decreases path.len() - i,
{
    if i < 0 || i >= path.len() {
        Some(j)
    } else {
        match (path[i], j) {
            (SegmentView::Key(k), Json::Object(m)) => if m.contains_key(k) {
                navigate(m[k], path, i + 1)
            } else {
                None
            },
            (SegmentView::Index(n), Json::Array(items)) => if n < items.len() {
                navigate(items[n as int], path, i + 1)
            } else {
                None
            },
            _ => None,
        }
    }
}

/// The value that `path` leads to from the root of `json`, if it leads
/// anywhere.
pub fn navigate_path<'a>(json: &'a Value, path: &[PathSegment]) -> (r: Option<&'a Value>)
    ensures
        view_of_ref(r) == navigate(json@, segments_view(path@), 0),
{
    let ghost steps = segments_view(path@);
    let mut current = json;
    let mut i: usize = 0;
    while i < path.len()
        invariant
            i <= path.len(),
            steps == segments_view(path@),
            navigate(json@, steps, 0) == navigate(current@, steps, i as int),
        decreases path.len() - i,
    {
        assert(steps[i as int] == path@[i as int]@);
        match &path[i] {
            PathSegment::Key(key) => {
                match current.get_key(key) {
                    Some(member) => {
                        current = member;
                    },
                    None => {
                        return None;
                    },
                }
            },
            PathSegment::Index(index) => {
                match current {
                    Value::Array(items) => {
                        proof {
                            lemma_items_view(items@);
                        }
                        if *index < items.len() {
                            current = &items[*index];
                        } else {
                            return None;
                        }
                    },
                    _ => {
                        return None;
                    },
                }
            },
        }
        i += 1;
    }
    Some(current)
}

/// The items with nulls added at the end until position `n` exists.
pub open spec fn padded(items: Seq<Json>, n: nat) -> Seq<Json> {
    if n < items.len() {
        items
    } else {
        items + Seq::new((n + 1 - items.len()) as nat, |i: int| Json::Null)
    }
}

/// The fields of `j`, where it is an object; none otherwise.
pub open spec fn fields_of(j: Json) -> Map<Seq<char>, Json> {
    match j {
        Json::Object(m) => m,
        _ => Map::empty(),
    }
}

/// The items of `j`, where it is an array; none otherwise.
pub open spec fn items_of(j: Json) -> Seq<Json> {
    match j {
        Json::Array(items) => items,
        _ => Seq::empty(),
    }
}

/// The document `j` with `value` written at the place that the steps of
/// `path` from `i` on lead to.
///
/// On the way, a key makes an object of whatever is not one, and an index
/// makes an array of whatever is not one; what stood there is lost. A key
/// that is missing on the way stands for an empty object. An array that is
/// too short is filled with nulls up to the index. At the last step the
/// value is written over whatever holds the place; with `keys_only`, a last
/// step that is an index leaves its place as it is.
pub open spec fn set_at(
    j: Json,
    path: Seq<SegmentView>,
    i: int,
    value: Json,
    keys_only: bool,
) -> Json
    decreases path.len() - i,
{
    if i < 0 || i >= path.len() {
        j
    } else {
        let last = i + 1 == path.len();
        match path[i] {
            SegmentView::Key(k) => {
                let m = fields_of(j);
                let member = if m.contains_key(k) {
                    m[k]
                } else {
                    Json::Object(Map::empty())
                };
                Json::Object(
                    m.insert(
                        k,
                        if last {
                            value
                        } else {
                            set_at(member, path, i + 1, value, keys_only)
                        },
                    ),
                )
            },
            SegmentView::Index(n) => if last && keys_only {
                j
            } else {
                let items = padded(items_of(j), n);
                Json::Array(
                    items.update(
                        n as int,
                        if last {
                            value
                        } else {
                            set_at(items[n as int], path, i + 1, value, keys_only)
                        },
                    ),
                )
            },
        }
    }
}

/// What has been written at a path is read back along the same path.
pub proof fn lemma_navigate_after_set(j: Json, path: Seq<SegmentView>, i: int, value: Json)
    requires
        0 <= i < path.len(),
    ensures
        navigate(set_at(j, path, i, value, false), path, i) == Some(value),
    decreases path.len() - i,
{
    let last = i + 1 == path.len();
    let after = set_at(j, path, i, value, false);
    match path[i] {
        SegmentView::Key(k) => {
            let m = fields_of(j);
            let member = if m.contains_key(k) {
                m[k]
            } else {
                Json::Object(Map::empty())
            };
            let written = if last {
                value
            } else {
                set_at(member, path, i + 1, value, false)
            };
            assert(after == Json::Object(m.insert(k, written)));
            assert(navigate(after, path, i) == navigate(written, path, i + 1));
            if !last {
                lemma_navigate_after_set(member, path, i + 1, value);
            }
        },
        SegmentView::Index(n) => {
            let items = padded(items_of(j), n);
            assert(n < items.len());
            let written = if last {
                value
            } else {
                set_at(items[n as int], path, i + 1, value, false)
            };
            assert(after == Json::Array(items.update(n as int, written)));
            assert(navigate(after, path, i) == navigate(written, path, i + 1));
            if !last {
                lemma_navigate_after_set(items[n as int], path, i + 1, value);
            }
        },
    }
}

/// Writes `value` into `j` along the steps of `path` from `i` on.
pub(crate) fn write_at(
    j: Value,
    path: &[PathSegment],
    i: usize,
    value: Value,
    keys_only: bool,
) -> (r: Value)
    requires
        i < path.len(),
    ensures
        r@ == set_at(j@, segments_view(path@), i as int, value@, keys_only),
    decreases path.len() - i,
{
    let ghost steps = segments_view(path@);
    assert(steps[i as int] == path@[i as int]@);
    let last = i + 1 == path.len();
    match &path[i] {
        PathSegment::Key(key) => {
            let mut fields = match j {
                Value::Object(fields) => fields,
                _ => Object::new(),
            };
            let ghost before = fields@;
            match fields.index_of_key(key) {
                Some(at) => {
                    let _ = fields.len();
                    proof {
                        lemma_fields_map(fields.fields());
                    }
                    if last {
                        let _ = fields.replace_value(at, value);
                    } else {
                        let member = fields.replace_value(at, Value::Null);
                        let written = write_at(member, path, i + 1, value, keys_only);
                        let ghost written_view = written@;
                        let _ = fields.replace_value(at, written);
                        assert(fields@ =~= before.insert(key@, written_view));
                    }
                },
                None => {
                    if last {
                        fields.insert(key.clone(), value);
                    } else {
                        let written = write_at(
                            Value::Object(Object::new()),
                            path,
                            i + 1,
                            value,
                            keys_only,
                        );
                        fields.insert(key.clone(), written);
                    }
                },
            }
            Value::Object(fields)
        },
        PathSegment::Index(index) => {
            if last && keys_only {
                return j;
            }
            let mut items = match j {
                Value::Array(items) => items,
                _ => Vec::new(),
            };
            let ghost before = items_view(items@);
            proof {
                lemma_items_view(items@);
            }
            while items.len() <= *index
                invariant
                    before.len() <= items.len(),
                    forall|k: int| 0 <= k < before.len() ==> (#[trigger] items@[k])@ == before[k],
                    forall|k: int|
                        before.len() <= k < items.len() ==> (#[trigger] items@[k])@ == Json::Null,
                    items.len() > before.len() ==> items.len() <= *index + 1,
                decreases *index + 1 - items.len(),
            {
                items.push(Value::Null);
            }
            proof {
                lemma_items_view(items@);
                assert(items_view(items@) =~= padded(before, *index as nat));
            }
            let ghost filled = items_view(items@);
            if last {
                put_item(&mut items, *index, value);
            } else {
                let member = take_item(&mut items, *index);
                let written = write_at(member, path, i + 1, value, keys_only);
                put_item(&mut items, *index, written);
            }
            proof {
                lemma_items_view(items@);
                assert(items_view(items@) =~= filled.update(*index as int, items@[*index as int]@));
            }
            Value::Array(items)
        },
    }
}

/// Writes `value` at the place that `path` names in `json`, making objects
/// and arrays on the way as the steps ask for them. Only a path without
/// steps is refused, and then `json` stays as it is.
pub fn set_path(json: &mut Value, path: &[PathSegment], value: Value) -> (r: Result<(), PathError>)
    ensures
        path.len() == 0 ==> r == Err::<(), PathError>(PathError::EmptyPath) && final(json)@ == old(
            json,
        )@,
        path.len() > 0 ==> r is Ok && final(json)@ == set_at(
            old(json)@,
            segments_view(path@),
            0,
            value@,
            false,
        ),
{
    if path.len() == 0 {
        return Err(PathError::EmptyPath);
    }
    let mut taken = Value::Null;
    std::mem::swap(json, &mut taken);
    let mut written = write_at(taken, path, 0, value, false);
    std::mem::swap(json, &mut written);
    Ok(())
}

} // verus!
