//! The template language: its model, the parser and the renderer.
//!
//! A template is text with placeholders in braces: `{N}` and `{name}` stand
//! for a field, `{N:default}` for a field with a fallback, `{?N:text}` for
//! text that appears only when the field is non-empty, and `{{` / `}}` for
//! literal braces.

use vstd::prelude::*;

use crate::text::{
    chars_of, decimal, lemma_trim_idempotent, lemma_trim_keeps_out, parse_usize,
    parse_usize_range, push_char, push_decimal, push_range, string_of_range, trim, trim_bounds,
};

verus! {

// ---------------------------------------------------------------------------
// Data and its model
// ---------------------------------------------------------------------------

/// How a field is addressed — by 1-based index or by header name.
#[derive(Debug, PartialEq, Clone)]
pub enum FieldKey {
    Index(usize),
    Name(String),
}

/// A parsed segment of a format template.
#[derive(Debug, PartialEq)]
pub enum Segment {
    /// Literal text to emit as-is.
    Literal(String),
    /// `{N}` or `{name}` — substitute the field value; 1-indexed for numeric keys.
    Field { key: FieldKey },
    /// `{N:default}` — substitute the field, falling back to a default when empty.
    FieldWithDefault { key: FieldKey, default: String },
    /// `{?N:text}` — emit `text` only when field N is non-empty.
    Conditional { key: FieldKey, body: Vec<Segment> },
}

/// The mathematical value of a [`FieldKey`].
pub enum FieldKeyView {
    Index(usize),
    Name(Seq<char>),
}

/// The mathematical value of a [`Segment`].
pub enum SegmentView {
    Literal(Seq<char>),
    Field(FieldKeyView),
    FieldWithDefault(FieldKeyView, Seq<char>),
    Conditional(FieldKeyView, Seq<SegmentView>),
}

impl View for FieldKey {
    type V = FieldKeyView;

    open spec fn view(&self) -> FieldKeyView {
        match self {
            FieldKey::Index(n) => FieldKeyView::Index(*n),
            FieldKey::Name(s) => FieldKeyView::Name(s@),
        }
    }
}

pub open spec fn segment_view(s: Segment) -> SegmentView
    decreases s,
{
    match s {
        Segment::Literal(t) => SegmentView::Literal(t@),
        Segment::Field { key } => SegmentView::Field(key@),
        Segment::FieldWithDefault { key, default } => SegmentView::FieldWithDefault(
            key@,
            default@,
        ),
        Segment::Conditional { key, body } => SegmentView::Conditional(
            key@,
            segments_view(body@),
        ),
    }
}

pub open spec fn segments_view(v: Seq<Segment>) -> Seq<SegmentView>
    decreases v,
{
    if v.len() == 0 {
        Seq::empty()
    } else {
        segments_view(v.drop_last()).push(segment_view(v.last()))
    }
}

impl View for Segment {
    type V = SegmentView;

    open spec fn view(&self) -> SegmentView {
        segment_view(*self)
    }
}


pub open spec fn segments_result_view(r: Result<Vec<Segment>, String>) -> Result<
    Seq<SegmentView>,
    Seq<char>,
> {
    match r {
        Ok(v) => Ok(segments_view(v@)),
        Err(e) => Err(e@),
    }
}

pub open spec fn segment_result_view(r: Result<Segment, String>) -> Result<SegmentView, Seq<char>> {
    match r {
        Ok(s) => Ok(s@),
        Err(e) => Err(e@),
    }
}

pub open spec fn key_result_view(r: Result<FieldKey, String>) -> Result<FieldKeyView, Seq<char>> {
    match r {
        Ok(k) => Ok(k@),
        Err(e) => Err(e@),
    }
}

/// Every segment model of `v`, in order.
pub proof fn lemma_segments_view(v: Seq<Segment>)
    ensures
        segments_view(v).len() == v.len(),
        forall|i: int| 0 <= i < v.len() ==> #[trigger] segments_view(v)[i] == segment_view(v[i]),
    decreases v.len(),
{
    if v.len() > 0 {
        lemma_segments_view(v.drop_last());
    }
}

proof fn lemma_segments_view_push(v: Seq<Segment>, s: Segment)
    ensures
        segments_view(v.push(s)) == segments_view(v).push(segment_view(s)),
{
    assert(v.push(s).drop_last() =~= v);
}

// ---------------------------------------------------------------------------
// The shape of a parsed template
// ---------------------------------------------------------------------------

/// A key that a template can hold: indices are 1-based; a name is non-empty,
/// trimmed, free of colons, and does not read as an index.
pub open spec fn key_valid(k: FieldKeyView) -> bool {
    match k {
        FieldKeyView::Index(n) => n != 0,
        FieldKeyView::Name(m) => {
            &&& m.len() > 0
            &&& trim(m) == m
            &&& !m.contains(':')
            &&& parse_usize(m) is None
        },
    }
}

/// A segment that a template can hold: a literal has some text, and every
/// key, nested bodies included, is valid.
pub open spec fn segment_valid(s: SegmentView) -> bool
    decreases s,
{
    match s {
        SegmentView::Literal(t) => t.len() > 0,
        SegmentView::Field(k) => key_valid(k),
        SegmentView::FieldWithDefault(k, _) => key_valid(k),
        SegmentView::Conditional(k, body) => key_valid(k) && segments_valid(body),
    }
}

/// Every segment of `v` is valid.
pub open spec fn segments_valid(v: Seq<SegmentView>) -> bool
    decreases v,
{
    if v.len() == 0 {
        true
    } else {
        segments_valid(v.drop_last()) && segment_valid(v.last())
    }
}

// ---------------------------------------------------------------------------
// The grammar
// ---------------------------------------------------------------------------

pub open spec fn unclosed_brace_message() -> Seq<char> {
    "Unclosed `{` in format template"@
}

pub open spec fn stray_close_message(pos: nat) -> Seq<char> {
    "Unexpected `}` at position "@ + decimal(pos)
}

pub open spec fn empty_placeholder_message() -> Seq<char> {
    "Empty placeholder `{}`"@
}

pub open spec fn missing_colon_message(rest: Seq<char>) -> Seq<char> {
    "Expected `:` in conditional placeholder `{?"@ + rest + "}`"@
}

pub open spec fn empty_key_message() -> Seq<char> {
    "Empty field key in placeholder"@
}

pub open spec fn zero_index_message() -> Seq<char> {
    "Field indices are 1-based; `{0}` is not valid"@
}

pub open spec fn shift_by(o: Option<int>, k: int) -> Option<int> {
    match o {
        Some(e) => Some(e + k),
        None => None,
    }
}

/// The index in `s` of the `}` that closes a placeholder whose body starts at
/// `s[0]`, when `depth` nested `{` are still open: nested `{…}` pairs are
/// skipped over.
pub open spec fn closing_brace(s: Seq<char>, depth: nat) -> Option<int>
    decreases s.len(),
{
    if s.len() == 0 {
        None
    } else if s[0] == '{' {
        shift_by(closing_brace(s.drop_first(), depth + 1), 1)
    } else if s[0] == '}' {
        if depth > 0 {
            shift_by(closing_brace(s.drop_first(), (depth - 1) as nat), 1)
        } else {
            Some(0)
        }
    } else {
        shift_by(closing_brace(s.drop_first(), depth), 1)
    }
}

pub proof fn lemma_closing_brace_bounds(s: Seq<char>, depth: nat)
    ensures
        closing_brace(s, depth) matches Some(e) ==> 0 <= e < s.len() && s[e] == '}',
    decreases s.len(),
{
    if s.len() > 0 {
        lemma_closing_brace_bounds(s.drop_first(), depth + 1);
        lemma_closing_brace_bounds(s.drop_first(), depth);
        if depth > 0 {
            lemma_closing_brace_bounds(s.drop_first(), (depth - 1) as nat);
        }
    }
}

pub open spec fn is_brace(c: char) -> bool {
    c == '{' || c == '}'
}

/// The number of characters before the first brace of `s`.
pub open spec fn literal_run(s: Seq<char>) -> nat
    decreases s.len(),
{
    if s.len() > 0 && !is_brace(s[0]) {
        1 + literal_run(s.drop_first())
    } else {
        0
    }
}

pub proof fn lemma_literal_run_bounds(s: Seq<char>)
    ensures
        literal_run(s) <= s.len(),
        s.len() > 0 && !is_brace(s[0]) ==> literal_run(s) > 0,
    decreases s.len(),
{
    if s.len() > 0 {
        lemma_literal_run_bounds(s.drop_first());
    }
}

pub open spec fn prepend(seg: SegmentView, r: Result<Seq<SegmentView>, Seq<char>>) -> Result<
    Seq<SegmentView>,
    Seq<char>,
> {
    match r {
        Ok(v) => Ok(seq![seg] + v),
        Err(e) => Err(e),
    }
}

pub open spec fn prepend_all(
    prefix: Seq<SegmentView>,
    r: Result<Seq<SegmentView>, Seq<char>>,
) -> Result<Seq<SegmentView>, Seq<char>> {
    match r {
        Ok(v) => Ok(prefix + v),
        Err(e) => Err(e),
    }
}

/// The key written in a placeholder (already trimmed): a decimal index of 1
/// or more, or else a header name.
pub open spec fn parsed_key(s: Seq<char>) -> Result<FieldKeyView, Seq<char>> {
    if s.len() == 0 {
        Err(empty_key_message())
    } else {
        match parse_usize(s) {
            Some(n) => if n == 0 {
                Err(zero_index_message())
            } else {
                Ok(FieldKeyView::Index(n))
            },
            None => Ok(FieldKeyView::Name(s)),
        }
    }
}

/// The segments of the template `s`; `pos` is where `s` starts in the
/// template it was taken from, for the position in error messages.
pub open spec fn parsed_segments(s: Seq<char>, pos: nat) -> Result<Seq<SegmentView>, Seq<char>>
    decreases s.len(),
{
    if s.len() == 0 {
        Ok(Seq::empty())
    } else if s[0] == '{' {
        if s.len() > 1 && s[1] == '{' {
            prepend(SegmentView::Literal(seq!['{']), parsed_segments(s.skip(2), pos + 2))
        } else {
            match closing_brace(s.drop_first(), 0) {
                None => Err(unclosed_brace_message()),
                Some(e) => {
                    proof {
                        lemma_closing_brace_bounds(s.drop_first(), 0);
                    }
                    match parsed_placeholder(s.subrange(1, e + 1)) {
                        Err(m) => Err(m),
                        Ok(seg) => prepend(
                            seg,
                            parsed_segments(s.skip(e + 2), (pos + e + 2) as nat),
                        ),
                    }
                },
            }
        }
    } else if s[0] == '}' {
        if s.len() > 1 && s[1] == '}' {
            prepend(SegmentView::Literal(seq!['}']), parsed_segments(s.skip(2), pos + 2))
        } else {
            Err(stray_close_message(pos))
        }
    } else {
        let n = literal_run(s);
        proof {
            lemma_literal_run_bounds(s);
        }
        prepend(SegmentView::Literal(s.take(n as int)), parsed_segments(s.skip(n as int), pos + n))
    }
}

/// The segment written inside a pair of braces.
pub open spec fn parsed_placeholder(inner: Seq<char>) -> Result<SegmentView, Seq<char>>
    decreases inner.len(),
{
    if inner.len() == 0 {
        Err(empty_placeholder_message())
    } else if inner[0] == '?' {
        let rest = inner.drop_first();
        match rest.index_of_first(':') {
            None => Err(missing_colon_message(rest)),
            Some(p) => {
                proof {
                    rest.index_of_first_ensures(':');
                }
                match parsed_key(trim(rest.take(p))) {
                    Err(m) => Err(m),
                    Ok(k) => match parsed_segments(rest.skip(p + 1), 0) {
                        Err(m) => Err(m),
                        Ok(body) => Ok(SegmentView::Conditional(k, body)),
                    },
                }
            },
        }
    } else {
        match inner.index_of_first(':') {
            Some(p) => match parsed_key(trim(inner.take(p))) {
                Err(m) => Err(m),
                Ok(k) => Ok(SegmentView::FieldWithDefault(k, inner.skip(p + 1))),
            },
            None => match parsed_key(trim(inner)) {
                Err(m) => Err(m),
                Ok(k) => Ok(SegmentView::Field(k)),
            },
        }
    }
}

/// What [`parse_template`] gives for the template `t`.
pub open spec fn parsed_template(t: Seq<char>) -> Result<Seq<SegmentView>, Seq<char>> {
    parsed_segments(t, 0)
}

proof fn lemma_segments_valid_prepend(x: SegmentView, v: Seq<SegmentView>)
    requires
        segment_valid(x),
        segments_valid(v),
    ensures
        segments_valid(seq![x] + v),
    decreases v.len(),
{
    if v.len() == 0 {
        assert((seq![x] + v).drop_last() =~= Seq::<SegmentView>::empty());
        assert((seq![x] + v).last() == x);
        assert(segments_valid(Seq::<SegmentView>::empty()));
    } else {
        lemma_segments_valid_prepend(x, v.drop_last());
        assert((seq![x] + v).drop_last() =~= seq![x] + v.drop_last());
        assert((seq![x] + v).last() == v.last());
        assert(segment_valid(v.last()));
        assert(segments_valid(seq![x] + v.drop_last()));
        assert(segments_valid(seq![x] + v) == (segments_valid((seq![x] + v).drop_last())
            && segment_valid((seq![x] + v).last())));
    }
}

/// What the key part of a placeholder reads as is a valid key, when the part
/// has no colon.
proof fn lemma_parsed_key_valid(x: Seq<char>)
    requires
        !x.contains(':'),
    ensures
        parsed_key(trim(x)) matches Ok(k) ==> key_valid(k),
{
    lemma_trim_idempotent(x);
    lemma_trim_keeps_out(x, ':');
}

/// A successful parse has the shape that [`segments_valid`] describes.
pub proof fn lemma_parsed_valid(s: Seq<char>, pos: nat)
    ensures
        parsed_segments(s, pos) matches Ok(v) ==> segments_valid(v),
    decreases s.len(),
{
    if s.len() == 0 {
    } else if s[0] == '{' {
        if s.len() > 1 && s[1] == '{' {
            lemma_parsed_valid(s.skip(2), pos + 2);
            if let Ok(v) = parsed_segments(s.skip(2), pos + 2) {
                lemma_segments_valid_prepend(SegmentView::Literal(seq!['{']), v);
            }
        } else {
            lemma_closing_brace_bounds(s.drop_first(), 0);
            if let Some(e) = closing_brace(s.drop_first(), 0) {
                lemma_placeholder_valid(s.subrange(1, e + 1));
                let p2 = (pos + e + 2) as nat;
                lemma_parsed_valid(s.skip(e + 2), p2);
                if let (Ok(x), Ok(v)) = (
                    parsed_placeholder(s.subrange(1, e + 1)),
                    parsed_segments(s.skip(e + 2), p2),
                ) {
                    lemma_segments_valid_prepend(x, v);
                }
            }
        }
    } else if s[0] == '}' {
        if s.len() > 1 && s[1] == '}' {
            lemma_parsed_valid(s.skip(2), pos + 2);
            if let Ok(v) = parsed_segments(s.skip(2), pos + 2) {
                lemma_segments_valid_prepend(SegmentView::Literal(seq!['}']), v);
            }
        }
    } else {
        lemma_literal_run_bounds(s);
        let n = literal_run(s);
        lemma_parsed_valid(s.skip(n as int), pos + n);
        if let Ok(v) = parsed_segments(s.skip(n as int), pos + n) {
            lemma_segments_valid_prepend(SegmentView::Literal(s.take(n as int)), v);
        }
    }
}

/// A placeholder that parses makes a valid segment.
pub proof fn lemma_placeholder_valid(inner: Seq<char>)
    ensures
        parsed_placeholder(inner) matches Ok(x) ==> segment_valid(x),
    decreases inner.len(),
{
    if inner.len() == 0 {
    } else if inner[0] == '?' {
        let rest = inner.drop_first();
        rest.index_of_first_ensures(':');
        if let Some(p) = rest.index_of_first(':') {
            let key = rest.take(p);
            if key.contains(':') {
                let j = choose|j: int| 0 <= j < key.len() && key[j] == ':';
                assert(rest[j] == ':');
            }
            lemma_parsed_key_valid(key);
            lemma_parsed_valid(rest.skip(p + 1), 0);
        }
    } else {
        inner.index_of_first_ensures(':');
        match inner.index_of_first(':') {
            Some(p) => {
                let key = inner.take(p);
                if key.contains(':') {
                    let j = choose|j: int| 0 <= j < key.len() && key[j] == ':';
                    assert(inner[j] == ':');
                }
                lemma_parsed_key_valid(key);
            },
            None => {
                lemma_parsed_key_valid(inner);
            },
        }
    }
}

// ---------------------------------------------------------------------------
// The parser
// ---------------------------------------------------------------------------

proof fn lemma_prepend_all_push(
    prefix: Seq<SegmentView>,
    seg: SegmentView,
    r: Result<Seq<SegmentView>, Seq<char>>,
)
    ensures
        prepend_all(prefix, prepend(seg, r)) == prepend_all(prefix.push(seg), r),
{
    if let Ok(v) = r {
        assert(prefix + (seq![seg] + v) =~= prefix.push(seg) + v);
    }
}

/// Locate the `}` that closes an opening `{`, searching `chars[start..hi]`
/// (`start` is the character after `{`).  Nested `{…}` pairs are skipped, so
/// that `{?1:text {2} here}` finds the outer `}`.  A search that starts at
/// or past `hi` finds nothing.
fn find_closing_brace(chars: &Vec<char>, start: usize, hi: usize) -> (r: Result<usize, String>)
    requires
        hi <= chars@.len(),
    ensures
        match r {
            Ok(e) => start <= e < hi && closing_brace(
                chars@.subrange(start as int, hi as int),
                0,
            ) == Some(e - start),
            Err(m) => m@ == unclosed_brace_message() && (start <= hi ==> closing_brace(
                chars@.subrange(start as int, hi as int),
                0,
            ) is None),
        },
        start >= hi ==> r is Err,
{
    if start > hi {
        return Err(String::from_str("Unclosed `{` in format template"));
    }
    let mut depth: usize = 0;
    let mut i = start;
    while i < hi
        invariant
            start <= i <= hi <= chars@.len(),
            depth <= i - start,
            closing_brace(chars@.subrange(start as int, hi as int), 0) == shift_by(
                closing_brace(chars@.subrange(i as int, hi as int), depth as nat),
                i - start,
            ),
        decreases hi - i,
    {
        let ch = chars[i];
        assert(chars@.subrange(i as int, hi as int).drop_first() =~= chars@.subrange(
            i + 1,
            hi as int,
        ));
        if ch == '{' {
            depth = depth + 1;
        } else if ch == '}' {
            if depth > 0 {
                depth = depth - 1;
            } else {
                return Ok(i);
            }
        }
        i = i + 1;
    }
    Err(String::from_str("Unclosed `{` in format template"))
}

/// The position of the first `c` in `chars[lo..hi]`.
fn find_char(chars: &Vec<char>, lo: usize, hi: usize, c: char) -> (r: Option<usize>)
    requires
        lo <= hi <= chars@.len(),
    ensures
        match r {
            Some(p) => lo <= p < hi && chars@.subrange(lo as int, hi as int).index_of_first(c)
                == Some(p - lo),
            None => chars@.subrange(lo as int, hi as int).index_of_first(c) is None,
        },
{
    let ghost s = chars@.subrange(lo as int, hi as int);
    let mut i = lo;
    while i < hi
        invariant
            lo <= i <= hi <= chars@.len(),
            s == chars@.subrange(lo as int, hi as int),
            forall|j: int| lo <= j < i ==> chars@[j] != c,
        decreases hi - i,
    {
        if chars[i] == c {
            proof {
                s.index_of_first_ensures(c);
                assert(s[i - lo] == c);
                let k = s.index_of_first(c)->0;
                if k < i - lo {
                    assert(chars@[lo + k] == s[k]);
                }
            }
            return Some(i);
        }
        i = i + 1;
    }
    proof {
        s.index_of_first_ensures(c);
        if s.contains(c) {
            let k = s.index_of_first(c)->0;
            assert(chars@[lo + k] == s[k]);
        }
    }
    None
}

/// Split `chars[lo..hi]` on its first `:`, returning the colon's position;
/// an error when there is none.
fn split_first_colon(chars: &Vec<char>, lo: usize, hi: usize) -> (r: Result<usize, String>)
    requires
        lo <= hi <= chars@.len(),
    ensures
        match r {
            Ok(p) => lo <= p < hi && chars@.subrange(lo as int, hi as int).index_of_first(':')
                == Some(p - lo),
            Err(m) => chars@.subrange(lo as int, hi as int).index_of_first(':') is None && m@
                == missing_colon_message(chars@.subrange(lo as int, hi as int)),
        },
{
    match find_char(chars, lo, hi, ':') {
        Some(p) => Ok(p),
        None => {
            let mut m = String::from_str("Expected `:` in conditional placeholder `{?");
            push_range(&mut m, chars, lo, hi);
            m.append("}`");
            Err(m)
        },
    }
}

/// Parse a key that is either a 1-based integer index or a header name.
fn parse_key(chars: &Vec<char>, lo: usize, hi: usize) -> (r: Result<FieldKey, String>)
    requires
        lo <= hi <= chars@.len(),
    ensures
        key_result_view(r) == parsed_key(chars@.subrange(lo as int, hi as int)),
{
    if lo == hi {
        return Err(String::from_str("Empty field key in placeholder"));
    }
    match parse_usize_range(chars, lo, hi) {
        Some(n) => {
            if n == 0 {
                Err(String::from_str("Field indices are 1-based; `{0}` is not valid"))
            } else {
                Ok(FieldKey::Index(n))
            }
        },
        None => Ok(FieldKey::Name(string_of_range(chars, lo, hi))),
    }
}

/// Parse the content inside a `{ … }`, `chars[lo..hi]`, into a segment.
fn parse_placeholder(chars: &Vec<char>, lo: usize, hi: usize) -> (r: Result<Segment, String>)
    requires
        lo <= hi <= chars@.len(),
    ensures
        segment_result_view(r) == parsed_placeholder(chars@.subrange(lo as int, hi as int)),
    decreases hi - lo,
{
    let ghost inner = chars@.subrange(lo as int, hi as int);
    if lo == hi {
        return Err(String::from_str("Empty placeholder `{}`"));
    }
    if chars[lo] == '?' {
        let ghost rest = inner.drop_first();
        assert(rest =~= chars@.subrange(lo + 1, hi as int));
        let colon = match split_first_colon(chars, lo + 1, hi) {
            Ok(p) => p,
            Err(m) => return Err(m),
        };
        let ghost p = colon - (lo + 1);
        proof {
            rest.index_of_first_ensures(':');
        }
        assert(rest.take(p) =~= chars@.subrange(lo + 1, colon as int));
        assert(rest.skip(p + 1) =~= chars@.subrange(colon + 1, hi as int));
        let (a, b) = trim_bounds(chars, lo + 1, colon);
        let key = match parse_key(chars, a, b) {
            Ok(k) => k,
            Err(m) => return Err(m),
        };
        let body = match parse_chars(chars, colon + 1, hi) {
            Ok(v) => v,
            Err(m) => return Err(m),
        };
        return Ok(Segment::Conditional { key, body });
    }
    match find_char(chars, lo, hi, ':') {
        Some(colon) => {
            let ghost p = colon - lo;
            proof {
                inner.index_of_first_ensures(':');
            }
            assert(inner.take(p) =~= chars@.subrange(lo as int, colon as int));
            assert(inner.skip(p + 1) =~= chars@.subrange(colon + 1, hi as int));
            let (a, b) = trim_bounds(chars, lo, colon);
            let key = match parse_key(chars, a, b) {
                Ok(k) => k,
                Err(m) => return Err(m),
            };
            let default = string_of_range(chars, colon + 1, hi);
            Ok(Segment::FieldWithDefault { key, default })
        },
        None => {
            let (a, b) = trim_bounds(chars, lo, hi);
            let key = match parse_key(chars, a, b) {
                Ok(k) => k,
                Err(m) => return Err(m),
            };
            Ok(Segment::Field { key })
        },
    }
}

/// Parse the template `chars[lo..hi]` into segments.
fn parse_chars(chars: &Vec<char>, lo: usize, hi: usize) -> (r: Result<Vec<Segment>, String>)
    requires
        lo <= hi <= chars@.len(),
    ensures
        segments_result_view(r) == parsed_segments(chars@.subrange(lo as int, hi as int), 0),
    decreases hi - lo,
{
    let mut segments: Vec<Segment> = Vec::new();
    let mut i = lo;
    proof {
        if let Ok(v) = parsed_segments(chars@.subrange(lo as int, hi as int), 0) {
            assert(Seq::<SegmentView>::empty() + v =~= v);
        }
    }
    while i < hi
        invariant
            lo <= i <= hi <= chars@.len(),
            parsed_segments(chars@.subrange(lo as int, hi as int), 0) == prepend_all(
                segments_view(segments@),
                parsed_segments(chars@.subrange(i as int, hi as int), (i - lo) as nat),
            ),
        decreases hi - i,
    {
        let ghost s = chars@.subrange(i as int, hi as int);
        let ghost pos = (i - lo) as nat;
        let ghost before = segments@;
        let ch = chars[i];
        if ch == '{' {
            if i + 1 < hi && chars[i + 1] == '{' {
                let lit = String::from_str("{");
                proof {
                    reveal_strlit("{");
                    assert(lit@ =~= seq!['{']);
                    assert(s.skip(2) =~= chars@.subrange(i + 2, hi as int));
                    assert(parsed_segments(s, pos) == prepend(
                        SegmentView::Literal(seq!['{']),
                        parsed_segments(s.skip(2), pos + 2),
                    ));
                    lemma_prepend_all_push(
                        segments_view(before),
                        SegmentView::Literal(seq!['{']),
                        parsed_segments(s.skip(2), pos + 2),
                    );
                    lemma_segments_view_push(before, Segment::Literal(lit));
                }
                segments.push(Segment::Literal(lit));
                i = i + 2;
            } else {
                let start = i + 1;
                assert(s.drop_first() =~= chars@.subrange(start as int, hi as int));
                let end = match find_closing_brace(chars, start, hi) {
                    Ok(e) => e,
                    Err(m) => return Err(m),
                };
                let ghost e = end - start;
                assert(s.subrange(1, e + 1) =~= chars@.subrange(start as int, end as int));
                assert(s.skip(e + 2) =~= chars@.subrange(end + 1, hi as int));
                let seg = match parse_placeholder(chars, start, end) {
                    Ok(x) => x,
                    Err(m) => return Err(m),
                };
                proof {
                    assert(parsed_segments(s, pos) == prepend(
                        seg@,
                        parsed_segments(s.skip(e + 2), (pos + e + 2) as nat),
                    ));
                    lemma_prepend_all_push(
                        segments_view(before),
                        seg@,
                        parsed_segments(s.skip(e + 2), (pos + e + 2) as nat),
                    );
                    lemma_segments_view_push(before, seg);
                }
                segments.push(seg);
                i = end + 1;
            }
        } else if ch == '}' {
            if i + 1 < hi && chars[i + 1] == '}' {
                let lit = String::from_str("}");
                proof {
                    reveal_strlit("}");
                    assert(lit@ =~= seq!['}']);
                    assert(s.skip(2) =~= chars@.subrange(i + 2, hi as int));
                    assert(parsed_segments(s, pos) == prepend(
                        SegmentView::Literal(seq!['}']),
                        parsed_segments(s.skip(2), pos + 2),
                    ));
                    lemma_prepend_all_push(
                        segments_view(before),
                        SegmentView::Literal(seq!['}']),
                        parsed_segments(s.skip(2), pos + 2),
                    );
                    lemma_segments_view_push(before, Segment::Literal(lit));
                }
                segments.push(Segment::Literal(lit));
                i = i + 2;
            } else {
                let mut m = String::from_str("Unexpected `}` at position ");
                push_decimal(&mut m, i - lo);
                return Err(m);
            }
        } else {
            let mut j = i;
            while j < hi && chars[j] != '{' && chars[j] != '}'
                invariant
                    i <= j <= hi <= chars@.len(),
                    s == chars@.subrange(i as int, hi as int),
                    literal_run(s) == (j - i) + literal_run(chars@.subrange(j as int, hi as int)),
                decreases hi - j,
            {
                assert(chars@.subrange(j as int, hi as int).drop_first() =~= chars@.subrange(
                    j + 1,
                    hi as int,
                ));
                j = j + 1;
            }
            let ghost n = literal_run(s);
            assert(n == j - i);
            let lit = string_of_range(chars, i, j);
            proof {
                assert(s.take(n as int) =~= chars@.subrange(i as int, j as int));
                assert(s.skip(n as int) =~= chars@.subrange(j as int, hi as int));
                assert(parsed_segments(s, pos) == prepend(
                    SegmentView::Literal(s.take(n as int)),
                    parsed_segments(s.skip(n as int), pos + n),
                ));
                lemma_prepend_all_push(
                    segments_view(before),
                    SegmentView::Literal(s.take(n as int)),
                    parsed_segments(s.skip(n as int), pos + n),
                );
                lemma_segments_view_push(before, Segment::Literal(lit));
            }
            segments.push(Segment::Literal(lit));
            i = j;
        }
    }
    proof {
        let v = segments_view(segments@);
        assert(v + Seq::<SegmentView>::empty() =~= v);
    }
    Ok(segments)
}

/// Parse a format template into a list of [`Segment`]s.
///
/// Syntax:
/// - `{1}` / `{name}` — field substitution (1-indexed)
/// - `{1:default}` / `{name:default}` — field with fallback default
/// - `{?1:body text}` — conditional: include body only if field is non-empty
///   (the body may itself contain `{N}` or `{name}` references)
/// - `{{` / `}}` — escaped literal brace
pub fn parse_template(template: &str) -> (r: Result<Vec<Segment>, String>)
    ensures
        segments_result_view(r) == parsed_template(template@),
        r matches Ok(v) ==> segments_valid(segments_view(v@)),
{
    let chars = chars_of(template);
    assert(chars@.subrange(0, chars@.len() as int) =~= template@);
    proof {
        lemma_parsed_valid(template@, 0);
    }
    parse_chars(&chars, 0, chars.len())
}

// ---------------------------------------------------------------------------
// Looking up fields and rendering
// ---------------------------------------------------------------------------

/// The text of each string of `r`.
pub open spec fn strings_view(r: Seq<String>) -> Seq<Seq<char>> {
    r.map_values(|s: String| s@)
}

/// The header row, when there is one, as text.
pub open spec fn headers_view(h: Option<&[String]>) -> Option<Seq<Seq<char>>> {
    match h {
        Some(x) => Some(strings_view(x@)),
        None => None,
    }
}

pub open spec fn str_option_view(o: Option<&str>) -> Option<Seq<char>> {
    match o {
        Some(s) => Some(s@),
        None => None,
    }
}

/// The value that `key` picks from `record`: the `n`-th field for the index
/// `n` (nothing for 0 or a position past the end); for a name, the field in
/// the column of the first header equal to it, and nothing without a header
/// row.
pub open spec fn resolved(
    key: FieldKeyView,
    record: Seq<Seq<char>>,
    headers: Option<Seq<Seq<char>>>,
) -> Option<Seq<char>> {
    match key {
        FieldKeyView::Index(n) => if 1 <= n && n <= record.len() {
            Some(record[n - 1])
        } else {
            None
        },
        FieldKeyView::Name(name) => match headers {
            None => None,
            Some(h) => match h.index_of_first(name) {
                Some(p) => if p < record.len() {
                    Some(record[p])
                } else {
                    None
                },
                None => None,
            },
        },
    }
}

/// The resolved value, or the empty text when there is none.
pub open spec fn value_or_empty(o: Option<Seq<char>>) -> Seq<char> {
    match o {
        Some(v) => v,
        None => Seq::empty(),
    }
}

/// The text that `segs` produce for `record`.
pub open spec fn rendered(
    segs: Seq<SegmentView>,
    record: Seq<Seq<char>>,
    headers: Option<Seq<Seq<char>>>,
) -> Seq<char>
    decreases segs,
{
    if segs.len() == 0 {
        Seq::empty()
    } else {
        rendered(segs.drop_last(), record, headers) + rendered_segment(
            segs.last(),
            record,
            headers,
        )
    }
}

/// The text that one segment produces for `record`.
pub open spec fn rendered_segment(
    seg: SegmentView,
    record: Seq<Seq<char>>,
    headers: Option<Seq<Seq<char>>>,
) -> Seq<char>
    decreases seg,
{
    match seg {
        SegmentView::Literal(t) => t,
        SegmentView::Field(k) => value_or_empty(resolved(k, record, headers)),
        SegmentView::FieldWithDefault(k, d) => {
            let v = value_or_empty(resolved(k, record, headers));
            if v.len() == 0 {
                d
            } else {
                v
            }
        },
        SegmentView::Conditional(k, body) => {
            if value_or_empty(resolved(k, record, headers)).len() != 0 {
                rendered(body, record, headers)
            } else {
                Seq::empty()
            }
        },
    }
}

proof fn lemma_rendered_push(
    v: Seq<SegmentView>,
    x: SegmentView,
    record: Seq<Seq<char>>,
    headers: Option<Seq<Seq<char>>>,
)
    ensures
        rendered(v.push(x), record, headers) == rendered(v, record, headers) + rendered_segment(
            x,
            record,
            headers,
        ),
{
    assert(v.push(x).drop_last() =~= v);
}

/// Resolve a [`FieldKey`] against a record, returning the field value or `None`.
pub fn resolve_key<'a>(key: &FieldKey, record: &'a [String], headers: Option<&[String]>) -> (r:
    Option<&'a str>)
    ensures
        str_option_view(r) == resolved(key@, strings_view(record@), headers_view(headers)),
{
    match key {
        FieldKey::Index(n) => {
            if *n == 0 {
                return None;
            }
            let i = *n - 1;
            if i < record.len() {
                Some(record[i].as_str())
            } else {
                None
            }
        },
        FieldKey::Name(name) => {
            match headers {
                None => None,
                Some(h) => {
                    let ghost hv = strings_view(h@);
                    let mut p: usize = 0;
                    while p < h.len()
                        invariant
                            p <= h@.len(),
                            hv == strings_view(h@),
                            forall|j: int| 0 <= j < p ==> hv[j] != name@,
                            key@ == FieldKeyView::Name(name@),
                            headers_view(headers) == Some(hv),
                        decreases h@.len() - p,
                    {
                        if h[p] == *name {
                            proof {
                                hv.index_of_first_ensures(name@);
                                assert(hv[p as int] == name@);
                                let k = hv.index_of_first(name@)->0;
                                assert(k == p);
                            }
                            if p < record.len() {
                                return Some(record[p].as_str());
                            } else {
                                return None;
                            }
                        }
                        p = p + 1;
                    }
                    proof {
                        hv.index_of_first_ensures(name@);
                        if hv.contains(name@) {
                            let k = hv.index_of_first(name@)->0;
                            assert(hv[k] == name@);
                        }
                    }
                    None
                },
            }
        },
    }
}

/// Render a list of [`Segment`]s against a CSV record.
pub fn render(segments: &[Segment], record: &[String], headers: Option<&[String]>) -> (out:
    String)
    ensures
        out@ == rendered(segments_view(segments@), strings_view(record@), headers_view(headers)),
    decreases segments@,
{
    let ghost rec = strings_view(record@);
    let ghost hdr = headers_view(headers);
    let mut out = String::new();
    proof {
        lemma_segments_view(segments@);
    }
    let n = segments.len();
    let mut i: usize = 0;
    while i < n
        invariant
            i <= n == segments@.len(),
            rec == strings_view(record@),
            hdr == headers_view(headers),
            out@ == rendered(segments_view(segments@.take(i as int)), rec, hdr),
        decreases n - i,
    {
        let ghost taken = segments@.take(i as int);
        assert(segments@.take(i + 1) =~= taken.push(segments@[i as int]));
        proof {
            lemma_rendered_push(
                segments_view(taken),
                segment_view(segments@[i as int]),
                rec,
                hdr,
            );
            reveal_strlit("");
            lemma_segments_view_push(taken, segments@[i as int]);
            lemma_segments_view(segments@);
        }
        match &segments[i] {
            Segment::Literal(s) => {
                out.append(s.as_str());
            },
            Segment::Field { key } => {
                match resolve_key(key, record, headers) {
                    Some(v) => {
                        out.append(v);
                    },
                    None => {},
                }
            },
            Segment::FieldWithDefault { key, default } => {
                let v = match resolve_key(key, record, headers) {
                    Some(v) => v,
                    None => "",
                };
                if v.is_empty() {
                    out.append(default.as_str());
                } else {
                    out.append(v);
                }
            },
            Segment::Conditional { key, body } => {
                let v = match resolve_key(key, record, headers) {
                    Some(v) => v,
                    None => "",
                };
                if !v.is_empty() {
                    proof {
                        assert(decreases_to!(segments@ => segments@[i as int]));
                        assert(decreases_to!(segments@[i as int] => *body));
                        assert(decreases_to!(*body => body@));
                    }
                    let inner = render(body.as_slice(), record, headers);
                    out.append(inner.as_str());
                }
            },
        }
        i = i + 1;
    }
    assert(segments@.take(n as int) =~= segments@);
    out
}

} // verus!
