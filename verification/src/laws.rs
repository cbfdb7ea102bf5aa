//! Properties of the template language that relate the parser, the renderer
//! and the text helpers.

use vstd::prelude::*;

use crate::format::{
    closing_brace, is_brace, lemma_closing_brace_bounds, lemma_literal_run_bounds, literal_run,
    parsed_key, parsed_placeholder, parsed_segments, parsed_template, prepend, prepend_all,
    rendered, rendered_segment, resolved, shift_by, stray_close_message, unclosed_brace_message,
    value_or_empty, FieldKeyView, SegmentView,
};
use crate::text::{
    all_digits, decimal, digit_char, digits_value, is_ascii_digit, parse_usize, trim, trim_end,
    trim_start, unsigned_part, white_space,
};

verus! {

/// `t` contains neither `{` nor `}`.
pub open spec fn brace_free(t: Seq<char>) -> bool {
    forall|i: int| 0 <= i < t.len() ==> !is_brace(#[trigger] t[i])
}

/// `t` with every brace doubled, the way a brace is written as literal text.
pub open spec fn escaped(t: Seq<char>) -> Seq<char>
    decreases t.len(),
{
    if t.len() == 0 {
        t
    } else if is_brace(t[0]) {
        seq![t[0], t[0]] + escaped(t.drop_first())
    } else {
        seq![t[0]] + escaped(t.drop_first())
    }
}

/// The template `{inner}`.
pub open spec fn braced(inner: Seq<char>) -> Seq<char> {
    seq!['{'] + inner + seq!['}']
}

/// `s` is a literal with some text.
pub open spec fn is_nonempty_literal(s: SegmentView) -> bool {
    match s {
        SegmentView::Literal(x) => x.len() > 0,
        _ => false,
    }
}

/// The text of the literal segments of `v`, joined in order.
pub open spec fn literal_text(v: Seq<SegmentView>) -> Seq<char>
    decreases v.len(),
{
    if v.len() == 0 {
        Seq::empty()
    } else {
        (match v[0] {
            SegmentView::Literal(x) => x,
            _ => Seq::empty(),
        }) + literal_text(v.drop_first())
    }
}

proof fn lemma_literal_prepend(x: Seq<char>, v: Seq<SegmentView>)
    requires
        x.len() > 0,
        forall|i: int| 0 <= i < v.len() ==> #[trigger] is_nonempty_literal(v[i]),
    ensures
        forall|i: int|
            0 <= i < (seq![SegmentView::Literal(x)] + v).len() ==> #[trigger] is_nonempty_literal(
                (seq![SegmentView::Literal(x)] + v)[i],
            ),
        literal_text(seq![SegmentView::Literal(x)] + v) == x + literal_text(v),
{
    let w = seq![SegmentView::Literal(x)] + v;
    assert forall|i: int| 0 <= i < w.len() implies #[trigger] is_nonempty_literal(w[i]) by {
        if i > 0 {
            assert(w[i] == v[i - 1]);
        }
    }
    assert(w.drop_first() =~= v);
}

/// Rendering is compositional: the text of two segment lists one after the
/// other is the text of the first followed by the text of the second.
pub proof fn law_render_concat(
    a: Seq<SegmentView>,
    b: Seq<SegmentView>,
    record: Seq<Seq<char>>,
    headers: Option<Seq<Seq<char>>>,
)
    ensures
        rendered(a + b, record, headers) == rendered(a, record, headers) + rendered(
            b,
            record,
            headers,
        ),
    decreases b.len(),
{
    if b.len() == 0 {
        assert(a + b =~= a);
        let r = rendered(a, record, headers);
        assert(r + Seq::<char>::empty() =~= r);
    } else {
        assert((a + b).drop_last() =~= a + b.drop_last());
        law_render_concat(a, b.drop_last(), record, headers);
        assert((a + b).last() == b.last());
    }
}

proof fn lemma_render_prepend(
    x: SegmentView,
    v: Seq<SegmentView>,
    record: Seq<Seq<char>>,
    headers: Option<Seq<Seq<char>>>,
)
    ensures
        rendered(seq![x] + v, record, headers) == rendered_segment(x, record, headers) + rendered(
            v,
            record,
            headers,
        ),
{
    law_render_concat(seq![x], v, record, headers);
    assert(seq![x].drop_last() =~= Seq::<SegmentView>::empty());
    assert(seq![x].last() == x);
    assert(rendered(Seq::<SegmentView>::empty(), record, headers) == Seq::<char>::empty());
    assert(Seq::<char>::empty() + rendered_segment(x, record, headers) =~= rendered_segment(
        x,
        record,
        headers,
    ));
}

proof fn lemma_escaped_run(t: Seq<char>)
    ensures
        escaped(t) == t.take(literal_run(t) as int) + escaped(t.skip(literal_run(t) as int)),
        literal_run(escaped(t)) == literal_run(t),
        literal_run(t) <= t.len(),
    decreases t.len(),
{
    if t.len() == 0 || is_brace(t[0]) {
        assert(t.take(0) =~= Seq::<char>::empty());
        assert(t.skip(0) =~= t);
        assert(Seq::<char>::empty() + escaped(t) =~= escaped(t));
    } else {
        let r = t.drop_first();
        lemma_escaped_run(r);
        let k = literal_run(r) as int;
        assert(t.skip(k + 1) =~= r.skip(k));
        assert(seq![t[0]] + (r.take(k) + escaped(r.skip(k))) =~= t.take(k + 1) + escaped(
            t.skip(k + 1),
        ));
        assert((seq![t[0]] + escaped(r)).drop_first() =~= escaped(r));
    }
}

/// Literal braces: the template that writes each brace of `t` twice parses
/// into literal segments, each with some text, whose texts joined give `t`
/// back; it renders `t` itself for every record.
pub proof fn law_escaped_text_renders_itself(
    t: Seq<char>,
    record: Seq<Seq<char>>,
    headers: Option<Seq<Seq<char>>>,
)
    ensures
        parsed_template(escaped(t)) matches Ok(v) && rendered(v, record, headers) == t
            && literal_text(v) == t && forall|i: int|
            0 <= i < v.len() ==> #[trigger] is_nonempty_literal(v[i]),
{
    lemma_escaped_renders(t, 0, record, headers);
}

proof fn lemma_escaped_renders(
    t: Seq<char>,
    pos: nat,
    record: Seq<Seq<char>>,
    headers: Option<Seq<Seq<char>>>,
)
    ensures
        parsed_segments(escaped(t), pos) matches Ok(v) && rendered(v, record, headers) == t
            && literal_text(v) == t && forall|i: int|
            0 <= i < v.len() ==> #[trigger] is_nonempty_literal(v[i]),
    decreases t.len(),
{
    let s = escaped(t);
    if t.len() == 0 {
    } else if is_brace(t[0]) {
        let r = t.drop_first();
        lemma_escaped_renders(r, pos + 2, record, headers);
        assert(s.skip(2) =~= escaped(r));
        let v = parsed_segments(escaped(r), pos + 2)->Ok_0;
        let lit = SegmentView::Literal(seq![t[0]]);
        assert(parsed_segments(s, pos) == prepend(lit, parsed_segments(s.skip(2), pos + 2)));
        lemma_render_prepend(lit, v, record, headers);
        lemma_literal_prepend(seq![t[0]], v);
        assert(seq![t[0]] + r =~= t);
    } else {
        lemma_escaped_run(t);
        let k = literal_run(t);
        let r = t.skip(k as int);
        assert(s.take(k as int) =~= t.take(k as int));
        assert(s.skip(k as int) =~= escaped(r));
        lemma_escaped_renders(r, pos + k, record, headers);
        let v = parsed_segments(escaped(r), pos + k)->Ok_0;
        let lit = SegmentView::Literal(t.take(k as int));
        lemma_render_prepend(lit, v, record, headers);
        lemma_literal_prepend(t.take(k as int), v);
        assert(t.take(k as int) + r =~= t);
    }
}

proof fn lemma_brace_free_run(t: Seq<char>)
    requires
        brace_free(t),
    ensures
        literal_run(t) == t.len(),
        escaped(t) == t,
    decreases t.len(),
{
    if t.len() > 0 {
        assert(!is_brace(t[0]));
        let r = t.drop_first();
        assert forall|i: int| 0 <= i < r.len() implies !is_brace(#[trigger] r[i]) by {
            assert(r[i] == t[i + 1]);
        }
        lemma_brace_free_run(r);
        assert(seq![t[0]] + r =~= t);
    }
}

/// Text without braces is one literal segment (none when it is empty),
/// which renders as the text itself.
pub proof fn law_plain_text_is_literal(
    t: Seq<char>,
    record: Seq<Seq<char>>,
    headers: Option<Seq<Seq<char>>>,
)
    requires
        brace_free(t),
    ensures
        parsed_template(t) == (if t.len() == 0 {
            Ok::<Seq<SegmentView>, Seq<char>>(Seq::<SegmentView>::empty())
        } else {
            Ok(seq![SegmentView::Literal(t)])
        }),
        parsed_template(t) matches Ok(v) && rendered(v, record, headers) == t,
{
    lemma_plain_parse(t, 0);
    lemma_brace_free_run(t);
    law_escaped_text_renders_itself(t, record, headers);
}

proof fn lemma_plain_parse(t: Seq<char>, pos: nat)
    requires
        brace_free(t),
    ensures
        parsed_segments(t, pos) == (if t.len() == 0 {
            Ok::<Seq<SegmentView>, Seq<char>>(Seq::<SegmentView>::empty())
        } else {
            Ok(seq![SegmentView::Literal(t)])
        }),
{
    lemma_brace_free_run(t);
    if t.len() > 0 {
        assert(!is_brace(t[0]));
        assert(t.take(t.len() as int) =~= t);
        assert(t.skip(t.len() as int) =~= Seq::<char>::empty());
        assert(parsed_segments(Seq::<char>::empty(), pos + t.len()) == Ok::<
            Seq<SegmentView>,
            Seq<char>,
        >(Seq::<SegmentView>::empty()));
        assert(seq![SegmentView::Literal(t)] + Seq::<SegmentView>::empty() =~= seq![
            SegmentView::Literal(t),
        ]);
    }
}

proof fn lemma_decimal(n: nat)
    ensures
        decimal(n).len() >= 1,
        all_digits(decimal(n)),
        digits_value(decimal(n)) == n,
    decreases n,
{
    let d = digit_char(n % 10);
    assert((d as int) == 48 + n % 10);
    if n >= 10 {
        lemma_decimal(n / 10);
        let p = decimal(n / 10);
        assert(decimal(n).drop_last() =~= p);
        assert(decimal(n).last() == d);
        assert(digits_value(decimal(n)) == digits_value(p) * 10 + n % 10);
        assert((n / 10) * 10 + n % 10 == n) by (nonlinear_arith);
        assert forall|i: int| 0 <= i < decimal(n).len() implies #[trigger] is_ascii_digit(
            decimal(n)[i],
        ) by {
            if i < p.len() {
                assert(decimal(n)[i] == p[i]);
                assert(is_ascii_digit(p[i]));
            }
        }
    } else {
        assert(decimal(n).drop_last() =~= Seq::<char>::empty());
        assert(decimal(n).last() == d);
        assert(digits_value(Seq::<char>::empty()) == 0);
    }
}

/// A digit string holds no brace, colon, question mark, plus sign or
/// whitespace.
proof fn lemma_digits_plain(d: Seq<char>)
    requires
        all_digits(d),
    ensures
        brace_free(d),
        !d.contains(':'),
        forall|i: int| 0 <= i < d.len() ==> #[trigger] d[i] != '?' && d[i] != '+' && !white_space(
            d[i],
        ),
{
    assert forall|i: int| 0 <= i < d.len() implies !is_brace(#[trigger] d[i]) by {
        assert(is_ascii_digit(d[i]));
    }
    assert forall|i: int| 0 <= i < d.len() implies #[trigger] d[i] != '?' && d[i] != '+'
        && !white_space(d[i]) by {
        assert(is_ascii_digit(d[i]));
    }
    if d.contains(':') {
        let i = choose|i: int| 0 <= i < d.len() && d[i] == ':';
        assert(is_ascii_digit(d[i]));
    }
}

/// The numeral of `n` read as a key is the index `n`.
proof fn lemma_numeral_key(n: usize)
    requires
        n >= 1,
    ensures
        parsed_key(trim(decimal(n as nat))) == Ok::<FieldKeyView, Seq<char>>(
            FieldKeyView::Index(n),
        ),
{
    let d = decimal(n as nat);
    lemma_decimal(n as nat);
    lemma_digits_plain(d);
    assert(!white_space(d[0]));
    assert(trim_start(d) == d);
    assert(!white_space(d.last()));
    assert(trim_end(d) == d);
    assert(d[0] != '+');
    assert(unsigned_part(d) == d);
    assert(parse_usize(d) == Some(n));
}

/// In `t + "}"` with `t` brace-free, the closing brace is the last character.
proof fn lemma_closing_after_plain(t: Seq<char>)
    requires
        brace_free(t),
    ensures
        closing_brace(t + seq!['}'], 0) == Some(t.len() as int),
    decreases t.len(),
{
    let s = t + seq!['}'];
    if t.len() > 0 {
        let r = t.drop_first();
        assert forall|i: int| 0 <= i < r.len() implies !is_brace(#[trigger] r[i]) by {
            assert(r[i] == t[i + 1]);
        }
        assert(!is_brace(t[0]));
        assert(s.drop_first() =~= r + seq!['}']);
        lemma_closing_after_plain(r);
    }
}

/// `{N}`, for an index `N` of 1 or more, is the field in position `N` of the
/// record (counted from 1); a position past the end gives the empty text.
pub proof fn law_index_placeholder(
    n: usize,
    record: Seq<Seq<char>>,
    headers: Option<Seq<Seq<char>>>,
)
    requires
        n >= 1,
    ensures
        parsed_template(braced(decimal(n as nat))) == Ok::<Seq<SegmentView>, Seq<char>>(
            seq![SegmentView::Field(FieldKeyView::Index(n))],
        ),
        rendered(seq![SegmentView::Field(FieldKeyView::Index(n))], record, headers) == if n
            <= record.len() {
            record[n - 1]
        } else {
            Seq::empty()
        },
{
    let d = decimal(n as nat);
    let s = braced(d);
    lemma_decimal(n as nat);
    lemma_digits_plain(d);
    lemma_numeral_key(n);
    lemma_closing_after_plain(d);
    assert(s.drop_first() =~= d + seq!['}']);
    assert(s[1] == d[0]);
    let e = d.len() as int;
    assert(s.subrange(1, e + 1) =~= d);
    assert(s.skip(e + 2) =~= Seq::<char>::empty());
    d.index_of_first_ensures(':');
    assert(parsed_placeholder(d) == Ok::<SegmentView, Seq<char>>(
        SegmentView::Field(FieldKeyView::Index(n)),
    ));
    assert(parsed_segments(Seq::<char>::empty(), (e + 2) as nat) == Ok::<
        Seq<SegmentView>,
        Seq<char>,
    >(Seq::<SegmentView>::empty()));
    assert(seq![SegmentView::Field(FieldKeyView::Index(n))] + Seq::<SegmentView>::empty() =~= seq![
        SegmentView::Field(FieldKeyView::Index(n)),
    ]);
    let one = seq![SegmentView::Field(FieldKeyView::Index(n))];
    assert(one.drop_last() =~= Seq::<SegmentView>::empty());
    assert(rendered(Seq::<SegmentView>::empty(), record, headers) == Seq::<char>::empty());
    let r = rendered_segment(one.last(), record, headers);
    assert(Seq::<char>::empty() + r =~= r);
}

proof fn lemma_render_single(
    x: SegmentView,
    record: Seq<Seq<char>>,
    headers: Option<Seq<Seq<char>>>,
)
    ensures
        rendered(seq![x], record, headers) == rendered_segment(x, record, headers),
{
    lemma_render_prepend(x, Seq::empty(), record, headers);
    assert(seq![x] + Seq::<SegmentView>::empty() =~= seq![x]);
    assert(rendered(Seq::<SegmentView>::empty(), record, headers) == Seq::<char>::empty());
    assert(rendered_segment(x, record, headers) + Seq::<char>::empty() =~= rendered_segment(
        x,
        record,
        headers,
    ));
}

/// A brace-free prefix only moves the closing brace further on.
proof fn lemma_closing_after_prefix(p: Seq<char>, rest: Seq<char>, depth: nat)
    requires
        brace_free(p),
    ensures
        closing_brace(p + rest, depth) == shift_by(closing_brace(rest, depth), p.len() as int),
    decreases p.len(),
{
    if p.len() == 0 {
        assert(p + rest =~= rest);
        assert(shift_by(closing_brace(rest, depth), 0) == closing_brace(rest, depth));
    } else {
        let q = p.drop_first();
        assert forall|i: int| 0 <= i < q.len() implies !is_brace(#[trigger] q[i]) by {
            assert(q[i] == p[i + 1]);
        }
        assert(!is_brace(p[0]));
        assert((p + rest).drop_first() =~= q + rest);
        lemma_closing_after_prefix(q, rest, depth);
    }
}

/// A placeholder body that its `}` closes (and that does not start with `{`,
/// which would make `{{` a literal brace) makes a template of one segment.
proof fn lemma_braced(inner: Seq<char>)
    requires
        closing_brace(inner + seq!['}'], 0) == Some(inner.len() as int),
        inner.len() > 0 ==> inner[0] != '{',
    ensures
        parsed_template(braced(inner)) == match parsed_placeholder(inner) {
            Ok(seg) => Ok::<Seq<SegmentView>, Seq<char>>(seq![seg]),
            Err(m) => Err(m),
        },
{
    let s = braced(inner);
    assert(s.drop_first() =~= inner + seq!['}']);
    if inner.len() > 0 {
        assert(s[1] == inner[0]);
    }
    let e = inner.len() as int;
    assert(s.subrange(1, e + 1) =~= inner);
    assert(s.skip(e + 2) =~= Seq::<char>::empty());
    assert(parsed_segments(Seq::<char>::empty(), (e + 2) as nat) == Ok::<
        Seq<SegmentView>,
        Seq<char>,
    >(Seq::<SegmentView>::empty()));
    if let Ok(seg) = parsed_placeholder(inner) {
        assert(seq![seg] + Seq::<SegmentView>::empty() =~= seq![seg]);
    }
}

proof fn lemma_braced_plain(inner: Seq<char>)
    requires
        brace_free(inner),
    ensures
        parsed_template(braced(inner)) == match parsed_placeholder(inner) {
            Ok(seg) => Ok::<Seq<SegmentView>, Seq<char>>(seq![seg]),
            Err(m) => Err(m),
        },
{
    lemma_closing_after_plain(inner);
    if inner.len() > 0 {
        assert(!is_brace(inner[0]));
    }
    lemma_braced(inner);
}

/// `d + ":" + t` for a numeral `d`: its first colon follows `d`.
proof fn lemma_key_colon_text(d: Seq<char>, t: Seq<char>)
    requires
        all_digits(d),
    ensures
        brace_free(d + seq![':']),
        (d + seq![':'] + t).index_of_first(':') == Some(d.len() as int),
        (d + seq![':'] + t).take(d.len() as int) == d,
        (d + seq![':'] + t).skip(d.len() as int + 1) == t,
{
    let x = d + seq![':'] + t;
    let y = d + seq![':'];
    lemma_digits_plain(d);
    assert forall|i: int| 0 <= i < y.len() implies !is_brace(#[trigger] y[i]) by {
        if i < d.len() {
            assert(y[i] == d[i]);
        }
    }
    assert(x[d.len() as int] == ':');
    x.index_of_first_ensures(':');
    let k = x.index_of_first(':')->0;
    if k < d.len() {
        assert(x[k] == d[k]);
    }
    assert(x.take(d.len() as int) =~= d);
    assert(x.skip(d.len() as int + 1) =~= t);
}

/// `{N:default}`, for an index `N` of 1 or more and a default that the
/// placeholder's `}` closes, is the field in position `N`, or the default
/// when that field is empty or missing.
pub proof fn law_default_placeholder(
    n: usize,
    default: Seq<char>,
    record: Seq<Seq<char>>,
    headers: Option<Seq<Seq<char>>>,
)
    requires
        n >= 1,
        closing_brace(default + seq!['}'], 0) == Some(default.len() as int),
    ensures
        parsed_template(braced(decimal(n as nat) + seq![':'] + default)) == Ok::<
            Seq<SegmentView>,
            Seq<char>,
        >(seq![SegmentView::FieldWithDefault(FieldKeyView::Index(n), default)]),
        rendered(
            seq![SegmentView::FieldWithDefault(FieldKeyView::Index(n), default)],
            record,
            headers,
        ) == (if n <= record.len() && record[n - 1].len() != 0 {
            record[n - 1]
        } else {
            default
        }),
{
    let d = decimal(n as nat);
    let prefix = d + seq![':'];
    let inner = d + seq![':'] + default;
    lemma_decimal(n as nat);
    lemma_digits_plain(d);
    lemma_numeral_key(n);
    lemma_key_colon_text(d, default);
    assert(inner + seq!['}'] =~= prefix + (default + seq!['}']));
    lemma_closing_after_prefix(prefix, default + seq!['}'], 0);
    assert(inner[0] == d[0]);
    lemma_braced(inner);
    lemma_render_single(
        SegmentView::FieldWithDefault(FieldKeyView::Index(n), default),
        record,
        headers,
    );
}

/// `{?N:text}`, for an index `N` of 1 or more and a text that the
/// placeholder's `}` closes, holds the segments of the text, and renders them
/// when the field in position `N` is non-empty and nothing otherwise.
pub proof fn law_conditional_placeholder(
    n: usize,
    text: Seq<char>,
    record: Seq<Seq<char>>,
    headers: Option<Seq<Seq<char>>>,
)
    requires
        n >= 1,
        closing_brace(text + seq!['}'], 0) == Some(text.len() as int),
    ensures
        parsed_template(braced(seq!['?'] + decimal(n as nat) + seq![':'] + text))
            == match parsed_template(text) {
            Ok(body) => Ok::<Seq<SegmentView>, Seq<char>>(
                seq![SegmentView::Conditional(FieldKeyView::Index(n), body)],
            ),
            Err(m) => Err(m),
        },
        parsed_template(text) matches Ok(body) ==> rendered(
            seq![SegmentView::Conditional(FieldKeyView::Index(n), body)],
            record,
            headers,
        ) == (if n <= record.len() && record[n - 1].len() != 0 {
            rendered(body, record, headers)
        } else {
            Seq::empty()
        }),
{
    let inner = seq!['?'] + decimal(n as nat) + seq![':'] + text;
    lemma_conditional_inner(n, text);
    lemma_braced(inner);
    if let Ok(body) = parsed_template(text) {
        lemma_render_single(
            SegmentView::Conditional(FieldKeyView::Index(n), body),
            record,
            headers,
        );
    }
}

/// The body of `{?N:text}`: its closing brace, and the segment it makes.
proof fn lemma_conditional_inner(n: usize, text: Seq<char>)
    requires
        n >= 1,
        closing_brace(text + seq!['}'], 0) == Some(text.len() as int),
    ensures
        ({
            let inner = seq!['?'] + decimal(n as nat) + seq![':'] + text;
            &&& closing_brace(inner + seq!['}'], 0) == Some(inner.len() as int)
            &&& inner[0] != '{'
            &&& parsed_placeholder(inner) == match parsed_template(text) {
                Ok(body) => Ok::<SegmentView, Seq<char>>(
                    SegmentView::Conditional(FieldKeyView::Index(n), body),
                ),
                Err(m) => Err(m),
            }
        }),
{
    let d = decimal(n as nat);
    let rest = d + seq![':'] + text;
    let inner = seq!['?'] + d + seq![':'] + text;
    let prefix = seq!['?'] + d + seq![':'];
    assert(inner =~= seq!['?'] + rest);
    lemma_decimal(n as nat);
    lemma_digits_plain(d);
    lemma_numeral_key(n);
    lemma_key_colon_text(d, text);
    assert(inner.drop_first() =~= rest);
    assert forall|i: int| 0 <= i < prefix.len() implies !is_brace(#[trigger] prefix[i]) by {
        if i > 0 && i <= d.len() {
            assert(prefix[i] == d[i - 1]);
        }
    }
    assert(inner + seq!['}'] =~= prefix + (text + seq!['}']));
    lemma_closing_after_prefix(prefix, text + seq!['}'], 0);
}

/// `{name}`, for a header name (text that is not an index, without braces,
/// colons or surrounding whitespace, and not starting with `?`), is the field
/// in the column of the first header equal to `name`; without a header row it
/// is the empty text.
pub proof fn law_named_placeholder(
    name: Seq<char>,
    record: Seq<Seq<char>>,
    headers: Option<Seq<Seq<char>>>,
)
    requires
        name.len() > 0,
        brace_free(name),
        !name.contains(':'),
        name[0] != '?',
        trim(name) == name,
        parse_usize(name) is None,
    ensures
        parsed_template(braced(name)) == Ok::<Seq<SegmentView>, Seq<char>>(
            seq![SegmentView::Field(FieldKeyView::Name(name))],
        ),
        rendered(seq![SegmentView::Field(FieldKeyView::Name(name))], record, headers)
            == match headers {
            None => Seq::<char>::empty(),
            Some(h) => match h.index_of_first(name) {
                Some(p) => if p < record.len() {
                    record[p]
                } else {
                    Seq::empty()
                },
                None => Seq::empty(),
            },
        },
{
    name.index_of_first_ensures(':');
    lemma_braced_plain(name);
    lemma_render_single(SegmentView::Field(FieldKeyView::Name(name)), record, headers);
}

/// `x` put before the merged list `m`: a literal joins a literal that
/// follows it.
pub open spec fn joined_front(x: SegmentView, m: Seq<SegmentView>) -> Seq<SegmentView> {
    match x {
        SegmentView::Literal(a) => if m.len() > 0 {
            match m[0] {
                SegmentView::Literal(b) => seq![SegmentView::Literal(a + b)] + m.drop_first(),
                _ => seq![x] + m,
            }
        } else {
            seq![x] + m
        },
        _ => seq![x] + m,
    }
}

/// `v` with each run of adjacent literal segments joined into one literal of
/// their text.
pub open spec fn merged(v: Seq<SegmentView>) -> Seq<SegmentView>
    decreases v.len(),
{
    if v.len() == 0 {
        v
    } else {
        joined_front(v[0], merged(v.drop_first()))
    }
}

proof fn lemma_merged_prepend(x: SegmentView, v: Seq<SegmentView>)
    ensures
        merged(seq![x] + v) == joined_front(x, merged(v)),
{
    assert((seq![x] + v).drop_first() =~= v);
}

/// Two literals in a row merge as their joined text does.
proof fn lemma_merged_two_literals(a: Seq<char>, b: Seq<char>, v: Seq<SegmentView>)
    ensures
        merged(seq![SegmentView::Literal(a), SegmentView::Literal(b)] + v) == merged(
            seq![SegmentView::Literal(a + b)] + v,
        ),
{
    let la = SegmentView::Literal(a);
    let lb = SegmentView::Literal(b);
    let lab = SegmentView::Literal(a + b);
    assert(seq![la, lb] + v =~= seq![la] + (seq![lb] + v));
    lemma_merged_prepend(la, seq![lb] + v);
    lemma_merged_prepend(lb, v);
    lemma_merged_prepend(lab, v);
    let m = merged(v);
    if m.len() > 0 {
        if let SegmentView::Literal(c) = m[0] {
            assert(a + (b + c) =~= (a + b) + c);
            assert((seq![SegmentView::Literal(b + c)] + m.drop_first()).drop_first()
                =~= m.drop_first());
        }
    }
}

/// Where a parse succeeds, it does not depend on the position it is told.
proof fn lemma_parse_position_free(t: Seq<char>, p: nat, q: nat)
    requires
        parsed_segments(t, p) is Ok,
    ensures
        parsed_segments(t, q) == parsed_segments(t, p),
    decreases t.len(),
{
    if t.len() == 0 {
    } else if t[0] == '{' {
        if t.len() > 1 && t[1] == '{' {
            lemma_parse_position_free(t.skip(2), p + 2, q + 2);
        } else {
            lemma_closing_brace_bounds(t.drop_first(), 0);
            if let Some(e) = closing_brace(t.drop_first(), 0) {
                if parsed_placeholder(t.subrange(1, e + 1)) is Ok {
                    lemma_parse_position_free(
                        t.skip(e + 2),
                        (p + e + 2) as nat,
                        (q + e + 2) as nat,
                    );
                }
            }
        }
    } else if t[0] == '}' {
        if t.len() > 1 && t[1] == '}' {
            lemma_parse_position_free(t.skip(2), p + 2, q + 2);
        }
    } else {
        lemma_literal_run_bounds(t);
        let n = literal_run(t);
        lemma_parse_position_free(t.skip(n as int), p + n, q + n);
    }
}

/// The closing brace found in `a` is found in `a + b` too.
proof fn lemma_closing_brace_extend(a: Seq<char>, b: Seq<char>, depth: nat)
    requires
        closing_brace(a, depth) is Some,
    ensures
        closing_brace(a + b, depth) == closing_brace(a, depth),
    decreases a.len(),
{
    assert((a + b)[0] == a[0]);
    assert((a + b).drop_first() =~= a.drop_first() + b);
    if a[0] == '{' {
        lemma_closing_brace_extend(a.drop_first(), b, depth + 1);
    } else if a[0] == '}' {
        if depth > 0 {
            lemma_closing_brace_extend(a.drop_first(), b, (depth - 1) as nat);
        }
    } else {
        lemma_closing_brace_extend(a.drop_first(), b, depth);
    }
}

/// The literal run of `a + b`: that of `a`, continued into `b` when `a` has
/// no brace.
proof fn lemma_literal_run_concat(a: Seq<char>, b: Seq<char>)
    ensures
        literal_run(a + b) == if literal_run(a) < a.len() {
            literal_run(a)
        } else {
            a.len() + literal_run(b)
        },
    decreases a.len(),
{
    lemma_literal_run_bounds(a);
    if a.len() == 0 {
        assert(a + b =~= b);
    } else {
        assert((a + b)[0] == a[0]);
        assert((a + b).drop_first() =~= a.drop_first() + b);
        lemma_literal_run_concat(a.drop_first(), b);
    }
}

/// Templates compose: when `t1` and `t2` both parse, so does `t1 + t2`, into
/// the segments of `t1` followed by those of `t2`, up to joining adjacent
/// literal text.
pub proof fn law_parse_concat(
    t1: Seq<char>,
    t2: Seq<char>,
    s1: Seq<SegmentView>,
    s2: Seq<SegmentView>,
)
    requires
        parsed_template(t1) == Ok::<Seq<SegmentView>, Seq<char>>(s1),
        parsed_template(t2) == Ok::<Seq<SegmentView>, Seq<char>>(s2),
    ensures
        parsed_template(t1 + t2) matches Ok(s) && merged(s) == merged(s1 + s2),
{
    lemma_parse_concat(t1, t2, 0, s1, s2);
}

proof fn lemma_parse_concat(
    t1: Seq<char>,
    t2: Seq<char>,
    pos: nat,
    s1: Seq<SegmentView>,
    s2: Seq<SegmentView>,
)
    requires
        parsed_segments(t1, pos) == Ok::<Seq<SegmentView>, Seq<char>>(s1),
        parsed_template(t2) == Ok::<Seq<SegmentView>, Seq<char>>(s2),
    ensures
        parsed_segments(t1 + t2, pos) matches Ok(s) && merged(s) == merged(s1 + s2),
    decreases t1.len(),
{
    let t = t1 + t2;
    if t1.len() == 0 {
        assert(t =~= t2);
        lemma_parse_position_free(t2, 0, pos);
        assert(s1 + s2 =~= s2);
        return;
    }
    assert(t[0] == t1[0]);
    if t1.len() > 1 {
        assert(t[1] == t1[1]);
    }
    if t1[0] == '{' && t1.len() > 1 && t1[1] == '{' || t1[0] == '}' && t1.len() > 1 && t1[1]
        == '}' {
        let x = SegmentView::Literal(seq![t1[0]]);
        let r1 = parsed_segments(t1.skip(2), pos + 2)->Ok_0;
        assert(t.skip(2) =~= t1.skip(2) + t2);
        lemma_parse_concat(t1.skip(2), t2, pos + 2, r1, s2);
        let r = parsed_segments(t.skip(2), pos + 2)->Ok_0;
        assert(s1 == seq![x] + r1);
        assert(s1 + s2 =~= seq![x] + (r1 + s2));
        lemma_merged_prepend(x, r);
        lemma_merged_prepend(x, r1 + s2);
    } else if t1[0] == '{' {
        lemma_closing_brace_bounds(t1.drop_first(), 0);
        let e = closing_brace(t1.drop_first(), 0)->Some_0;
        assert(t.drop_first() =~= t1.drop_first() + t2);
        lemma_closing_brace_extend(t1.drop_first(), t2, 0);
        assert(t.subrange(1, e + 1) =~= t1.subrange(1, e + 1));
        assert(t.skip(e + 2) =~= t1.skip(e + 2) + t2);
        let x = parsed_placeholder(t1.subrange(1, e + 1))->Ok_0;
        let p2 = (pos + e + 2) as nat;
        let r1 = parsed_segments(t1.skip(e + 2), p2)->Ok_0;
        lemma_parse_concat(t1.skip(e + 2), t2, p2, r1, s2);
        let r = parsed_segments(t.skip(e + 2), p2)->Ok_0;
        assert(s1 == seq![x] + r1);
        assert(s1 + s2 =~= seq![x] + (r1 + s2));
        lemma_merged_prepend(x, r);
        lemma_merged_prepend(x, r1 + s2);
    } else {
        // A literal run: `t1` cannot start with a stray `}`.
        lemma_literal_run_bounds(t1);
        lemma_literal_run_concat(t1, t2);
        let k = literal_run(t1);
        let x = SegmentView::Literal(t1.take(k as int));
        let r1 = parsed_segments(t1.skip(k as int), pos + k)->Ok_0;
        assert(s1 == seq![x] + r1);
        if k < t1.len() {
            assert(t.take(k as int) =~= t1.take(k as int));
            assert(t.skip(k as int) =~= t1.skip(k as int) + t2);
            lemma_parse_concat(t1.skip(k as int), t2, pos + k, r1, s2);
            let r = parsed_segments(t.skip(k as int), pos + k)->Ok_0;
            assert(s1 + s2 =~= seq![x] + (r1 + s2));
            lemma_merged_prepend(x, r);
            lemma_merged_prepend(x, r1 + s2);
        } else {
            // `t1` is all literal text, which runs on into `t2`.
            assert(t1.take(k as int) =~= t1);
            assert(t1.skip(k as int) =~= Seq::<char>::empty());
            assert(r1 =~= Seq::<SegmentView>::empty());
            lemma_literal_run_bounds(t2);
            let k2 = literal_run(t2);
            let kt = (k + k2) as int;
            assert(t.take(kt) =~= t1 + t2.take(k2 as int));
            assert(t.skip(kt) =~= t2.skip(k2 as int));
            let pt = (pos + kt) as nat;
            if k2 == 0 {
                assert(t2.take(0) =~= Seq::<char>::empty());
                assert(t1 + Seq::<char>::empty() =~= t1);
                assert(t2.skip(0) =~= t2);
                lemma_parse_position_free(t2, 0, pt);
                assert(s1 + s2 =~= seq![x] + s2);
            } else {
                let y = SegmentView::Literal(t2.take(k2 as int));
                let r2 = parsed_segments(t2.skip(k2 as int), k2)->Ok_0;
                assert(s2 == seq![y] + r2);
                lemma_parse_position_free(t2.skip(k2 as int), k2, pt);
                assert(s1 + s2 =~= seq![x, y] + r2);
                lemma_merged_two_literals(t1, t2.take(k2 as int), r2);
            }
        }
    }
}

// ---------------------------------------------------------------------------
// Named keys, and what each kind of segment renders
// ---------------------------------------------------------------------------

/// Text that a placeholder reads as a header name: non-empty, trimmed,
/// without braces or colons, not starting with `?`, and not an index.
pub open spec fn header_name(name: Seq<char>) -> bool {
    &&& name.len() > 0
    &&& brace_free(name)
    &&& !name.contains(':')
    &&& name[0] != '?'
    &&& trim(name) == name
    &&& parse_usize(name) is None
}

/// `name + ":" + t` for a colon-free `name`: its first colon follows `name`.
proof fn lemma_name_colon_text(name: Seq<char>, t: Seq<char>)
    requires
        brace_free(name),
        !name.contains(':'),
    ensures
        brace_free(name + seq![':']),
        (name + seq![':'] + t).index_of_first(':') == Some(name.len() as int),
        (name + seq![':'] + t).take(name.len() as int) == name,
        (name + seq![':'] + t).skip(name.len() as int + 1) == t,
{
    let x = name + seq![':'] + t;
    let y = name + seq![':'];
    assert forall|i: int| 0 <= i < y.len() implies !is_brace(#[trigger] y[i]) by {
        if i < name.len() {
            assert(y[i] == name[i]);
        }
    }
    assert(x[name.len() as int] == ':');
    x.index_of_first_ensures(':');
    let k = x.index_of_first(':')->0;
    if k < name.len() {
        assert(x[k] == name[k]);
        assert(name.contains(':'));
    }
    assert(x.take(name.len() as int) =~= name);
    assert(x.skip(name.len() as int + 1) =~= t);
}

/// `{name:default}`, for a header name and a default that the placeholder's
/// `}` closes, is one segment: the named field with that default.
pub proof fn law_named_default_placeholder(name: Seq<char>, default: Seq<char>)
    requires
        header_name(name),
        closing_brace(default + seq!['}'], 0) == Some(default.len() as int),
    ensures
        parsed_template(braced(name + seq![':'] + default)) == Ok::<
            Seq<SegmentView>,
            Seq<char>,
        >(seq![SegmentView::FieldWithDefault(FieldKeyView::Name(name), default)]),
{
    let prefix = name + seq![':'];
    let inner = name + seq![':'] + default;
    lemma_name_colon_text(name, default);
    assert(inner + seq!['}'] =~= prefix + (default + seq!['}']));
    lemma_closing_after_prefix(prefix, default + seq!['}'], 0);
    assert(inner[0] == name[0]);
    assert(!is_brace(name[0]));
    lemma_braced(inner);
    assert(parsed_key(trim(name)) == Ok::<FieldKeyView, Seq<char>>(FieldKeyView::Name(name)));
}

/// `{?name:text}`, for a header name and a text that the placeholder's `}`
/// closes, is one conditional segment on the named field, holding the
/// segments of the text.
pub proof fn law_named_conditional_placeholder(name: Seq<char>, text: Seq<char>)
    requires
        header_name(name),
        closing_brace(text + seq!['}'], 0) == Some(text.len() as int),
    ensures
        parsed_template(braced(seq!['?'] + name + seq![':'] + text))
            == match parsed_template(text) {
            Ok(body) => Ok::<Seq<SegmentView>, Seq<char>>(
                seq![SegmentView::Conditional(FieldKeyView::Name(name), body)],
            ),
            Err(m) => Err(m),
        },
{
    let rest = name + seq![':'] + text;
    let inner = seq!['?'] + name + seq![':'] + text;
    let prefix = seq!['?'] + name + seq![':'];
    assert(inner =~= seq!['?'] + rest);
    lemma_name_colon_text(name, text);
    assert(inner.drop_first() =~= rest);
    assert forall|i: int| 0 <= i < prefix.len() implies !is_brace(#[trigger] prefix[i]) by {
        if i > 0 && i <= name.len() {
            assert(prefix[i] == name[i - 1]);
        }
    }
    assert(inner + seq!['}'] =~= prefix + (text + seq!['}']));
    lemma_closing_after_prefix(prefix, text + seq!['}'], 0);
    assert(parsed_key(trim(name)) == Ok::<FieldKeyView, Seq<char>>(FieldKeyView::Name(name)));
    assert(parsed_placeholder(inner) == match parsed_template(text) {
        Ok(body) => Ok::<SegmentView, Seq<char>>(
            SegmentView::Conditional(FieldKeyView::Name(name), body),
        ),
        Err(m) => Err(m),
    });
    lemma_braced(inner);
}

/// What a key finds in a record: the index `n` finds the `n`-th field (from
/// 1) when there is one; a name finds, in a header row, the field under the
/// first header equal to it, when the record reaches that column; nothing
/// else finds anything.
pub proof fn law_field_lookup(
    key: FieldKeyView,
    record: Seq<Seq<char>>,
    headers: Option<Seq<Seq<char>>>,
)
    ensures
        key matches FieldKeyView::Index(n) ==> (1 <= n <= record.len() ==> resolved(
            key,
            record,
            headers,
        ) == Some(record[n - 1])) && (n == 0 || n > record.len() ==> resolved(
            key,
            record,
            headers,
        ) is None),
        key matches FieldKeyView::Name(name) ==> {
            &&& headers is None ==> resolved(key, record, headers) is None
            &&& forall|h: Seq<Seq<char>>, p: int|
                headers == Some(h) && 0 <= p < h.len() && h[p] == name && (forall|j: int|
                    0 <= j < p ==> h[j] != name) ==> resolved(key, record, headers) == (if p
                    < record.len() {
                    Some(record[p])
                } else {
                    None
                })
            &&& forall|h: Seq<Seq<char>>|
                headers == Some(h) && (forall|j: int| 0 <= j < h.len() ==> h[j] != name)
                    ==> resolved(key, record, headers) is None
        },
{
    if let FieldKeyView::Name(name) = key {
        if let Some(h) = headers {
            h.index_of_first_ensures(name);
            assert forall|p: int|
                0 <= p < h.len() && h[p] == name && (forall|j: int| 0 <= j < p ==> h[j] != name)
                implies resolved(key, record, headers) == (if p < record.len() {
                Some(record[p])
            } else {
                None
            }) by {
                assert(h.contains(name));
                let k = h.index_of_first(name)->0;
                if k < p {
                    assert(h[k] != name);
                }
                if p < k {
                    assert(h[p] != name);
                }
            }
            if forall|j: int| 0 <= j < h.len() ==> h[j] != name {
                if h.contains(name) {
                    let j = choose|j: int| 0 <= j < h.len() && h[j] == name;
                    assert(h[j] != name);
                }
            }
        }
    }
}

/// `{k}` renders the text its key finds, and the empty text when it finds
/// nothing; the same for index and name keys.
pub proof fn law_render_field(
    k: FieldKeyView,
    record: Seq<Seq<char>>,
    headers: Option<Seq<Seq<char>>>,
)
    ensures
        rendered(seq![SegmentView::Field(k)], record, headers) == match resolved(
            k,
            record,
            headers,
        ) {
            Some(v) => v,
            None => Seq::<char>::empty(),
        },
{
    lemma_render_single(SegmentView::Field(k), record, headers);
}

/// `{k:d}` renders the text its key finds when that text is non-empty, and
/// the default when it is empty or the key finds nothing; the same for index
/// and name keys.
pub proof fn law_render_default(
    k: FieldKeyView,
    d: Seq<char>,
    record: Seq<Seq<char>>,
    headers: Option<Seq<Seq<char>>>,
)
    ensures
        rendered(seq![SegmentView::FieldWithDefault(k, d)], record, headers) == match resolved(
            k,
            record,
            headers,
        ) {
            Some(v) => if v.len() > 0 {
                v
            } else {
                d
            },
            None => d,
        },
{
    lemma_render_single(SegmentView::FieldWithDefault(k, d), record, headers);
}

/// `{?k:body}` renders its body when the text its key finds is non-empty,
/// and nothing when that text is empty or the key finds nothing; the same
/// for index and name keys.
pub proof fn law_render_conditional(
    k: FieldKeyView,
    body: Seq<SegmentView>,
    record: Seq<Seq<char>>,
    headers: Option<Seq<Seq<char>>>,
)
    ensures
        rendered(seq![SegmentView::Conditional(k, body)], record, headers) == match resolved(
            k,
            record,
            headers,
        ) {
            Some(v) => if v.len() > 0 {
                rendered(body, record, headers)
            } else {
                Seq::<char>::empty()
            },
            None => Seq::<char>::empty(),
        },
{
    lemma_render_single(SegmentView::Conditional(k, body), record, headers);
}

/// A literal renders its own text, whatever the record.
pub proof fn law_render_literal(
    t: Seq<char>,
    record: Seq<Seq<char>>,
    headers: Option<Seq<Seq<char>>>,
)
    ensures
        rendered(seq![SegmentView::Literal(t)], record, headers) == t,
{
    lemma_render_single(SegmentView::Literal(t), record, headers);
}

// ---------------------------------------------------------------------------
// Errors after a valid prefix
// ---------------------------------------------------------------------------

/// After text that parses, parsing goes on from the next brace as if it
/// started there, at that position.
proof fn lemma_parse_then_brace(t1: Seq<char>, tail: Seq<char>, pos: nat, s1: Seq<SegmentView>)
    requires
        parsed_segments(t1, pos) == Ok::<Seq<SegmentView>, Seq<char>>(s1),
        tail.len() > 0,
        is_brace(tail[0]),
    ensures
        parsed_segments(t1 + tail, pos) == prepend_all(
            s1,
            parsed_segments(tail, pos + t1.len()),
        ),
    decreases t1.len(),
{
    let t = t1 + tail;
    if t1.len() == 0 {
        assert(t =~= tail);
        if let Ok(v) = parsed_segments(tail, pos) {
            assert(s1 + v =~= v);
        }
        return;
    }
    assert(t[0] == t1[0]);
    if t1.len() > 1 {
        assert(t[1] == t1[1]);
    }
    if t1[0] == '{' && t1.len() > 1 && t1[1] == '{' || t1[0] == '}' && t1.len() > 1 && t1[1]
        == '}' {
        let x = SegmentView::Literal(seq![t1[0]]);
        let r1 = parsed_segments(t1.skip(2), pos + 2)->Ok_0;
        assert(t.skip(2) =~= t1.skip(2) + tail);
        lemma_parse_then_brace(t1.skip(2), tail, pos + 2, r1);
        assert(s1 == seq![x] + r1);
        if let Ok(v) = parsed_segments(tail, pos + t1.len()) {
            assert(seq![x] + (r1 + v) =~= s1 + v);
        }
    } else if t1[0] == '{' {
        lemma_closing_brace_bounds(t1.drop_first(), 0);
        let e = closing_brace(t1.drop_first(), 0)->Some_0;
        assert(t.drop_first() =~= t1.drop_first() + tail);
        lemma_closing_brace_extend(t1.drop_first(), tail, 0);
        assert(t.subrange(1, e + 1) =~= t1.subrange(1, e + 1));
        assert(t.skip(e + 2) =~= t1.skip(e + 2) + tail);
        let x = parsed_placeholder(t1.subrange(1, e + 1))->Ok_0;
        let p2 = (pos + e + 2) as nat;
        let r1 = parsed_segments(t1.skip(e + 2), p2)->Ok_0;
        lemma_parse_then_brace(t1.skip(e + 2), tail, p2, r1);
        assert(s1 == seq![x] + r1);
        if let Ok(v) = parsed_segments(tail, pos + t1.len()) {
            assert(seq![x] + (r1 + v) =~= s1 + v);
        }
    } else {
        lemma_literal_run_bounds(t1);
        lemma_literal_run_concat(t1, tail);
        let k = literal_run(t1);
        let x = SegmentView::Literal(t1.take(k as int));
        let r1 = parsed_segments(t1.skip(k as int), pos + k)->Ok_0;
        assert(s1 == seq![x] + r1);
        assert(literal_run(tail) == 0);
        assert(t.take(k as int) =~= t1.take(k as int));
        assert(t.skip(k as int) =~= t1.skip(k as int) + tail);
        lemma_parse_then_brace(t1.skip(k as int), tail, pos + k, r1);
        if let Ok(v) = parsed_segments(tail, pos + t1.len()) {
            assert(seq![x] + (r1 + v) =~= s1 + v);
        }
    }
}

/// A `}` with nothing after it, following text that parses, is reported as
/// unexpected at its own position (counted in characters from 0).
pub proof fn law_stray_close_position(t1: Seq<char>, s1: Seq<SegmentView>)
    requires
        parsed_template(t1) == Ok::<Seq<SegmentView>, Seq<char>>(s1),
    ensures
        parsed_template(t1 + seq!['}']) == Err::<Seq<SegmentView>, Seq<char>>(
            stray_close_message(t1.len()),
        ),
{
    lemma_parse_then_brace(t1, seq!['}'], 0, s1);
}

/// A `{` with nothing after it, following text that parses, is reported as
/// an unclosed brace.
pub proof fn law_unclosed_at_end(t1: Seq<char>, s1: Seq<SegmentView>)
    requires
        parsed_template(t1) == Ok::<Seq<SegmentView>, Seq<char>>(s1),
    ensures
        parsed_template(t1 + seq!['{']) == Err::<Seq<SegmentView>, Seq<char>>(
            unclosed_brace_message(),
        ),
{
    lemma_parse_then_brace(t1, seq!['{'], 0, s1);
    assert(seq!['{'].drop_first() =~= Seq::<char>::empty());
}

} // verus!
