//! Character-level helpers shared by the template parser and the record
//! processing: Unicode whitespace, trimming, ASCII decimal numerals.

use vstd::prelude::*;

verus! {

/// Whether `c` has the Unicode `White_Space` property (the property that
/// `char::is_whitespace` and `str::trim` go by).
pub open spec fn white_space(c: char) -> bool {
    let u = c as u32;
    ||| (0x9 <= u && u <= 0xd)
    ||| u == 0x20
    ||| u == 0x85
    ||| u == 0xa0
    ||| u == 0x1680
    ||| (0x2000 <= u && u <= 0x200a)
    ||| u == 0x2028
    ||| u == 0x2029
    ||| u == 0x202f
    ||| u == 0x205f
    ||| u == 0x3000
}

/// `s` without its leading whitespace.
pub open spec fn trim_start(s: Seq<char>) -> Seq<char>
    decreases s.len(),
{
    if s.len() > 0 && white_space(s[0]) {
        trim_start(s.drop_first())
    } else {
        s
    }
}

/// `s` without its trailing whitespace.
pub open spec fn trim_end(s: Seq<char>) -> Seq<char>
    decreases s.len(),
{
    if s.len() > 0 && white_space(s.last()) {
        trim_end(s.drop_last())
    } else {
        s
    }
}

/// `s` without leading and trailing whitespace.
pub open spec fn trim(s: Seq<char>) -> Seq<char> {
    trim_end(trim_start(s))
}

/// The ASCII digit for `d < 10`.
pub open spec fn digit_char(d: nat) -> char {
    (48 + d) as char
}

/// The decimal numeral of `n`, without sign or leading zeros.
pub open spec fn decimal(n: nat) -> Seq<char>
    decreases n,
{
    if n < 10 {
        seq![digit_char(n)]
    } else {
        decimal(n / 10).push(digit_char(n % 10))
    }
}

/// Whether `c` is one of `0` to `9`.
pub open spec fn is_ascii_digit(c: char) -> bool {
    '0' <= c && c <= '9'
}

/// The value of a string of ASCII digits, most significant first.
pub open spec fn digits_value(d: Seq<char>) -> nat
    decreases d.len(),
{
    if d.len() == 0 {
        0
    } else {
        digits_value(d.drop_last()) * 10 + ((d.last() as int - 48) as nat)
    }
}

/// `s` without one leading `+`, if it has one.
pub open spec fn unsigned_part(s: Seq<char>) -> Seq<char> {
    if s.len() > 0 && s[0] == '+' {
        s.drop_first()
    } else {
        s
    }
}

/// Whether every character of `d` is an ASCII digit.
pub open spec fn all_digits(d: Seq<char>) -> bool {
    forall|i: int| 0 <= i < d.len() ==> #[trigger] is_ascii_digit(d[i])
}

/// What `str::parse::<usize>` accepts: an optional `+`, then one or more
/// ASCII digits whose value fits in a `usize`.
pub open spec fn parse_usize(s: Seq<char>) -> Option<usize> {
    let d = unsigned_part(s);
    if d.len() > 0 && all_digits(d) && digits_value(d) <= usize::MAX {
        Some(digits_value(d) as usize)
    } else {
        None
    }
}

proof fn lemma_trim_start_shape(x: Seq<char>)
    ensures
        trim_start(x).len() > 0 ==> !white_space(trim_start(x)[0]),
        forall|c: char| trim_start(x).contains(c) ==> x.contains(c),
    decreases x.len(),
{
    if x.len() > 0 && white_space(x[0]) {
        let r = x.drop_first();
        lemma_trim_start_shape(r);
        assert(trim_start(x) == trim_start(r));
        assert forall|c: char| trim_start(x).contains(c) implies x.contains(c) by {
            assert(r.contains(c));
            let j = choose|j: int| 0 <= j < r.len() && r[j] == c;
            assert(x[j + 1] == c);
        }
    }
}

proof fn lemma_trim_end_shape(y: Seq<char>)
    ensures
        trim_end(y).len() > 0 ==> !white_space(trim_end(y).last()),
        trim_end(y).len() <= y.len(),
        forall|i: int| 0 <= i < trim_end(y).len() ==> #[trigger] trim_end(y)[i] == y[i],
    decreases y.len(),
{
    if y.len() > 0 && white_space(y.last()) {
        let r = y.drop_last();
        lemma_trim_end_shape(r);
        assert forall|i: int| 0 <= i < trim_end(y).len() implies #[trigger] trim_end(y)[i]
            == y[i] by {
            assert(trim_end(r)[i] == r[i]);
        }
    }
}

proof fn lemma_trim_start_cut(x: Seq<char>) -> (a: int)
    ensures
        0 <= a <= x.len(),
        trim_start(x) == x.skip(a),
        forall|i: int| 0 <= i < a ==> #[trigger] white_space(x[i]),
    decreases x.len(),
{
    if x.len() > 0 && white_space(x[0]) {
        let r = x.drop_first();
        let a0 = lemma_trim_start_cut(r);
        assert(r.skip(a0) =~= x.skip(a0 + 1));
        assert forall|i: int| 0 <= i < a0 + 1 implies #[trigger] white_space(x[i]) by {
            if i > 0 {
                assert(x[i] == r[i - 1]);
            }
        }
        a0 + 1
    } else {
        assert(x.skip(0) =~= x);
        0
    }
}

proof fn lemma_trim_end_cut(y: Seq<char>) -> (b: int)
    ensures
        0 <= b <= y.len(),
        trim_end(y) == y.take(b),
        forall|i: int| b <= i < y.len() ==> #[trigger] white_space(y[i]),
    decreases y.len(),
{
    if y.len() > 0 && white_space(y.last()) {
        let r = y.drop_last();
        let b0 = lemma_trim_end_cut(r);
        assert(r.take(b0) =~= y.take(b0));
        assert forall|i: int| b0 <= i < y.len() implies #[trigger] white_space(y[i]) by {
            if i < y.len() - 1 {
                assert(y[i] == r[i]);
            }
        }
        b0
    } else {
        assert(y.take(y.len() as int) =~= y);
        y.len() as int
    }
}

/// Trimming removes exactly the whitespace at both ends: the result is a
/// stretch of `s` with only whitespace before and after it, and it neither
/// starts nor ends with whitespace.
pub proof fn law_trim(s: Seq<char>)
    ensures
        exists|a: int, b: int|
            {
                &&& 0 <= a <= b <= s.len()
                &&& trim(s) == s.subrange(a, b)
                &&& forall|i: int| 0 <= i < a ==> #[trigger] white_space(s[i])
                &&& forall|i: int| b <= i < s.len() ==> #[trigger] white_space(s[i])
            },
        trim(s).len() > 0 ==> !white_space(trim(s)[0]) && !white_space(trim(s).last()),
{
    let a = lemma_trim_start_cut(s);
    let y = trim_start(s);
    let b = lemma_trim_end_cut(y);
    lemma_trim_start_shape(s);
    lemma_trim_end_shape(y);
    assert(s.skip(a).take(b) =~= s.subrange(a, a + b));
    assert forall|i: int| a + b <= i < s.len() implies #[trigger] white_space(s[i]) by {
        assert(s[i] == y[i - a]);
    }
    if trim(s).len() > 0 {
        assert(trim(s)[0] == y[0]);
    }
    assert(trim(s) == s.subrange(a, a + b));
}

/// Trimming twice is trimming once.
pub proof fn lemma_trim_idempotent(x: Seq<char>)
    ensures
        trim(trim(x)) == trim(x),
{
    let y = trim_start(x);
    let z = trim_end(y);
    lemma_trim_start_shape(x);
    lemma_trim_end_shape(y);
    if z.len() > 0 {
        assert(z[0] == y[0]);
    }
    assert(trim_start(z) == z);
    assert(trim_end(z) == z);
}

/// Trimming adds no character.
pub proof fn lemma_trim_keeps_out(x: Seq<char>, c: char)
    ensures
        !x.contains(c) ==> !trim(x).contains(c),
{
    let y = trim_start(x);
    lemma_trim_start_shape(x);
    lemma_trim_end_shape(y);
    if trim(x).contains(c) {
        let j = choose|j: int| 0 <= j < trim(x).len() && trim(x)[j] == c;
        assert(trim_end(y)[j] == y[j]);
        assert(y.contains(c));
    }
}

/// A prefix of a digit string is worth no more than the whole string.
proof fn lemma_digits_prefix(d: Seq<char>, k: int)
    requires
        0 <= k <= d.len(),
        all_digits(d),
    ensures
        digits_value(d.take(k)) <= digits_value(d),
    decreases d.len(),
{
    if k < d.len() {
        let e = d.drop_last();
        assert forall|i: int| 0 <= i < e.len() implies #[trigger] is_ascii_digit(e[i]) by {
            assert(is_ascii_digit(d[i]));
        }
        lemma_digits_prefix(e, k);
        assert(e.take(k) =~= d.take(k));
    } else {
        assert(d.take(k) =~= d);
    }
}

/// Whether `c` has the Unicode `White_Space` property.
pub fn is_white_space(c: char) -> (b: bool)
    ensures
        b == white_space(c),
{
    let u = c as u32;
    (0x9 <= u && u <= 0xd) || u == 0x20 || u == 0x85 || u == 0xa0 || u == 0x1680 || (0x2000 <= u
        && u <= 0x200a) || u == 0x2028 || u == 0x2029 || u == 0x202f || u == 0x205f || u == 0x3000
}

/// Appends one character to a `String` (`String::push`).
#[verifier::external_body]
pub(crate) fn push_char(s: &mut String, c: char)
    ensures
        final(s)@ == old(s)@.push(c),
{
    s.push(c);
}

/// The characters of `s`, in order.
pub(crate) fn chars_of(s: &str) -> (v: Vec<char>)
    ensures
        v@ == s@,
{
    let mut v: Vec<char> = Vec::new();
    for c in it: s.chars()
        invariant
            v@ == it.seq().take(it.index() as int),
            it.seq() == s@,
    {
        v.push(c);
    }
    v
}

/// Appends `chars[lo..hi]` to `s`.
pub(crate) fn push_range(s: &mut String, chars: &Vec<char>, lo: usize, hi: usize)
    requires
        lo <= hi <= chars@.len(),
    ensures
        final(s)@ == old(s)@ + chars@.subrange(lo as int, hi as int),
{
    let mut i = lo;
    while i < hi
        invariant
            lo <= i <= hi <= chars@.len(),
            s@ == old(s)@ + chars@.subrange(lo as int, i as int),
        decreases hi - i,
    {
        push_char(s, chars[i]);
        assert(chars@.subrange(lo as int, i + 1) =~= chars@.subrange(lo as int, i as int).push(
            chars@[i as int],
        ));
        i = i + 1;
    }
}

/// A new `String` holding `chars[lo..hi]`.
pub(crate) fn string_of_range(chars: &Vec<char>, lo: usize, hi: usize) -> (s: String)
    requires
        lo <= hi <= chars@.len(),
    ensures
        s@ == chars@.subrange(lo as int, hi as int),
{
    let mut s = String::new();
    push_range(&mut s, chars, lo, hi);
    s
}

/// Appends the decimal numeral of `n` to `s`.
pub(crate) fn push_decimal(s: &mut String, n: usize)
    ensures
        final(s)@ == old(s)@ + decimal(n as nat),
    decreases n,
{
    if n >= 10 {
        push_decimal(s, n / 10);
    }
    let d: u8 = (n % 10) as u8;
    let c = (48u8 + d) as char;
    push_char(s, c);
    assert(c == digit_char((n % 10) as nat));
}

/// The bounds of `chars[lo..hi]` with leading and trailing whitespace left out.
pub(crate) fn trim_bounds(chars: &Vec<char>, lo: usize, hi: usize) -> (r: (usize, usize))
    requires
        lo <= hi <= chars@.len(),
    ensures
        lo <= r.0 <= r.1 <= hi,
        chars@.subrange(r.0 as int, r.1 as int) == trim(chars@.subrange(lo as int, hi as int)),
{
    let ghost whole = chars@.subrange(lo as int, hi as int);
    let mut a = lo;
    while a < hi && is_white_space(chars[a])
        invariant
            lo <= a <= hi <= chars@.len(),
            whole == chars@.subrange(lo as int, hi as int),
            trim_start(whole) == trim_start(chars@.subrange(a as int, hi as int)),
        decreases hi - a,
    {
        assert(chars@.subrange(a as int, hi as int).drop_first() =~= chars@.subrange(
            a + 1,
            hi as int,
        ));
        a = a + 1;
    }
    let ghost start = chars@.subrange(a as int, hi as int);
    assert(trim_start(start) == start);
    let mut b = hi;
    while b > a && is_white_space(chars[b - 1])
        invariant
            lo <= a <= b <= hi <= chars@.len(),
            start == chars@.subrange(a as int, hi as int),
            trim_end(start) == trim_end(chars@.subrange(a as int, b as int)),
        decreases b - a,
    {
        assert(chars@.subrange(a as int, b as int).drop_last() =~= chars@.subrange(
            a as int,
            b - 1,
        ));
        b = b - 1;
    }
    (a, b)
}

/// `s` with leading and trailing Unicode whitespace removed, as `str::trim` does.
pub fn trim_field(s: &str) -> (t: String)
    ensures
        t@ == trim(s@),
{
    let chars = chars_of(s);
    let (a, b) = trim_bounds(&chars, 0, chars.len());
    assert(chars@.subrange(0, chars@.len() as int) =~= chars@);
    string_of_range(&chars, a, b)
}

/// The value of `chars[lo..hi]` read as `str::parse::<usize>` reads it.
pub(crate) fn parse_usize_range(chars: &Vec<char>, lo: usize, hi: usize) -> (r: Option<usize>)
    requires
        lo <= hi <= chars@.len(),
    ensures
        r == parse_usize(chars@.subrange(lo as int, hi as int)),
{
    let ghost s = chars@.subrange(lo as int, hi as int);
    let mut start = lo;
    if start < hi && chars[start] == '+' {
        start = start + 1;
    }
    let ghost d = chars@.subrange(start as int, hi as int);
    assert(d == unsigned_part(s));
    if start == hi {
        return None;
    }
    let mut acc: usize = 0;
    let mut i = start;
    while i < hi
        invariant
            lo <= start <= i <= hi <= chars@.len(),
            d == chars@.subrange(start as int, hi as int),
            s == chars@.subrange(lo as int, hi as int),
            d == unsigned_part(s),
            d.len() > 0,
            forall|j: int| 0 <= j < i - start ==> #[trigger] is_ascii_digit(d[j]),
            acc == digits_value(d.take(i - start)),
        decreases hi - i,
    {
        let c = chars[i];
        assert(c == d[i - start]);
        if !('0' <= c && c <= '9') {
            assert(!is_ascii_digit(d[i - start]));
            return None;
        }
        let dv = (c as u32 - 48) as usize;
        assert(d.take(i - start + 1).drop_last() =~= d.take(i - start));
        assert(d.take(i - start + 1).last() == c);
        assert(digits_value(d.take(i - start + 1)) == acc * 10 + dv);
        let grown = acc.checked_mul(10);
        match grown {
            None => {
                proof {
                    if all_digits(d) {
                        lemma_digits_prefix(d, i - start + 1);
                    }
                }
                return None;
            },
            Some(g) => {
                match g.checked_add(dv) {
                    None => {
                        proof {
                            if all_digits(d) {
                                lemma_digits_prefix(d, i - start + 1);
                            }
                        }
                        return None;
                    },
                    Some(v) => {
                        acc = v;
                    },
                }
            },
        }
        i = i + 1;
    }
    assert(d.take(d.len() as int) =~= d);
    Some(acc)
}

} // verus!
