//! The decisions the command-line tool takes for each record it reads: the
//! field delimiter, the optional header row, trimming, skipping blank rows and
//! rendering the rest.  Reading the records and writing the lines is left to
//! the caller.

use vstd::prelude::*;

use crate::format::{
    headers_view, render, rendered, segments_view, strings_view, Segment,
    SegmentView,
};
use crate::text::{chars_of, trim, trim_field};

verus! {

/// Names what `{:?}` (`<str as Debug>::fmt`) writes for a string: the string
/// in double quotes, with quotes, backslashes and unprintable characters
/// escaped.
pub uninterp spec fn debug_quoted(s: Seq<char>) -> Seq<char>;

/// The `Debug` rendering of `s` (`format!("{:?}", s)`); the contract claims
/// only that it depends on the characters of `s` alone.
#[verifier::external_body]
fn debug_str(s: &str) -> (r: String)
    ensures
        r@ == debug_quoted(s@),
{
    format!("{:?}", s)
}

pub open spec fn bad_delimiter_message(s: Seq<char>) -> Seq<char> {
    "delimiter must be a single ASCII character, got "@ + debug_quoted(s)
}

/// The byte that the delimiter argument `s` names: `\t` (a backslash and a
/// `t`) and `tab` name the tab; any other single ASCII character names itself.
pub open spec fn delimiter_of(s: Seq<char>) -> Option<u8> {
    if s == seq!['\\', 't'] || s == seq!['t', 'a', 'b'] {
        Some(9)
    } else if s.len() == 1 && (s[0] as u32) < 128 {
        Some(s[0] as u8)
    } else {
        None
    }
}

/// Convert a user-supplied delimiter string to a single byte.
pub fn parse_delimiter(s: &str) -> (r: Result<u8, String>)
    ensures
        match delimiter_of(s@) {
            Some(b) => r == Ok::<u8, String>(b),
            None => r matches Err(m) && m@ == bad_delimiter_message(s@),
        },
        // Any one ASCII character names itself.
        s@.len() == 1 && (s@[0] as u32) < 128 ==> r == Ok::<u8, String>(s@[0] as u8),
        // Only the two spellings of the tab are longer.
        s@ == seq!['\\', 't'] || s@ == seq!['t', 'a', 'b'] ==> r == Ok::<u8, String>(9),
        r is Ok <==> (s@.len() == 1 && (s@[0] as u32) < 128) || s@ == seq!['\\', 't'] || s@
            == seq!['t', 'a', 'b'],
{
    let chars = chars_of(s);
    if chars.len() == 2 && chars[0] == '\\' && chars[1] == 't' {
        assert(chars@ =~= seq!['\\', 't']);
        return Ok(9);
    }
    if chars.len() == 3 && chars[0] == 't' && chars[1] == 'a' && chars[2] == 'b' {
        assert(chars@ =~= seq!['t', 'a', 'b']);
        return Ok(9);
    }
    if chars.len() == 1 && (chars[0] as u32) < 128 {
        return Ok(chars[0] as u8);
    }
    let mut m = String::from_str("delimiter must be a single ASCII character, got ");
    let q = debug_str(s);
    m.append(q.as_str());
    Err(m)
}

/// The delimiter of the input: a tab with `tsv`, else the one that
/// `delimiter` names, else a comma.
pub fn delimiter_byte(tsv: bool, delimiter: Option<&str>) -> (r: Result<u8, String>)
    ensures
        tsv ==> r == Ok::<u8, String>(9),
        !tsv && delimiter is None ==> r == Ok::<u8, String>(44),
        !tsv ==> (delimiter matches Some(d) ==> match delimiter_of(d@) {
            Some(b) => r == Ok::<u8, String>(b),
            None => r matches Err(m) && m@ == bad_delimiter_message(d@),
        }),
{
    if tsv {
        Ok(9)
    } else {
        match delimiter {
            Some(d) => parse_delimiter(d),
            None => Ok(44),
        }
    }
}

/// How records are treated.
pub struct RowOptions {
    /// The first record is the header row, which names the columns.
    pub header: bool,
    /// Leading and trailing whitespace is removed from each field.
    pub trim: bool,
    /// Records whose fields are all empty produce no line.
    pub skip_empty: bool,
}

/// What is known after some records have been read.
pub struct RowState {
    /// The header row, once it has been read.
    pub headers: Option<Vec<String>>,
    /// No record has been read yet.
    pub first: bool,
}

pub open spec fn header_rows_view(h: Option<Vec<String>>) -> Option<Seq<Seq<char>>> {
    match h {
        Some(v) => Some(strings_view(v@)),
        None => None,
    }
}

/// The fields of a record as the template sees them.
pub open spec fn prepared(fields: Seq<Seq<char>>, trim_fields: bool) -> Seq<Seq<char>> {
    if trim_fields {
        fields.map_values(|f: Seq<char>| trim(f))
    } else {
        fields
    }
}

/// Every field is empty (so is a record without fields).
pub open spec fn all_empty(fields: Seq<Seq<char>>) -> bool {
    forall|i: int| 0 <= i < fields.len() ==> #[trigger] fields[i].len() == 0
}

/// A record without fields is read as one empty field.
pub open spec fn padded(fields: Seq<Seq<char>>) -> Seq<Seq<char>> {
    if fields.len() == 0 {
        seq![Seq::<char>::empty()]
    } else {
        fields
    }
}

impl RowState {
    /// The state before the first record.
    pub fn new() -> (s: RowState)
        ensures
            s.first,
            s.headers is None,
    {
        RowState { headers: None, first: true }
    }
}

fn trimmed_fields(record: &Vec<String>) -> (r: Vec<String>)
    ensures
        strings_view(r@) == prepared(strings_view(record@), true),
{
    let mut out: Vec<String> = Vec::new();
    let mut i: usize = 0;
    while i < record.len()
        invariant
            i <= record@.len(),
            out@.len() == i,
            forall|j: int| 0 <= j < i ==> #[trigger] out@[j]@ == trim(record@[j]@),
        decreases record@.len() - i,
    {
        let t = trim_field(record[i].as_str());
        out.push(t);
        i = i + 1;
    }
    assert(strings_view(out@) =~= prepared(strings_view(record@), true));
    out
}

fn fields_all_empty(fields: &Vec<String>) -> (b: bool)
    ensures
        b == all_empty(strings_view(fields@)),
        b <==> forall|j: int| 0 <= j < fields@.len() ==> #[trigger] fields@[j]@.len() == 0,
{
    let mut i: usize = 0;
    while i < fields.len()
        invariant
            i <= fields@.len(),
            forall|j: int| 0 <= j < i ==> #[trigger] fields@[j]@.len() == 0,
        decreases fields@.len() - i,
    {
        if !fields[i].as_str().is_empty() {
            assert(strings_view(fields@)[i as int].len() != 0);
            return false;
        }
        i = i + 1;
    }
    true
}

/// Handle one record: keep it as the header row, skip it, or render it.
///
/// The first record is stored as the header row when `options.header` is set,
/// and produces no line.  Any other record produces no line when
/// `options.skip_empty` is set and all its fields are empty; otherwise it
/// produces the template rendered against its fields (one empty field when
/// it has none) and the header row read so far.
pub fn process_record(
    state: &mut RowState,
    record: Vec<String>,
    options: &RowOptions,
    segments: &[Segment],
) -> (line: Option<String>)
    ensures
        ({
            let fields = prepared(strings_view(record@), options.trim);
            if old(state).first && options.header {
                &&& line is None
                &&& header_rows_view(final(state).headers) == Some(fields)
                &&& !final(state).first
            } else {
                &&& header_rows_view(final(state).headers) == header_rows_view(old(state).headers)
                &&& !final(state).first
                &&& if options.skip_empty && all_empty(fields) {
                    line is None
                } else {
                    line matches Some(l) && l@ == rendered(
                        segments_view(segments@),
                        padded(fields),
                        header_rows_view(old(state).headers),
                    )
                }
                // A record with some non-empty field always makes a line; with
                // `skip_empty`, one whose fields are all empty makes none.
                &&& (exists|i: int| 0 <= i < fields.len() && #[trigger] fields[i].len() > 0)
                    ==> line is Some
                &&& options.skip_empty && (forall|i: int|
                    0 <= i < fields.len() ==> #[trigger] fields[i].len() == 0) ==> line is None
            }
        }),
{
    let mut fields = if options.trim {
        trimmed_fields(&record)
    } else {
        record
    };
    if state.first && options.header {
        state.headers = Some(fields);
        state.first = false;
        return None;
    }
    state.first = false;
    if options.skip_empty && fields_all_empty(&fields) {
        return None;
    }
    if fields.len() == 0 {
        fields.push(String::new());
        assert(strings_view(fields@) =~= seq![Seq::<char>::empty()]);
    }
    let line = match &state.headers {
        Some(h) => render(segments, fields.as_slice(), Some(h.as_slice())),
        None => render(segments, fields.as_slice(), None),
    };
    Some(line)
}

/// Any one ASCII character names itself as the delimiter, the tab and the
/// space included; besides these, only `\t` and `tab` name one (the tab).
pub proof fn law_ascii_character_is_delimiter(c: char, s: Seq<char>)
    ensures
        (c as u32) < 128 ==> delimiter_of(seq![c]) == Some(c as u8),
        (c as u32) >= 128 ==> delimiter_of(seq![c]) is None,
        delimiter_of(s) is Some <==> (s.len() == 1 && (s[0] as u32) < 128) || s == seq![
            '\\',
            't',
        ] || s == seq!['t', 'a', 'b'],
{
    let one = seq![c];
    assert(one.len() == 1 && one[0] == c);
    assert(one != seq!['\\', 't']);
    assert(one != seq!['t', 'a', 'b']);
}

/// A record is blank, and is skipped under `skip_empty`, exactly when none
/// of its fields has any text; trimming comes first, so fields of
/// whitespace alone count as empty then.
pub proof fn law_blank_record(fields: Seq<Seq<char>>, trim_fields: bool)
    ensures
        all_empty(fields) <==> forall|i: int| 0 <= i < fields.len() ==> #[trigger] fields[i].len()
            == 0,
        !all_empty(fields) <==> exists|i: int| 0 <= i < fields.len() && #[trigger] fields[i].len()
            > 0,
        prepared(fields, trim_fields).len() == fields.len(),
        forall|i: int|
            0 <= i < fields.len() ==> #[trigger] prepared(fields, trim_fields)[i] == (
            if trim_fields {
                trim(fields[i])
            } else {
                fields[i]
            }),
{
}

} // verus!
