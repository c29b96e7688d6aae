//! From text to sections: the line assembler, the section scanner and the entry parser.
use vstd::prelude::*;

use crate::error::ParseError;
use crate::section::{Entry, EntryModel, Section, SectionModel, Value, ValueModel};
use crate::section::{entries_view, sections_view, strings_view};
use crate::text::{
    chars_of, extend_range, is_space, space, string_of, trim, trim_end, trim_end_range, trim_range,
};

verus! {

/// Position just past the next line terminator at or after `i`, or the end of `s`.
pub open spec fn line_end(s: Seq<char>, i: int) -> int
    decreases s.len() - i,
{
    if i >= s.len() {
        s.len() as int
    } else if s[i] == '\n' {
        i + 1
    } else {
        line_end(s, i + 1)
    }
}

/// `r` with `p` put before the text it holds.
pub open spec fn prefixed(p: Seq<char>, r: Result<(Seq<char>, int), ParseError>) -> Result<
    (Seq<char>, int),
    ParseError,
> {
    match r {
        Ok((t, j)) => Ok((p + t, j)),
        Err(e) => Err(e),
    }
}

/// The physical line that starts at `i`, with its comment left out, and the position after
/// it. `q` says whether a quote is open at `i`: inside quotes neither `;` nor a line
/// terminator ends the line, and a quote still open at the end of input is an error.
pub open spec fn physical_line(s: Seq<char>, i: int, q: bool) -> Result<(Seq<char>, int), ParseError>
    decreases s.len() - i,
{
    if i >= s.len() {
        if q {
            Err(ParseError::UnterminatedString)
        } else {
            Ok((seq![], s.len() as int))
        }
    } else if s[i] == '"' {
        prefixed(seq![s[i]], physical_line(s, i + 1, !q))
    } else if !q && s[i] == ';' {
        Ok((seq![], line_end(s, i + 1)))
    } else if !q && s[i] == '\n' {
        Ok((seq![], i + 1))
    } else {
        prefixed(seq![s[i]], physical_line(s, i + 1, q))
    }
}

/// How many backslashes `t` ends with.
pub open spec fn trailing_backslashes(t: Seq<char>) -> nat
    decreases t.len(),
{
    if t.len() > 0 && t.last() == '\\' {
        1 + trailing_backslashes(t.drop_last())
    } else {
        0
    }
}

/// `t` ends with a backslash that no other backslash escapes: the line continues.
pub open spec fn continues(t: Seq<char>) -> bool {
    trailing_backslashes(t) % 2 == 1
}

/// The logical line that starts at `i`, after the text `acc` already joined, and the
/// position after it. Each physical line loses its trailing whitespace; one that then ends
/// in a continuation backslash loses it and its whitespace before it, and the next physical
/// line is joined on.
pub open spec fn logical_line(s: Seq<char>, i: int, acc: Seq<char>) -> Result<(Seq<char>, int), ParseError>
    decreases s.len() - i,
{
    match physical_line(s, i, false) {
        Err(e) => Err(e),
        Ok((p, j)) => {
            let t = trim_end(p);
            if continues(t) {
                let joined = acc + trim_end(t.drop_last());
                if j < s.len() {
                    proof {
                        lemma_physical_line_bounds(s, i, false);
                        assert(p.len() > 0) by {
                            reveal_with_fuel(trim_end, 1);
                        }
                    }
                    logical_line(s, j, joined)
                } else {
                    Ok((joined, j))
                }
            } else {
                Ok((acc + t, j))
            }
        },
    }
}

/// `line_end` moves forward, and past at least one character before the end of input.
pub proof fn lemma_line_end_bounds(s: Seq<char>, i: int)
    requires
        i <= s.len(),
    ensures
        i <= line_end(s, i) <= s.len(),
        i < s.len() ==> i < line_end(s, i),
    decreases s.len() - i,
{
    if i < s.len() && s[i] != '\n' {
        lemma_line_end_bounds(s, i + 1);
    }
}

/// A physical line ends within the text, past its start when it holds text or input remains.
pub proof fn lemma_physical_line_bounds(s: Seq<char>, i: int, q: bool)
    ensures
        physical_line(s, i, q) matches Ok((p, j)) ==> j <= s.len() && (i <= s.len() ==> i <= j)
            && (p.len() > 0 ==> i < j) && (i < s.len() ==> i < j),
    decreases s.len() - i,
{
    if i < s.len() {
        if s[i] == '"' {
            lemma_physical_line_bounds(s, i + 1, !q);
        } else if !q && s[i] == ';' {
            lemma_line_end_bounds(s, i + 1);
        } else if !q && s[i] == '\n' {
        } else {
            lemma_physical_line_bounds(s, i + 1, q);
        }
    }
}


/// The position of the first `]` or line terminator at or after `i`, or the end of `s`.
pub open spec fn name_end(s: Seq<char>, i: int) -> int
    decreases s.len() - i,
{
    if i >= s.len() {
        s.len() as int
    } else if s[i] == ']' || s[i] == '\n' {
        i
    } else {
        name_end(s, i + 1)
    }
}

/// What may follow a header's `]`: whitespace, then a comment, a line terminator or the end
/// of input. The position after the header's line.
pub open spec fn header_tail(s: Seq<char>, i: int) -> Result<int, ParseError>
    decreases s.len() - i,
{
    if i >= s.len() {
        Ok(s.len() as int)
    } else if s[i] == ';' {
        Ok(line_end(s, i + 1))
    } else if s[i] == '\n' {
        Ok(i + 1)
    } else if is_space(s[i]) {
        header_tail(s, i + 1)
    } else {
        Err(ParseError::UnexpectedCharacter { c: s[i] })
    }
}

/// The header whose name starts at `i`, just after its `[`: the name, and the position after
/// the header's line. A header that a line terminator or the end of input cuts short is an
/// unexpected character: that terminator, or the `[` that found no `]`.
pub open spec fn header(s: Seq<char>, i: int) -> Result<(Seq<char>, int), ParseError> {
    let k = name_end(s, i);
    if k >= s.len() {
        Err(ParseError::UnexpectedCharacter { c: '[' })
    } else if s[k] == '\n' {
        Err(ParseError::UnexpectedCharacter { c: '\n' })
    } else if k == i {
        Err(ParseError::SectionNameEmpty)
    } else if k - i > 255 {
        Err(ParseError::SectionNameTooLong)
    } else {
        match header_tail(s, k + 1) {
            Ok(j) => Ok((s.subrange(i, k), j)),
            Err(e) => Err(e),
        }
    }
}

/// The entries of the section body that starts at `i`, after those in `acc`, and the position
/// where the body ends: at the end of input or at a `[` that starts a line.
pub open spec fn body(s: Seq<char>, i: int, acc: Seq<EntryModel>) -> Result<(Seq<EntryModel>, int), ParseError>
    decreases s.len() - i,
{
    if i < 0 || i >= s.len() || s[i] == '[' {
        Ok((acc, i))
    } else {
        match logical_line(s, i, seq![]) {
            Err(e) => Err(e),
            Ok((line, j)) => {
                proof {
                    lemma_logical_line_bounds(s, i, seq![]);
                }
                if line.len() == 0 {
                    body(s, j, acc)
                } else {
                    match entry_of(line) {
                        Err(e) => Err(e),
                        Ok(entry) => body(s, j, acc.push(entry)),
                    }
                }
            },
        }
    }
}

/// Section names are unique.
pub open spec fn names_unique(doc: Seq<SectionModel>) -> bool {
    forall|a: int, b: int|
        0 <= a < b < doc.len() ==> #[trigger] doc[a].name != #[trigger] doc[b].name
}

/// Some section of `doc` is named `name`.
pub open spec fn has_section(doc: Seq<SectionModel>, name: Seq<char>) -> bool {
    exists|k: int| 0 <= k < doc.len() && #[trigger] doc[k].name == name
}

/// `doc` once a header `name` with `entries` below it is read: the entries join the section
/// of that name, or a new section at the end.
pub open spec fn merge(doc: Seq<SectionModel>, name: Seq<char>, entries: Seq<EntryModel>) -> Seq<
    SectionModel,
> {
    if has_section(doc, name) {
        let k = choose|k: int| 0 <= k < doc.len() && #[trigger] doc[k].name == name;
        doc.update(k, SectionModel { name, entries: doc[k].entries + entries })
    } else {
        doc.push(SectionModel { name, entries })
    }
}

/// `doc` once the section whose header name starts at `i` is read, and the position after
/// the section.
pub open spec fn section_at(s: Seq<char>, i: int, doc: Seq<SectionModel>) -> Result<
    (Seq<SectionModel>, int),
    ParseError,
> {
    match header(s, i) {
        Err(e) => Err(e),
        Ok((name, j)) => match body(s, j, seq![]) {
            Err(e) => Err(e),
            Ok((entries, k)) => Ok((merge(doc, name, entries), k)),
        },
    }
}

/// Reading a section moves past its `[`.
pub proof fn lemma_section_at_bounds(s: Seq<char>, i: int, doc: Seq<SectionModel>)
    requires
        0 <= i <= s.len(),
    ensures
        section_at(s, i, doc) matches Ok((next, k)) ==> i < k <= s.len(),
{
    lemma_header_bounds(s, i);
    if let Ok((name, j)) = header(s, i) {
        lemma_body_bounds(s, j, seq![]);
    }
}

/// The sections read from position `i` on, added to `doc`.
pub open spec fn sections_from(s: Seq<char>, i: int, doc: Seq<SectionModel>) -> Result<
    Seq<SectionModel>,
    ParseError,
>
    decreases s.len() - i,
{
    if i < 0 || i >= s.len() {
        Ok(doc)
    } else if s[i] == ';' {
        proof {
            lemma_line_end_bounds(s, i + 1);
        }
        sections_from(s, line_end(s, i + 1), doc)
    } else if s[i] == '[' {
        match section_at(s, i + 1, doc) {
            Err(e) => Err(e),
            Ok((next, k)) => {
                proof {
                    lemma_section_at_bounds(s, i + 1, doc);
                }
                sections_from(s, k, next)
            },
        }
    } else if is_space(s[i]) {
        sections_from(s, i + 1, doc)
    } else {
        Err(ParseError::UnexpectedCharacter { c: s[i] })
    }
}

/// The document that the text `s` holds.
pub open spec fn parse_text(s: Seq<char>) -> Result<Seq<SectionModel>, ParseError> {
    sections_from(s, 0, seq![])
}

/// A logical line that starts before the end of input moves past its start.
pub proof fn lemma_logical_line_bounds(s: Seq<char>, i: int, acc: Seq<char>)
    requires
        0 <= i < s.len(),
    ensures
        logical_line(s, i, acc) matches Ok((line, j)) ==> i < j <= s.len(),
    decreases s.len() - i,
{
    lemma_physical_line_bounds(s, i, false);
    reveal_with_fuel(physical_line, 2);
    if let Ok((p, j)) = physical_line(s, i, false) {
        let t = trim_end(p);
        if continues(t) {
            assert(p.len() > 0) by {
                reveal_with_fuel(trim_end, 1);
            }
            if j < s.len() {
                lemma_logical_line_bounds(s, j, acc + trim_end(t.drop_last()));
            }
        }
    }
}

/// The rest of a header line ends within the text.
pub proof fn lemma_header_tail_bounds(s: Seq<char>, i: int)
    requires
        0 <= i <= s.len(),
    ensures
        header_tail(s, i) matches Ok(j) ==> i <= j <= s.len(),
    decreases s.len() - i,
{
    if i < s.len() {
        if s[i] == ';' {
            lemma_line_end_bounds(s, i + 1);
        } else if s[i] != '\n' && is_space(s[i]) {
            lemma_header_tail_bounds(s, i + 1);
        }
    }
}

/// A header name ends within the text.
pub proof fn lemma_name_end_bounds(s: Seq<char>, i: int)
    requires
        0 <= i <= s.len(),
    ensures
        i <= name_end(s, i) <= s.len(),
    decreases s.len() - i,
{
    if i < s.len() && s[i] != ']' && s[i] != '\n' {
        lemma_name_end_bounds(s, i + 1);
    }
}

/// A header that reads moves past its start.
pub proof fn lemma_header_bounds(s: Seq<char>, i: int)
    requires
        0 <= i <= s.len(),
    ensures
        header(s, i) matches Ok((name, j)) ==> i < j <= s.len(),
{
    lemma_name_end_bounds(s, i);
    let k = name_end(s, i);
    if k < s.len() {
        lemma_header_tail_bounds(s, k + 1);
    }
}

/// A section body never moves backward.
pub proof fn lemma_body_bounds(s: Seq<char>, i: int, acc: Seq<EntryModel>)
    ensures
        body(s, i, acc) matches Ok((entries, k)) ==> i <= k && (0 <= i <= s.len() ==> k <= s.len()),
    decreases s.len() - i,
{
    if !(i < 0 || i >= s.len() || s[i] == '[') {
        lemma_logical_line_bounds(s, i, seq![]);
        if let Ok((line, j)) = logical_line(s, i, seq![]) {
            if line.len() == 0 {
                lemma_body_bounds(s, j, acc);
            } else if let Ok(entry) = entry_of(line) {
                lemma_body_bounds(s, j, acc.push(entry));
            }
        }
    }
}


/// `c` splits fields; with `with_equals`, `=` counts too.
pub open spec fn is_delimiter(c: char, with_equals: bool) -> bool {
    c == ',' || (with_equals && c == '=')
}

/// The first delimiter at or after `i` that no open quote covers, `q` being whether a quote
/// is open at `i`; `t.len()` where there is none.
pub open spec fn next_delimiter(t: Seq<char>, i: int, q: bool, with_equals: bool) -> int
    decreases t.len() - i,
{
    if i >= t.len() {
        t.len() as int
    } else if !q && is_delimiter(t[i], with_equals) {
        i
    } else if t[i] == '"' {
        next_delimiter(t, i + 1, !q, with_equals)
    } else {
        next_delimiter(t, i + 1, q, with_equals)
    }
}

/// The fields of `t` from position `i` on: the text between unquoted commas, empty fields
/// included.
pub open spec fn fields_from(t: Seq<char>, i: int) -> Seq<Seq<char>>
    decreases t.len() - i,
{
    let k = next_delimiter(t, i, false, false);
    if i < 0 || k >= t.len() {
        seq![t.subrange(i, t.len() as int)]
    } else {
        proof {
            lemma_next_delimiter_bounds(t, i, false, false);
        }
        seq![t.subrange(i, k)] + fields_from(t, k + 1)
    }
}

/// `s` with each pair `cc` read as one `c`, left to right.
pub open spec fn collapse_pairs(s: Seq<char>, c: char) -> Seq<char>
    decreases s.len(),
{
    if s.len() >= 2 && s[0] == c && s[1] == c {
        seq![c] + collapse_pairs(s.skip(2), c)
    } else if s.len() > 0 {
        seq![s[0]] + collapse_pairs(s.drop_first(), c)
    } else {
        seq![]
    }
}

/// `""` read as `"`, then `\\` as `\`.
pub open spec fn unescape(s: Seq<char>) -> Seq<char> {
    collapse_pairs(collapse_pairs(s, '"'), '\\')
}

/// A field as a value: trimmed, one pair of surrounding quotes taken off, escapes read. A
/// quote at one end only is an unterminated string.
pub open spec fn unquote(f: Seq<char>) -> Result<Seq<char>, ParseError> {
    let t = trim(f);
    if t.len() >= 2 && t[0] == '"' && t.last() == '"' {
        Ok(unescape(t.subrange(1, t.len() - 1)))
    } else if t.len() > 0 && (t[0] == '"' || t.last() == '"') {
        Err(ParseError::UnterminatedString)
    } else {
        Ok(unescape(t))
    }
}

/// The value of a list of fields: one field is `Raw`, more are a `List`.
pub open spec fn value_of(values: Seq<Seq<char>>) -> ValueModel {
    if values.len() == 1 {
        ValueModel::Raw(values[0])
    } else {
        ValueModel::List(values)
    }
}

/// The values of `fields`, where each of them has one.
pub open spec fn unquote_all(fields: Seq<Seq<char>>) -> Result<Seq<Seq<char>>, ParseError> {
    if exists|m: int| 0 <= m < fields.len() && (#[trigger] unquote(fields[m])) is Err {
        Err(ParseError::UnterminatedString)
    } else {
        Ok(fields.map_values(|f: Seq<char>| unquote(f)->Ok_0))
    }
}

/// Where the key of `line` ends: at the first unquoted `=`, if no unquoted comma comes
/// before it.
pub open spec fn key_end(line: Seq<char>) -> Option<int> {
    let k = next_delimiter(line, 0, false, true);
    if k < line.len() && line[k] == '=' {
        Some(k)
    } else {
        None
    }
}

/// The entry that a logical line holds: `key = fields` where it has a key, else bare fields.
pub open spec fn entry_of(line: Seq<char>) -> Result<EntryModel, ParseError> {
    match key_end(line) {
        Some(k) => match unquote_all(fields_from(line, k + 1)) {
            Ok(values) => Ok(EntryModel::Item(trim(line.take(k)), value_of(values))),
            Err(e) => Err(e),
        },
        None => match unquote_all(fields_from(line, 0)) {
            Ok(values) => Ok(EntryModel::ValueOnly(value_of(values))),
            Err(e) => Err(e),
        },
    }
}

/// The next delimiter lies within the text, and is one.
pub proof fn lemma_next_delimiter_bounds(t: Seq<char>, i: int, q: bool, with_equals: bool)
    requires
        0 <= i,
    ensures
        i <= t.len() ==> i <= next_delimiter(t, i, q, with_equals) <= t.len(),
        next_delimiter(t, i, q, with_equals) < t.len() ==> is_delimiter(
            t[next_delimiter(t, i, q, with_equals)],
            with_equals,
        ),
    decreases t.len() - i,
{
    if i < t.len() && !(!q && is_delimiter(t[i], with_equals)) {
        if t[i] == '"' {
            lemma_next_delimiter_bounds(t, i + 1, !q, with_equals);
        } else {
            lemma_next_delimiter_bounds(t, i + 1, q, with_equals);
        }
    }
}


/// `r` with its success value seen through its view.
pub open spec fn view_result<T: View>(r: Result<T, ParseError>) -> Result<T::V, ParseError> {
    match r {
        Ok(t) => Ok(t@),
        Err(e) => Err(e),
    }
}

/// The first unquoted delimiter at or after `from`, or `v.len()`.
fn find_delimiter(v: &Vec<char>, from: usize, with_equals: bool) -> (r: usize)
    requires
        from <= v@.len(),
    ensures
        r == next_delimiter(v@, from as int, false, with_equals),
        from <= r <= v@.len(),
{
    let mut i = from;
    let mut q = false;
    while i < v.len()
        invariant
            from <= i <= v@.len(),
            next_delimiter(v@, from as int, false, with_equals) == next_delimiter(
                v@,
                i as int,
                q,
                with_equals,
            ),
        decreases v@.len() - i,
    {
        let c = v[i];
        if !q && (c == ',' || (with_equals && c == '=')) {
            return i;
        }
        if c == '"' {
            q = !q;
        }
        i = i + 1;
    }
    i
}

/// `v[lo..hi]` with each pair `cc` read as one `c`.
fn collapse(v: &Vec<char>, lo: usize, hi: usize, c: char) -> (r: Vec<char>)
    requires
        lo <= hi <= v@.len(),
    ensures
        r@ == collapse_pairs(v@.subrange(lo as int, hi as int), c),
{
    let mut out: Vec<char> = Vec::new();
    let mut i = lo;
    while i < hi
        invariant
            lo <= i <= hi <= v@.len(),
            collapse_pairs(v@.subrange(lo as int, hi as int), c) == out@ + collapse_pairs(
                v@.subrange(i as int, hi as int),
                c,
            ),
        decreases hi - i,
    {
        let ghost rest = v@.subrange(i as int, hi as int);
        if i + 1 < hi && v[i] == c && v[i + 1] == c {
            assert(rest.skip(2) =~= v@.subrange(i + 2, hi as int));
            out.push(c);
            i = i + 2;
        } else {
            assert(rest.drop_first() =~= v@.subrange(i + 1, hi as int));
            out.push(v[i]);
            i = i + 1;
        }
        assert(collapse_pairs(v@.subrange(lo as int, hi as int), c) == out@ + collapse_pairs(
            v@.subrange(i as int, hi as int),
            c,
        ));
    }
    assert(v@.subrange(i as int, hi as int) =~= seq![]);
    assert(out@ + seq![] =~= out@);
    out
}

/// The value of the field `v[lo..hi]`: trimmed, unquoted and unescaped.
fn normalize_value(v: &Vec<char>, lo: usize, hi: usize) -> (r: Result<String, ParseError>)
    requires
        lo <= hi <= v@.len(),
    ensures
        view_result(r) == unquote(v@.subrange(lo as int, hi as int)),
{
    let (b, e) = trim_range(v, lo, hi);
    let ghost t = v@.subrange(b as int, e as int);
    let (from, to) = if e - b >= 2 && v[b] == '"' && v[e - 1] == '"' {
        assert(t.subrange(1, t.len() - 1) =~= v@.subrange(b + 1, e - 1));
        (b + 1, e - 1)
    } else if e > b && (v[b] == '"' || v[e - 1] == '"') {
        return Err(ParseError::UnterminatedString);
    } else {
        (b, e)
    };
    let once = collapse(v, from, to, '"');
    let twice = collapse(&once, 0, once.len(), '\\');
    assert(once@.subrange(0, once@.len() as int) =~= once@);
    assert(twice@.subrange(0, twice@.len() as int) =~= twice@);
    let r = string_of(&twice, 0, twice.len());
    assert(r@ == unescape(v@.subrange(from as int, to as int)));
    Ok(r)
}


/// The entry that the logical line `line` holds.
fn entry_from_chars(line: &Vec<char>) -> (r: Result<Entry, ParseError>)
    ensures
        view_result(r) == entry_of(line@),
{
    let len = line.len();
    let k = find_delimiter(line, 0, true);
    let mut key: Option<String> = None;
    let mut start: usize = 0;
    if k < len && line[k] == '=' {
        let (b, e) = trim_range(line, 0, k);
        assert(line@.take(k as int) =~= line@.subrange(0, k as int));
        key = Some(string_of(line, b, e));
        start = k + 1;
    }
    let ghost all = fields_from(line@, start as int);
    let ghost mut fields: Seq<Seq<char>> = seq![];
    let mut values: Vec<String> = Vec::new();
    let mut i = start;
    loop
        invariant_except_break
            all == fields + fields_from(line@, i as int),
        invariant
            start <= i <= len == line@.len(),
            all == fields_from(line@, start as int),
            key_end(line@) matches Some(kk) ==> start == kk + 1 && key is Some && key->0@ == trim(
                line@.take(kk),
            ),
            key_end(line@) is None ==> start == 0 && key is None,
            strings_view(values@) == fields.map_values(|f: Seq<char>| unquote(f)->Ok_0),
            forall|m: int| 0 <= m < fields.len() ==> (#[trigger] unquote(fields[m])) is Ok,
        ensures
            all == fields,
        decreases len - i,
    {
        let d = find_delimiter(line, i, false);
        proof {
            lemma_next_delimiter_bounds(line@, i as int, false, false);
        }
        let ghost field = line@.subrange(i as int, d as int);
        assert(fields_from(line@, i as int)[0] == field) by {
            if d < len {
            } else {
                assert(line@.subrange(i as int, line@.len() as int) == field);
            }
        }
        assert(all[fields.len() as int] == field);
        let value = match normalize_value(line, i, d) {
            Ok(value) => value,
            Err(e) => {
                assert(unquote(all[fields.len() as int]) is Err);
                assert(unquote_all(all) is Err);
                assert(e == ParseError::UnterminatedString);
                return Err(e);
            },
        };
        proof {
            assert(strings_view(values@.push(value)) =~= strings_view(values@).push(value@));
            assert(fields.push(field).map_values(|f: Seq<char>| unquote(f)->Ok_0) =~= fields.map_values(
                |f: Seq<char>| unquote(f)->Ok_0,
            ).push(unquote(field)->Ok_0));
        }
        values.push(value);
        proof {
            fields = fields.push(field);
        }
        if d >= len {
            assert(all =~= fields);
            break;
        }
        assert(all =~= fields + fields_from(line@, d + 1));
        i = d + 1;
    }
    let value = if values.len() == 1 {
        Value::Raw(values.remove(0))
    } else {
        Value::List(values)
    };
    match key {
        Some(key) => Ok(Entry::Item(key, value)),
        None => Ok(Entry::ValueOnly(value)),
    }
}

/// The entry that one logical line holds: `key = value` or a bare value, where the value is
/// `Raw` for one field and a `List` for two or more.
pub fn parse_section_entry(line: &str) -> (r: Result<Entry, ParseError>)
    ensures
        view_result(r) == entry_of(line@),
{
    let chars = chars_of(line);
    entry_from_chars(&chars)
}


proof fn lemma_prefixed_push(a: Seq<char>, c: char, r: Result<(Seq<char>, int), ParseError>)
    ensures
        prefixed(a, prefixed(seq![c], r)) == prefixed(a.push(c), r),
{
    if let Ok((t, j)) = r {
        assert(a + (seq![c] + t) =~= a.push(c) + t);
    }
}

/// Whether `v[0..hi]` ends in a continuation backslash.
fn ends_in_continuation(v: &Vec<char>, hi: usize) -> (r: bool)
    requires
        hi <= v@.len(),
    ensures
        r == continues(v@.subrange(0, hi as int)),
{
    let mut k = hi;
    let mut count: usize = 0;
    while k > 0 && v[k - 1] == '\\'
        invariant
            k <= hi <= v@.len(),
            count + k == hi,
            trailing_backslashes(v@.subrange(0, hi as int)) == count + trailing_backslashes(
                v@.subrange(0, k as int),
            ),
        decreases k,
    {
        assert(v@.subrange(0, k as int).drop_last() =~= v@.subrange(0, k - 1));
        k = k - 1;
        count = count + 1;
    }
    count % 2 == 1
}

/// Adds the section `name` with `entries` to `sections`: to the section of that name, or as
/// a new one at the end.
fn merge_section(sections: &mut Vec<Section>, name: String, entries: Vec<Entry>)
    requires
        names_unique(sections_view(old(sections)@)),
    ensures
        sections_view(final(sections)@) == merge(
            sections_view(old(sections)@),
            name@,
            entries_view(entries@),
        ),
        names_unique(sections_view(final(sections)@)),
{
    let ghost doc = sections_view(sections@);
    let mut k: usize = 0;
    while k < sections.len()
        invariant
            sections@ == old(sections)@,
            doc == sections_view(sections@),
            names_unique(doc),
            k <= sections@.len(),
            forall|m: int| 0 <= m < k ==> doc[m].name != name@,
        decreases sections@.len() - k,
    {
        if sections[k].has_name(&name) {
            assert(doc[k as int].name == name@);
            let ghost chosen = choose|c: int| 0 <= c < doc.len() && #[trigger] doc[c].name == name@;
            assert(chosen == k) by {
                if chosen < k {
                    assert(doc[chosen].name != doc[k as int].name);
                } else if chosen > k {
                    assert(doc[k as int].name != doc[chosen].name);
                }
            }
            sections[k].append(entries);
            assert(sections_view(sections@) =~= merge(doc, name@, entries_view(entries@)));
            assert(forall|m: int|
                0 <= m < doc.len() ==> #[trigger] sections_view(sections@)[m].name == doc[m].name);
            return;
        }
        k = k + 1;
    }
    assert(!has_section(doc, name@));
    sections.push(Section::new(name, entries));
    assert(sections_view(sections@) =~= merge(doc, name@, entries_view(entries@)));
}

/// A `List` holds two fields or more.
pub open spec fn value_wf(v: ValueModel) -> bool {
    v matches ValueModel::List(fields) ==> fields.len() >= 2
}

/// The entry's value is well formed.
pub open spec fn entry_wf(e: EntryModel) -> bool {
    match e {
        EntryModel::Item(_, v) => value_wf(v),
        EntryModel::ValueOnly(v) => value_wf(v),
    }
}

/// Every entry is well formed.
pub open spec fn entries_wf(es: Seq<EntryModel>) -> bool {
    forall|m: int| 0 <= m < es.len() ==> entry_wf(#[trigger] es[m])
}

/// What holds of every parsed document: names are unique, each between 1 and 255
/// characters long, and every `List` holds two fields or more.
pub open spec fn document_wf(doc: Seq<SectionModel>) -> bool {
    &&& names_unique(doc)
    &&& forall|k: int|
        0 <= k < doc.len() ==> 0 < (#[trigger] doc[k]).name.len() <= 255 && entries_wf(
            doc[k].entries,
        )
}

proof fn lemma_fields_nonempty(t: Seq<char>, i: int)
    ensures
        fields_from(t, i).len() >= 1,
{
    reveal_with_fuel(fields_from, 1);
}

/// An entry that parses has a well-formed value: a single field is `Raw`, never a
/// one-field `List`.
pub proof fn lemma_entry_wf(line: Seq<char>)
    ensures
        entry_of(line) matches Ok(e) ==> entry_wf(e),
{
    match key_end(line) {
        Some(k) => lemma_fields_nonempty(line, k + 1),
        None => lemma_fields_nonempty(line, 0),
    }
}

proof fn lemma_body_wf(s: Seq<char>, i: int, acc: Seq<EntryModel>)
    requires
        entries_wf(acc),
    ensures
        body(s, i, acc) matches Ok((es, k)) ==> entries_wf(es),
    decreases s.len() - i,
{
    if !(i < 0 || i >= s.len() || s[i] == '[') {
        lemma_logical_line_bounds(s, i, seq![]);
        if let Ok((line, j)) = logical_line(s, i, seq![]) {
            if line.len() == 0 {
                lemma_body_wf(s, j, acc);
            } else if let Ok(entry) = entry_of(line) {
                lemma_entry_wf(line);
                assert(entries_wf(acc.push(entry))) by {
                    assert forall|m: int| 0 <= m < acc.len() + 1 implies entry_wf(
                        #[trigger] acc.push(entry)[m],
                    ) by {
                        if m < acc.len() {
                            assert(acc.push(entry)[m] == acc[m]);
                        }
                    }
                }
                lemma_body_wf(s, j, acc.push(entry));
            }
        }
    }
}

proof fn lemma_header_name(s: Seq<char>, i: int)
    requires
        0 <= i <= s.len(),
    ensures
        header(s, i) matches Ok((name, j)) ==> 0 < name.len() <= 255,
{
    lemma_name_end_bounds(s, i);
}

proof fn lemma_merge_wf(doc: Seq<SectionModel>, name: Seq<char>, entries: Seq<EntryModel>)
    requires
        document_wf(doc),
        0 < name.len() <= 255,
        entries_wf(entries),
    ensures
        document_wf(merge(doc, name, entries)),
{
    let next = merge(doc, name, entries);
    if has_section(doc, name) {
        let k = choose|k: int| 0 <= k < doc.len() && #[trigger] doc[k].name == name;
        assert(entries_wf(doc[k].entries + entries)) by {
            let all = doc[k].entries + entries;
            assert forall|m: int| 0 <= m < all.len() implies entry_wf(#[trigger] all[m]) by {
                if m < doc[k].entries.len() {
                    assert(entry_wf(doc[k].entries[m]));
                } else {
                    assert(entry_wf(entries[m - doc[k].entries.len()]));
                }
            }
        }
        assert(forall|m: int| 0 <= m < doc.len() ==> #[trigger] next[m].name == doc[m].name);
    } else {
        assert(forall|m: int| 0 <= m < doc.len() ==> #[trigger] next[m] == doc[m]);
        assert forall|a: int, b: int| 0 <= a < b < next.len() implies #[trigger] next[a].name
            != #[trigger] next[b].name by {
            if b == doc.len() {
                assert(doc[a].name != name);
            }
        }
    }
}

proof fn lemma_sections_from_wf(s: Seq<char>, i: int, doc: Seq<SectionModel>)
    requires
        document_wf(doc),
    ensures
        sections_from(s, i, doc) matches Ok(d) ==> document_wf(d),
    decreases s.len() - i,
{
    if !(i < 0 || i >= s.len()) {
        if s[i] == ';' {
            lemma_line_end_bounds(s, i + 1);
            lemma_sections_from_wf(s, line_end(s, i + 1), doc);
        } else if s[i] == '[' {
            lemma_section_at_bounds(s, i + 1, doc);
            if let Ok((name, j)) = header(s, i + 1) {
                lemma_header_name(s, i + 1);
                lemma_body_wf(s, j, seq![]);
                if let Ok((entries, k)) = body(s, j, seq![]) {
                    lemma_merge_wf(doc, name, entries);
                    lemma_sections_from_wf(s, k, merge(doc, name, entries));
                }
            }
        } else if is_space(s[i]) {
            lemma_sections_from_wf(s, i + 1, doc);
        }
    }
}

/// Every document that parses is well formed: its section names are unique and between 1
/// and 255 characters long, and every `List` value holds at least two fields, so that a
/// single field is always `Raw`.
pub proof fn lemma_parsed_document_wf(s: Seq<char>)
    ensures
        parse_text(s) matches Ok(doc) ==> document_wf(doc),
{
    lemma_sections_from_wf(s, 0, seq![]);
}

/// An ongoing parse of one text.
pub struct Parser {
    chars: Vec<char>,
    pos: usize,
}

impl Parser {
    /// The text being read.
    pub closed spec fn input(&self) -> Seq<char> {
        self.chars@
    }

    /// How far the text has been read.
    pub closed spec fn position(&self) -> int {
        self.pos as int
    }

    /// The position lies within the text.
    pub closed spec fn wf(&self) -> bool {
        self.pos <= self.chars@.len()
    }

    /// A parse of `text` from its start.
    pub fn new(text: &str) -> (r: Parser)
        ensures
            r.wf(),
            r.input() == text@,
            r.position() == 0,
    {
        Parser { chars: chars_of(text), pos: 0 }
    }

    /// Moves past the rest of a comment, its line terminator included.
    fn skip_comment(&mut self)
        requires
            old(self).wf(),
        ensures
            final(self).wf(),
            final(self).chars@ == old(self).chars@,
            final(self).pos == line_end(old(self).chars@, old(self).pos as int),
    {
        let mut i = self.pos;
        while i < self.chars.len()
            invariant_except_break
                line_end(self.chars@, old(self).pos as int) == line_end(self.chars@, i as int),
            invariant
                self.chars@ == old(self).chars@,
                i <= self.chars@.len(),
            ensures
                line_end(self.chars@, old(self).pos as int) == i,
            decreases self.chars@.len() - i,
        {
            let c = self.chars[i];
            i = i + 1;
            if c == '\n' {
                break;
            }
        }
        self.pos = i;
    }

    /// Reads one physical line, its comment left out.
    fn read_physical_line(&mut self) -> (r: Result<Vec<char>, ParseError>)
        requires
            old(self).wf(),
        ensures
            final(self).wf(),
            final(self).chars@ == old(self).chars@,
            physical_line(old(self).chars@, old(self).pos as int, false) == (match r {
                Ok(p) => Ok((p@, final(self).pos as int)),
                Err(e) => Err(e),
            }),
    {
        let ghost s = self.chars@;
        let ghost p0 = self.pos as int;
        let mut i = self.pos;
        let mut q = false;
        let mut piece: Vec<char> = Vec::new();
        assert(piece@ + seq![] =~= seq![]);
        loop
            invariant
                self.chars@ == s,
                s == old(self).chars@,
                self.pos == p0,
                p0 == old(self).pos,
                i <= s.len(),
                physical_line(s, p0, false) == prefixed(piece@, physical_line(s, i as int, q)),
            decreases s.len() - i,
        {
            if i >= self.chars.len() {
                if q {
                    return Err(ParseError::UnterminatedString);
                }
                assert(piece@ + seq![] =~= piece@);
                self.pos = i;
                return Ok(piece);
            }
            let c = self.chars[i];
            if !q && c == ';' {
                assert(piece@ + seq![] =~= piece@);
                self.pos = i + 1;
                self.skip_comment();
                return Ok(piece);
            } else if !q && c == '\n' {
                assert(piece@ + seq![] =~= piece@);
                self.pos = i + 1;
                return Ok(piece);
            }
            proof {
                lemma_prefixed_push(piece@, c, physical_line(s, i + 1, if c == '"' { !q } else { q }));
            }
            if c == '"' {
                q = !q;
            }
            piece.push(c);
            i = i + 1;
        }
    }

    /// Reads one logical line: physical lines joined at continuation backslashes, comments
    /// and trailing whitespace left out. `None` for a line that holds nothing.
    fn read_next_entry(&mut self) -> (r: Result<Option<Vec<char>>, ParseError>)
        requires
            old(self).wf(),
        ensures
            final(self).wf(),
            final(self).chars@ == old(self).chars@,
            logical_line(old(self).chars@, old(self).pos as int, seq![]) == (match r {
                Ok(Some(line)) => Ok((line@, final(self).pos as int)),
                Ok(None) => Ok((seq![], final(self).pos as int)),
                Err(e) => Err(e),
            }),
            r matches Ok(Some(line)) ==> line@.len() > 0,
    {
        let ghost s = self.chars@;
        let ghost p0 = self.pos as int;
        let mut line: Vec<char> = Vec::new();
        loop
            invariant_except_break
                logical_line(s, p0, seq![]) == logical_line(s, self.pos as int, line@),
            invariant
                self.wf(),
                self.chars@ == s,
                s == old(self).chars@,
                p0 == old(self).pos,
            ensures
                logical_line(s, p0, seq![]) == Ok::<(Seq<char>, int), ParseError>(
                    (line@, self.pos as int),
                ),
            decreases s.len() - self.pos,
        {
            let ghost i = self.pos as int;
            let ghost before = line@;
            let piece = self.read_physical_line()?;
            proof {
                lemma_physical_line_bounds(s, i, false);
            }
            let e = trim_end_range(&piece, 0, piece.len());
            assert(piece@.subrange(0, piece@.len() as int) =~= piece@);
            if ends_in_continuation(&piece, e) {
                let ghost t = piece@.subrange(0, e as int);
                assert(t.drop_last() =~= piece@.subrange(0, e - 1));
                let e2 = trim_end_range(&piece, 0, e - 1);
                extend_range(&mut line, &piece, 0, e2);
                if self.pos >= self.chars.len() {
                    break;
                }
                assert(piece@.len() > 0) by {
                    reveal_with_fuel(trim_end, 1);
                }
            } else {
                extend_range(&mut line, &piece, 0, e);
                break;
            }
        }
        if line.len() == 0 {
            assert(line@ =~= seq![]);
            Ok(None)
        } else {
            Ok(Some(line))
        }
    }

    /// Reads a section, `self` standing just after its `[`, into `sections`.
    fn parse_section(&mut self, sections: &mut Vec<Section>) -> (r: Result<(), ParseError>)
        requires
            old(self).wf(),
            names_unique(sections_view(old(sections)@)),
        ensures
            final(self).wf(),
            final(self).chars@ == old(self).chars@,
            section_at(old(self).chars@, old(self).pos as int, sections_view(old(sections)@)) == (
            match r {
                Ok(()) => Ok((sections_view(final(sections)@), final(self).pos as int)),
                Err(e) => Err(e),
            }),
            names_unique(sections_view(final(sections)@)),
    {
        let ghost s = self.chars@;
        let name = self.parse_section_name()?;
        let ghost j0 = self.pos as int;
        let mut entries: Vec<Entry> = Vec::new();
        assert(entries_view(entries@) =~= seq![]);
        while self.pos < self.chars.len() && self.chars[self.pos] != '['
            invariant
                self.wf(),
                self.chars@ == s,
                s == old(self).chars@,
                sections@ == old(sections)@,
                names_unique(sections_view(sections@)),
                header(s, old(self).pos as int) == Ok::<(Seq<char>, int), ParseError>((name@, j0)),
                body(s, j0, seq![]) == body(s, self.pos as int, entries_view(entries@)),
            decreases s.len() - self.pos,
        {
            let ghost i = self.pos as int;
            let ghost acc = entries_view(entries@);
            proof {
                lemma_logical_line_bounds(s, i, seq![]);
            }
            match self.read_next_entry()? {
                Some(line) => {
                    let entry = entry_from_chars(&line)?;
                    entries.push(entry);
                    assert(entries_view(entries@) =~= acc.push(entry@));
                },
                None => {},
            }
        }
        merge_section(sections, name, entries);
        Ok(())
    }

    /// Reads the rest of the text into its sections.
    pub fn into_sections(self) -> (r: Result<Vec<Section>, ParseError>)
        requires
            self.wf(),
        ensures
            sections_from(self.input(), self.position(), seq![]) == (match r {
                Ok(v) => Ok(sections_view(v@)),
                Err(e) => Err(e),
            }),
            r matches Ok(v) ==> document_wf(sections_view(v@)),
    {
        proof {
            lemma_sections_from_wf(self.chars@, self.pos as int, seq![]);
        }
        let mut parser = self;
        let ghost s = parser.chars@;
        let ghost p0 = parser.pos as int;
        let mut sections: Vec<Section> = Vec::new();
        assert(sections_view(sections@) =~= seq![]);
        while parser.pos < parser.chars.len()
            invariant
                parser.wf(),
                parser.chars@ == s,
                s == self.chars@,
                p0 == self.pos,
                names_unique(sections_view(sections@)),
                sections_from(s, p0, seq![]) == sections_from(
                    s,
                    parser.pos as int,
                    sections_view(sections@),
                ),
            decreases s.len() - parser.pos,
        {
            let ghost i = parser.pos as int;
            let c = parser.chars[parser.pos];
            parser.pos = parser.pos + 1;
            if c == ';' {
                proof {
                    lemma_line_end_bounds(s, i + 1);
                }
                parser.skip_comment();
            } else if c == '[' {
                proof {
                    lemma_section_at_bounds(s, i + 1, sections_view(sections@));
                }
                parser.parse_section(&mut sections)?;
            } else if !space(c) {
                return Err(ParseError::UnexpectedCharacter { c });
            }
        }
        Ok(sections)
    }

    /// Reads a header's name, `self` standing just after its `[`, and the rest of its line.
    fn parse_section_name(&mut self) -> (r: Result<String, ParseError>)
        requires
            old(self).wf(),
        ensures
            final(self).wf(),
            final(self).chars@ == old(self).chars@,
            header(old(self).chars@, old(self).pos as int) == (match r {
                Ok(name) => Ok((name@, final(self).pos as int)),
                Err(e) => Err(e),
            }),
    {
        let ghost s = self.chars@;
        let i0 = self.pos;
        let len = self.chars.len();
        let mut k = i0;
        while k < len && self.chars[k] != ']' && self.chars[k] != '\n'
            invariant
                self.chars@ == s,
                s == old(self).chars@,
                self.pos == i0,
                i0 == old(self).pos,
                len == s.len(),
                i0 <= k <= len,
                name_end(s, i0 as int) == name_end(s, k as int),
            decreases len - k,
        {
            k = k + 1;
        }
        if k >= len {
            return Err(ParseError::UnexpectedCharacter { c: '[' });
        }
        if self.chars[k] == '\n' {
            return Err(ParseError::UnexpectedCharacter { c: '\n' });
        }
        if k == i0 {
            return Err(ParseError::SectionNameEmpty);
        }
        if k - i0 > 255 {
            return Err(ParseError::SectionNameTooLong);
        }
        let name = string_of(&self.chars, i0, k);
        let mut j = k + 1;
        loop
            invariant
                self.chars@ == s,
                s == old(self).chars@,
                self.pos == i0,
                i0 == old(self).pos,
                len == s.len(),
                k < j <= len,
                name_end(s, i0 as int) == k,
                s[k as int] == ']',
                i0 < k,
                k - i0 <= 255,
                name@ == s.subrange(i0 as int, k as int),
                header_tail(s, k + 1) == header_tail(s, j as int),
            decreases len - j,
        {
            if j >= len {
                self.pos = len;
                return Ok(name);
            }
            let c = self.chars[j];
            if c == ';' {
                self.pos = j + 1;
                self.skip_comment();
                return Ok(name);
            }
            if c == '\n' {
                self.pos = j + 1;
                return Ok(name);
            }
            if !space(c) {
                return Err(ParseError::UnexpectedCharacter { c });
            }
            j = j + 1;
        }
    }
}

} // verus!
