//! Expansion of `%name%` placeholders against a lookup section.
use vstd::prelude::*;

use crate::section::{entries_view, Entry, EntryModel, Section, Value, ValueModel};
use crate::text::{chars_of, push_range, string_of};

verus! {

/// Why an expansion fails.
#[derive(Debug, Clone, Copy, PartialEq, Eq)]
pub enum ExpandVarsError {
    /// A `%` opens a placeholder that no `%` closes.
    Unterminated,
    /// A placeholder names no key of the lookup section.
    NotFound,
}

/// The sentence that describes an expansion error.
pub open spec fn expand_error_message(e: ExpandVarsError) -> Seq<char> {
    match e {
        ExpandVarsError::Unterminated => "unterminated %strkey% sequence"@,
        ExpandVarsError::NotFound => "string key not found"@,
    }
}

impl ExpandVarsError {
    /// A sentence that says what went wrong.
    pub fn message(&self) -> (r: String)
        ensures
            r@ == expand_error_message(*self),
    {
        match *self {
            ExpandVarsError::Unterminated => "unterminated %strkey% sequence".to_owned(),
            ExpandVarsError::NotFound => "string key not found".to_owned(),
        }
    }
}

/// The lower-case form of a text, as `str::to_lowercase` gives it.
pub uninterp spec fn lower_of(s: Seq<char>) -> Seq<char>;

/// Relies on `str::to_lowercase`: the result depends on the characters alone.
#[verifier::external_body]
fn lowercase(s: &str) -> (r: String)
    ensures
        r@ == lower_of(s@),
{
    s.to_lowercase()
}

/// The replacement table of a lookup section: for each `Item` whose value is `Raw`, in order,
/// its key in lower case and its value.
pub open spec fn table_of(entries: Seq<EntryModel>) -> Seq<(Seq<char>, Seq<char>)>
    decreases entries.len(),
{
    if entries.len() == 0 {
        seq![]
    } else {
        let rest = table_of(entries.drop_last());
        match entries.last() {
            EntryModel::Item(k, ValueModel::Raw(v)) => rest.push((lower_of(k), v)),
            _ => rest,
        }
    }
}

/// The pairs of a table as character sequences.
pub open spec fn table_view(t: Seq<(String, String)>) -> Seq<(Seq<char>, Seq<char>)> {
    t.map_values(|p: (String, String)| (p.0@, p.1@))
}

/// The value of the first pair whose key is `key`.
pub open spec fn find_pair(table: Seq<(Seq<char>, Seq<char>)>, key: Seq<char>) -> Option<Seq<char>>
    decreases table.len(),
{
    if table.len() == 0 {
        None
    } else if table[0].0 == key {
        Some(table[0].1)
    } else {
        find_pair(table.drop_first(), key)
    }
}

/// The position of the first `%` at or after `i`, or `s.len()`.
pub open spec fn next_percent(s: Seq<char>, i: int) -> int
    decreases s.len() - i,
{
    if i >= s.len() {
        s.len() as int
    } else if s[i] == '%' {
        i
    } else {
        next_percent(s, i + 1)
    }
}

/// The expansion of `s` from position `i` on, after the text `acc`: `%%` is `%`, and
/// `%name%` is the value that `table` gives the lower-case `name`.
pub open spec fn expand_from(
    s: Seq<char>,
    i: int,
    table: Seq<(Seq<char>, Seq<char>)>,
    acc: Seq<char>,
) -> Result<Seq<char>, ExpandVarsError>
    decreases s.len() - i,
{
    if i < 0 || i >= s.len() {
        Ok(acc)
    } else if s[i] != '%' {
        expand_from(s, i + 1, table, acc.push(s[i]))
    } else if i + 1 < s.len() && s[i + 1] == '%' {
        expand_from(s, i + 2, table, acc.push('%'))
    } else {
        let k = next_percent(s, i + 1);
        if k >= s.len() {
            Err(ExpandVarsError::Unterminated)
        } else {
            proof {
                lemma_next_percent_bounds(s, i + 1);
            }
            match find_pair(table, lower_of(s.subrange(i + 1, k))) {
                None => Err(ExpandVarsError::NotFound),
                Some(v) => expand_from(s, k + 1, table, acc + v),
            }
        }
    }
}

/// The expansion of `s` against the lookup entries `entries`.
pub open spec fn expansion(s: Seq<char>, entries: Seq<EntryModel>) -> Result<
    Seq<char>,
    ExpandVarsError,
> {
    expand_from(s, 0, table_of(entries), seq![])
}

/// The next `%` lies within the text.
pub proof fn lemma_next_percent_bounds(s: Seq<char>, i: int)
    requires
        0 <= i <= s.len(),
    ensures
        i <= next_percent(s, i) <= s.len(),
    decreases s.len() - i,
{
    if i < s.len() && s[i] != '%' {
        lemma_next_percent_bounds(s, i + 1);
    }
}

/// The replacement table of `strings`.
fn folded_table(strings: &Section) -> (r: Vec<(String, String)>)
    ensures
        table_view(r@) == table_of(strings@.entries),
{
    let entries = strings.entries();
    let ghost es = strings@.entries;
    let mut table: Vec<(String, String)> = Vec::new();
    let mut i: usize = 0;
    assert(table_view(table@) =~= table_of(es.take(0)));
    while i < entries.len()
        invariant
            entries_view(entries@) == es,
            i <= entries@.len(),
            table_view(table@) == table_of(es.take(i as int)),
        decreases entries@.len() - i,
    {
        assert(es.take(i + 1).drop_last() =~= es.take(i as int));
        assert(es[i as int] == entries@[i as int]@);
        match &entries[i] {
            Entry::Item(key, Value::Raw(v)) => {
                let pair = (lowercase(key.as_str()), v.clone());
                table.push(pair);
                assert(table_view(table@) =~= table_of(es.take(i as int)).push((pair.0@, pair.1@)));
            },
            _ => {},
        }
        i = i + 1;
    }
    assert(es.take(entries@.len() as int) =~= es);
    table
}

/// The value of the first pair of `table` whose key is `folded_name`.
pub fn find_replacement(table: &Vec<(String, String)>, folded_name: &String) -> (r: Option<String>)
    ensures
        find_pair(table_view(table@), folded_name@) == (match r {
            Some(v) => Some(v@),
            None => None,
        }),
{
    let ghost t = table_view(table@);
    let mut i: usize = 0;
    assert(t.skip(0) =~= t);
    while i < table.len()
        invariant
            t == table_view(table@),
            i <= table@.len(),
            find_pair(t, folded_name@) == find_pair(t.skip(i as int), folded_name@),
        decreases table@.len() - i,
    {
        assert(t.skip(i as int).drop_first() =~= t.skip(i + 1));
        if table[i].0 == *folded_name {
            return Some(table[i].1.clone());
        }
        i = i + 1;
    }
    None
}

/// `value` with each `%name%` replaced by the value of the first `Item` of `strings` whose key
/// equals `name` but for case and whose value is `Raw`, and each `%%` by `%`.
pub fn expand_vars(value: &str, strings: &Section) -> (r: Result<String, ExpandVarsError>)
    ensures
        expansion(value@, strings@.entries) == (match r {
            Ok(s) => Ok(s@),
            Err(e) => Err(e),
        }),
{
    let chars = chars_of(value);
    let ghost s = chars@;
    let table = folded_table(strings);
    let ghost t = table_view(table@);
    let len = chars.len();
    let mut out = String::new();
    let mut i: usize = 0;
    while i < len
        invariant
            s == chars@,
            s == value@,
            len == s.len(),
            t == table_view(table@),
            t == table_of(strings@.entries),
            i <= len,
            expand_from(s, 0, t, seq![]) == expand_from(s, i as int, t, out@),
        decreases len - i,
    {
        if chars[i] != '%' {
            out.push(chars[i]);
            i = i + 1;
        } else if i + 1 < len && chars[i + 1] == '%' {
            out.push('%');
            i = i + 2;
        } else {
            let mut k = i + 1;
            while k < len && chars[k] != '%'
                invariant
                    s == chars@,
                    len == s.len(),
                    i < k <= len,
                    next_percent(s, i + 1) == next_percent(s, k as int),
                decreases len - k,
            {
                k = k + 1;
            }
            if k >= len {
                return Err(ExpandVarsError::Unterminated);
            }
            let name = string_of(&chars, i + 1, k);
            let folded = lowercase(name.as_str());
            match find_replacement(&table, &folded) {
                None => {
                    return Err(ExpandVarsError::NotFound);
                },
                Some(v) => {
                    let vc = chars_of(v.as_str());
                    push_range(&mut out, &vc, 0, vc.len());
                    assert(vc@.subrange(0, vc@.len() as int) =~= vc@);
                    i = k + 1;
                },
            }
        }
    }
    Ok(out)
}

} // verus!
