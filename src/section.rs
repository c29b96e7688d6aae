//! The document model: sections of entries, each holding a value.
use vstd::prelude::*;

verus! {

/// What an entry holds: one field, or two or more comma-separated fields.
#[derive(Debug, Clone, PartialEq, Eq)]
pub enum Value {
    Raw(String),
    List(Vec<String>),
}

/// One line of a section: `key = value`, or a bare value.
#[derive(Debug, Clone, PartialEq, Eq)]
pub enum Entry {
    Item(String, Value),
    ValueOnly(Value),
}

/// A named, ordered group of entries.
#[derive(Debug, Clone, PartialEq, Eq)]
pub struct Section {
    name: String,
    entries: Vec<Entry>,
}

/// The mathematical form of a `Value`.
pub enum ValueModel {
    Raw(Seq<char>),
    List(Seq<Seq<char>>),
}

/// The mathematical form of an `Entry`.
pub enum EntryModel {
    Item(Seq<char>, ValueModel),
    ValueOnly(ValueModel),
}

/// The mathematical form of a `Section`.
pub struct SectionModel {
    pub name: Seq<char>,
    pub entries: Seq<EntryModel>,
}

/// The character sequences of a list of strings.
pub open spec fn strings_view(v: Seq<String>) -> Seq<Seq<char>> {
    v.map_values(|s: String| s@)
}

/// The models of a list of entries.
pub open spec fn entries_view(v: Seq<Entry>) -> Seq<EntryModel> {
    v.map_values(|e: Entry| e@)
}

/// The models of a list of sections.
pub open spec fn sections_view(v: Seq<Section>) -> Seq<SectionModel> {
    v.map_values(|s: Section| s@)
}

impl View for Value {
    type V = ValueModel;

    open spec fn view(&self) -> ValueModel {
        match self {
            Value::Raw(s) => ValueModel::Raw(s@),
            Value::List(v) => ValueModel::List(strings_view(v@)),
        }
    }
}

impl View for Entry {
    type V = EntryModel;

    open spec fn view(&self) -> EntryModel {
        match self {
            Entry::Item(k, v) => EntryModel::Item(k@, v@),
            Entry::ValueOnly(v) => EntryModel::ValueOnly(v@),
        }
    }
}

impl View for Section {
    type V = SectionModel;

    closed spec fn view(&self) -> SectionModel {
        SectionModel { name: self.name@, entries: entries_view(self.entries@) }
    }
}

impl From<String> for Value {
    fn from(value: String) -> (r: Value) {
        Value::Raw(value)
    }
}

impl vstd::std_specs::convert::FromSpecImpl<String> for Value {
    open spec fn obeys_from_spec() -> bool {
        true
    }

    open spec fn from_spec(v: String) -> Value {
        Value::Raw(v)
    }
}

impl From<Vec<String>> for Value {
    fn from(value: Vec<String>) -> (r: Value) {
        Value::List(value)
    }
}

impl vstd::std_specs::convert::FromSpecImpl<Vec<String>> for Value {
    open spec fn obeys_from_spec() -> bool {
        true
    }

    open spec fn from_spec(v: Vec<String>) -> Value {
        Value::List(v)
    }
}

impl Section {
    /// A section with the given name and entries.
    pub fn new(name: String, entries: Vec<Entry>) -> (r: Section)
        ensures
            r@ == (SectionModel { name: name@, entries: entries_view(entries@) }),
    {
        Section { name, entries }
    }

    /// The section's name.
    pub fn name(&self) -> (r: &str)
        ensures
            r@ == self@.name,
    {
        self.name.as_str()
    }

    /// The section's entries, in order.
    pub fn entries(&self) -> (r: &[Entry])
        ensures
            entries_view(r@) == self@.entries,
    {
        self.entries.as_slice()
    }

    /// Whether the section is named `name`.
    pub fn has_name(&self, name: &String) -> (r: bool)
        ensures
            r == (self@.name == name@),
    {
        self.name == *name
    }

    /// Appends `more` to the entries, in order.
    pub fn append(&mut self, more: Vec<Entry>)
        ensures
            final(self)@ == (SectionModel {
                name: old(self)@.name,
                entries: old(self)@.entries + entries_view(more@),
            }),
    {
        let ghost added = more@;
        let mut more = more;
        self.entries.append(&mut more);
        proof {
            assert(entries_view(self.entries@) =~= entries_view(old(self).entries@) + entries_view(
                added,
            ));
        }
    }

    /// Appends an entry.
    pub fn push(&mut self, value: Entry)
        ensures
            final(self)@ == (SectionModel {
                name: old(self)@.name,
                entries: old(self)@.entries.push(value@),
            }),
    {
        self.entries.push(value);
        proof {
            assert(entries_view(self.entries@) =~= entries_view(old(self).entries@).push(value@));
        }
    }
}

} // verus!
