//! Reads a sectioned, line-oriented configuration format (INF) into an ordered document, and
//! expands `%name%` placeholders against a lookup section.
use vstd::prelude::*;

pub mod decode;
pub mod error;
pub mod parser;
pub mod section;
pub mod text;
pub mod util;

pub use crate::error::ParseError;
pub use crate::parser::{parse_section_entry, Parser};
pub use crate::section::{Entry, Section, Value};
pub use crate::util::{expand_vars, ExpandVarsError};

use crate::decode::{decode_data, decode_text};
use crate::parser::{document_wf, has_section, lemma_parsed_document_wf, parse_text};
use crate::section::{sections_view, SectionModel};

verus! {

/// A parsed document: its sections in order of first appearance, each name once.
#[derive(Debug)]
pub struct Inf {
    sections: Vec<Section>,
}

impl View for Inf {
    type V = Seq<SectionModel>;

    closed spec fn view(&self) -> Seq<SectionModel> {
        sections_view(self.sections@)
    }
}

impl Inf {
    /// Decodes `buffer` and reads the document it holds.
    pub fn parse(buffer: &[u8]) -> (r: Result<Inf, ParseError>)
        ensures
            parse_text(decode_text(buffer@)) == (match r {
                Ok(inf) => Ok(inf@),
                Err(e) => Err(e),
            }),
            r matches Ok(inf) ==> document_wf(inf@),
    {
        proof {
            lemma_parsed_document_wf(decode_text(buffer@));
        }
        let text = decode_data(buffer);
        let parser = Parser::new(text.as_str());
        match parser.into_sections() {
            Ok(sections) => Ok(Inf { sections }),
            Err(e) => Err(e),
        }
    }

    /// The section named `name`, if there is one.
    pub fn section(&self, name: &str) -> (r: Option<&Section>)
        ensures
            match r {
                Some(s) => s@.name == name@ && exists|k: int|
                    0 <= k < self@.len() && #[trigger] self@[k] == s@,
                None => !has_section(self@, name@),
            },
    {
        let owned = name.to_owned();
        let mut k: usize = 0;
        while k < self.sections.len()
            invariant
                k <= self@.len(),
                self@ == sections_view(self.sections@),
                owned@ == name@,
                forall|m: int| 0 <= m < k ==> #[trigger] self@[m].name != name@,
            decreases self@.len() - k,
        {
            if self.sections[k].has_name(&owned) {
                assert(self@[k as int] == self.sections@[k as int]@);
                return Some(&self.sections[k]);
            }
            k = k + 1;
        }
        None
    }

    /// The sections, in order of first appearance.
    pub fn sections(&self) -> (r: &[Section])
        ensures
            sections_view(r@) == self@,
    {
        self.sections.as_slice()
    }
}

/// Parsing is deterministic: equal buffers give equal documents, or the same error.
pub proof fn lemma_parse_deterministic(a: Seq<u8>, b: Seq<u8>)
    requires
        a == b,
    ensures
        parse_text(decode_text(a)) == parse_text(decode_text(b)),
{
}

} // verus!
