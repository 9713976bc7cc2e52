use vstd::prelude::*;

use crate::error::Result;
use crate::laws::{lemma_records_uniform, uniform};
use crate::parser::{parse_text, result_is, Options, Parser, Quotes};

verus! {

/// A table of delimiter-separated values.
///
/// A `Dsv` is made up of records, and a record is made up of fields. Fields are
/// stored as text and must be parsed into native data types separately.
#[derive(Default, PartialEq, Debug)]
pub struct Dsv {
    /// The records, in the order of the text.
    pub records: Vec<Vec<String>>,
}

impl View for Dsv {
    type V = Seq<Seq<Seq<char>>>;

    open spec fn view(&self) -> Seq<Seq<Seq<char>>> {
        self.records.deep_view()
    }
}

impl Dsv {
    /// Creates an empty table.
    pub fn new() -> (r: Dsv)
        ensures
            r@ == Seq::<Seq<Seq<char>>>::empty(),
    {
        let r = Dsv { records: Vec::new() };
        assert(r@ =~= Seq::<Seq<Seq<char>>>::empty());
        r
    }

    /// Parses a table from `text` with a comma delimiter and significant quotes.
    pub fn from_str(text: &str) -> (r: Result<Dsv>)
        ensures
            result_is(r, parse_text(text@, 44, Quotes::Significant)),
            r matches Ok(t) ==> uniform(t@),
    {
        proof {
            lemma_records_uniform(text@, 44, Quotes::Significant);
        }
        Parser::from_str(text)
    }

    /// Parses a table from `text` with the given options.
    pub fn from_str_with_options(text: &str, options: Options) -> (r: Result<Dsv>)
        ensures
            result_is(r, parse_text(text@, options.delimiter, options.quotes)),
            r matches Ok(t) ==> uniform(t@),
    {
        proof {
            lemma_records_uniform(text@, options.delimiter, options.quotes);
        }
        Parser::from_str_with_options(text, options)
    }
}

impl core::ops::Index<usize> for Dsv {
    type Output = Vec<String>;

    /// Returns the record at `index`, which must be in range.
    fn index(&self, index: usize) -> (r: &Vec<String>)
        ensures
            *r == self.records@[index as int],
    {
        &self.records[index]
    }
}

impl vstd::std_specs::core::IndexSpecImpl<usize> for Dsv {
    open spec fn index_req(&self, index: &usize) -> bool {
        *index < self.records.len()
    }
}

impl core::ops::IndexMut<usize> for Dsv {
    /// Returns the record at `index`, which must be in range, for writing.
    fn index_mut(&mut self, index: usize) -> (r: &mut Vec<String>)
        requires
            index < old(self).records.len(),
        ensures
            *r == old(self).records@[index as int],
            final(self).records@ == old(self).records@.update(index as int, *final(r)),
    {
        &mut self.records[index]
    }
}

} // verus!
