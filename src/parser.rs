use vstd::prelude::*;

use crate::dsv::Dsv;
use crate::error::{Error, Result};
use crate::lexer::{tokenize, Lexer, Token, TokenView};

verus! {

/// Treatment of double quotes.
#[derive(Clone, Copy, Debug, PartialEq, Eq, Structural)]
pub enum Quotes {
    /// Quotes have no special meaning and are considered part of the value.
    Insignificant,
    /// Quotes can be used to escape delimiters and newlines and are not
    /// considered part of the value; a doubled quote inside a quoted value
    /// stands for one quote.
    Significant,
}

/// Options for parsing a table.
#[derive(Clone, Copy, Debug)]
pub struct Options {
    /// The delimiter that separates fields. Default: `,`.
    ///
    /// A byte of 128 or more is no character of its own in UTF-8 text, so such a
    /// delimiter never matches. A delimiter equal to `\n` or `"` takes precedence
    /// over their usual meaning.
    pub delimiter: u8,
    /// Treatment of double quotes. Default: `Quotes::Significant`.
    pub quotes: Quotes,
}

impl Default for Options {
    /// A comma delimiter and significant quotes.
    fn default() -> (r: Self)
        ensures
            r.delimiter == 44,
            r.quotes == Quotes::Significant,
    {
        Self { delimiter: 44, quotes: Quotes::Significant }
    }
}

/// A delimiter token contributes an empty field when the token after it is a
/// delimiter, a newline or the end of text, or when it opens the record.
pub open spec fn delimiter_gives_empty(next: Option<TokenView>, record_empty: bool) -> bool {
    match next {
        None => true,
        Some(TokenView::Delimiter) => true,
        Some(TokenView::Newline) => true,
        Some(TokenView::Value(_)) => record_empty,
    }
}

/// The token after the first one of `ts`, if any.
pub open spec fn lookahead(ts: Seq<TokenView>) -> Option<TokenView> {
    if ts.len() >= 2 {
        Some(ts[1])
    } else {
        None
    }
}

/// Reads the rest of one record from `ts`, where `fields` are its fields so
/// far. Returns the record and the tokens after it, or `None` where two values
/// stand next to each other.
pub open spec fn parse_record(ts: Seq<TokenView>, fields: Seq<Seq<char>>) -> Option<
    (Seq<Seq<char>>, Seq<TokenView>),
>
    decreases ts.len(),
{
    if ts.len() == 0 {
        Some((fields, ts))
    } else {
        match ts[0] {
            TokenView::Newline => Some((fields, ts.drop_first())),
            TokenView::Value(v) => match lookahead(ts) {
                Some(TokenView::Value(_)) => None,
                _ => parse_record(ts.drop_first(), fields.push(v)),
            },
            TokenView::Delimiter => if delimiter_gives_empty(lookahead(ts), fields.len() == 0) {
                parse_record(ts.drop_first(), fields.push(seq![]))
            } else {
                parse_record(ts.drop_first(), fields)
            },
        }
    }
}

/// A record takes at least one token where one is left.
pub proof fn lemma_parse_record_advances(ts: Seq<TokenView>, fields: Seq<Seq<char>>)
    ensures
        parse_record(ts, fields) matches Some((r, rest)) ==> rest.len() <= ts.len() && (ts.len()
            > 0 ==> rest.len() < ts.len()),
    decreases ts.len(),
{
    if ts.len() > 0 {
        lemma_parse_record_advances(ts.drop_first(), fields);
        lemma_parse_record_advances(ts.drop_first(), fields.push(seq![]));
        if let TokenView::Value(v) = ts[0] {
            lemma_parse_record_advances(ts.drop_first(), fields.push(v));
        }
    }
}

/// Reads the records of `ts` after the records `rows`. Fails where a record's
/// field count differs from that of the first record, or where a record fails.
pub open spec fn parse_rows(ts: Seq<TokenView>, rows: Seq<Seq<Seq<char>>>) -> Option<
    Seq<Seq<Seq<char>>>,
>
    decreases ts.len(),
    via parse_rows_decreases
{
    if ts.len() == 0 {
        Some(rows)
    } else {
        match parse_record(ts, seq![]) {
            None => None,
            Some((r, rest)) => if rows.len() > 0 && r.len() != rows[0].len() {
                None
            } else {
                parse_rows(rest, rows.push(r))
            },
        }
    }
}

#[via_fn]
proof fn parse_rows_decreases(ts: Seq<TokenView>, rows: Seq<Seq<Seq<char>>>) {
    lemma_parse_record_advances(ts, seq![]);
}

/// The table that the tokens `ts` make, or `None` where they make none.
pub open spec fn parse_tokens(ts: Seq<TokenView>) -> Option<Seq<Seq<Seq<char>>>> {
    parse_rows(ts, seq![])
}

/// The table that the text `s` makes with delimiter `d` and quote mode `q`, or
/// `None` where it is malformed.
pub open spec fn parse_text(s: Seq<char>, d: u8, q: Quotes) -> Option<Seq<Seq<Seq<char>>>> {
    parse_tokens(tokenize(s, d, q))
}

/// `r` is the table `t`, or the parse error where `t` is `None`.
pub open spec fn result_is(r: Result<Dsv>, t: Option<Seq<Seq<Seq<char>>>>) -> bool {
    match r {
        Ok(d) => t == Some(d@),
        Err(e) => t is None && e == Error::Parse,
    }
}

/// A parser that builds a table from the tokens of a lexer.
pub struct Parser {
    lexer: Lexer,
}

impl Parser {
    /// Parses `text` with the default options: comma delimiter, significant quotes.
    pub fn from_str(text: &str) -> (r: Result<Dsv>)
        ensures
            result_is(r, parse_text(text@, 44, Quotes::Significant)),
    {
        Parser::from_str_with_options(text, Options::default())
    }

    /// Parses `text` with the given options.
    pub fn from_str_with_options(text: &str, options: Options) -> (r: Result<Dsv>)
        ensures
            result_is(r, parse_text(text@, options.delimiter, options.quotes)),
    {
        let lexer = Lexer::new(text, options.delimiter, options.quotes);
        let mut parser = Self { lexer };
        parser.dsv()
    }

    /// Reads records while tokens are left, each with the field count of the first.
    fn dsv(&mut self) -> (r: Result<Dsv>)
        requires
            old(self).lexer.wf(),
        ensures
            result_is(r, parse_tokens(old(self).lexer.tokens())),
    {
        let ghost ts = self.lexer.tokens();
        let mut dsv = Dsv::new();
        let mut num_expected_fields: Option<usize> = None;
        loop
            invariant
                ts == old(self).lexer.tokens(),
                self.lexer.wf(),
                parse_tokens(ts) == parse_rows(self.lexer.tokens(), dsv@),
                num_expected_fields == if dsv.records.len() == 0 {
                    None::<usize>
                } else {
                    Some(dsv.records@[0].len())
                },
            decreases self.lexer.tokens().len(),
        {
            match self.lexer.peek() {
                Ok(None) => {
                    return Ok(dsv);
                },
                Ok(Some(_)) => {},
                Err(e) => {
                    return Err(e);
                },
            }
            let ghost here = self.lexer.tokens();
            proof {
                lemma_parse_record_advances(here, seq![]);
            }
            let record = match self.record() {
                Ok(record) => record,
                Err(e) => {
                    return Err(e);
                },
            };
            match num_expected_fields {
                None => num_expected_fields = Some(record.len()),
                Some(len) => {
                    if record.len() != len {
                        return Err(Error::Parse);
                    }
                },
            }
            assert(dsv@.len() > 0 ==> dsv@[0].len() == dsv.records@[0].len());
            assert(parse_rows(here, dsv@) == parse_rows(
                self.lexer.tokens(),
                dsv@.push(record.deep_view()),
            ));
            let ghost before = dsv@;
            dsv.records.push(record);
            assert(dsv@ =~= before.push(record.deep_view()));
        }
    }

    /// Reads one record, up to and including its newline or up to the end of text.
    fn record(&mut self) -> (r: Result<Vec<String>>)
        requires
            old(self).lexer.wf(),
        ensures
            final(self).lexer.wf(),
            final(self).lexer.delimiter() == old(self).lexer.delimiter(),
            final(self).lexer.quotes() == old(self).lexer.quotes(),
            match parse_record(old(self).lexer.tokens(), seq![]) {
                None => r == Err::<Vec<String>, Error>(Error::Parse),
                Some((fields, rest)) => match r {
                    Ok(v) => v.deep_view() == fields && final(self).lexer.tokens() == rest,
                    Err(_) => false,
                },
            },
    {
        let ghost ts = self.lexer.tokens();
        let ghost d = self.lexer.delimiter();
        let ghost q = self.lexer.quotes();
        let mut record: Vec<String> = Vec::new();
        assert(record.deep_view() =~= seq![]);
        loop
            invariant
                ts == old(self).lexer.tokens(),
                d == old(self).lexer.delimiter(),
                q == old(self).lexer.quotes(),
                self.lexer.wf(),
                self.lexer.delimiter() == d,
                self.lexer.quotes() == q,
                parse_record(ts, seq![]) == parse_record(self.lexer.tokens(), record.deep_view()),
            decreases self.lexer.tokens().len(),
        {
            let ghost here = self.lexer.tokens();
            let token = match self.lexer.next() {
                Ok(Some(token)) => token,
                Ok(None) => {
                    return Ok(record);
                },
                Err(e) => {
                    return Err(e);
                },
            };
            let peeked = match self.lexer.peek() {
                Ok(peeked) => peeked,
                Err(e) => {
                    return Err(e);
                },
            };
            assert(lookahead(here) == if self.lexer.tokens().len() == 0 {
                None
            } else {
                Some(self.lexer.tokens()[0])
            });
            let ghost before = record.deep_view();
            match (token, peeked) {
                (Token::Newline, _) => {
                    return Ok(record);
                },
                // two values with no delimiter between them
                (Token::Value(_), Some(Token::Value(_))) => {
                    return Err(Error::Parse);
                },
                (Token::Value(value), _) => {
                    record.push(value);
                },
                // an empty value between two delimiters
                (Token::Delimiter, Some(Token::Delimiter)) => {
                    record.push(String::new());
                },
                // an empty value before a newline or the end of text
                (Token::Delimiter, Some(Token::Newline)) | (Token::Delimiter, None) => {
                    record.push(String::new());
                },
                // an empty value at the start of the record
                (Token::Delimiter, _) if record.len() == 0 => {
                    record.push(String::new());
                },
                _ => {},
            }
            assert(record.deep_view() =~= before || record.deep_view() =~= before.push(
                record@.last()@,
            ));
        }
    }
}

} // verus!
