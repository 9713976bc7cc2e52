use vstd::prelude::*;

use crate::error::Result;
use crate::parser::Quotes;

verus! {

/// Relies on `String::push`: the character is appended at the end of the string.
pub assume_specification[ String::push ](s: &mut String, ch: char)
    ensures
        final(s)@ == old(s)@.push(ch),
;

/// A token of delimiter-separated text.
#[derive(Debug, PartialEq)]
pub enum Token {
    Delimiter,
    Value(String),
    Newline,
}

/// The mathematical value of a `Token`.
pub enum TokenView {
    Delimiter,
    Value(Seq<char>),
    Newline,
}

impl View for Token {
    type V = TokenView;

    open spec fn view(&self) -> TokenView {
        match self {
            Token::Delimiter => TokenView::Delimiter,
            Token::Value(s) => TokenView::Value(s@),
            Token::Newline => TokenView::Newline,
        }
    }
}

/// The character `c` is the delimiter byte `d`: only a byte under 128 is a
/// character of its own in UTF-8 text.
pub open spec fn is_delim(c: char, d: u8) -> bool {
    d < 128 && c as u32 == d as u32
}

/// The character `c` ends an unquoted value.
pub open spec fn ends_value(c: char, d: u8) -> bool {
    is_delim(c, d) || c == '\n'
}

/// The length of the unquoted value at the start of `s`: everything up to the
/// next delimiter, newline or end of text.
pub open spec fn value_len(s: Seq<char>, d: u8) -> nat
    decreases s.len(),
{
    if s.len() == 0 || ends_value(s[0], d) {
        0
    } else {
        1 + value_len(s.drop_first(), d)
    }
}

/// The length of the body of a quoted value, where `s` starts just after the
/// opening quote: everything up to the first quote that is not doubled, or to
/// the end of text.
pub open spec fn quoted_len(s: Seq<char>) -> nat
    decreases s.len(),
{
    if s.len() == 0 {
        0
    } else if s[0] == '"' {
        if s.len() >= 2 && s[1] == '"' {
            2 + quoted_len(s.skip(2))
        } else {
            0
        }
    } else {
        1 + quoted_len(s.drop_first())
    }
}

/// `s` with each doubled quote, read left to right, collapsed to one quote.
pub open spec fn unescape(s: Seq<char>) -> Seq<char>
    decreases s.len(),
{
    if s.len() == 0 {
        seq![]
    } else if s.len() >= 2 && s[0] == '"' && s[1] == '"' {
        seq!['"'] + unescape(s.skip(2))
    } else {
        seq![s[0]] + unescape(s.drop_first())
    }
}

/// The token at the start of `s` and how many characters it takes, or `None`
/// at the end of text.
pub open spec fn next_token(s: Seq<char>, d: u8, q: Quotes) -> Option<(TokenView, nat)> {
    if s.len() == 0 {
        None
    } else if is_delim(s[0], d) {
        Some((TokenView::Delimiter, 1))
    } else if s[0] == '\n' {
        Some((TokenView::Newline, 1))
    } else if q == Quotes::Significant && s[0] == '"' {
        let n = quoted_len(s.drop_first());
        let taken = if n + 1 < s.len() { n + 2 } else { s.len() };
        Some((TokenView::Value(unescape(s.subrange(1, n + 1 as int))), taken))
    } else {
        let n = value_len(s, d);
        Some((TokenView::Value(s.take(n as int)), n))
    }
}

/// An unquoted value lies within the text, and takes at least one character
/// where the text starts with one that does not end a value.
pub proof fn lemma_value_len_bound(s: Seq<char>, d: u8)
    ensures
        value_len(s, d) <= s.len(),
        s.len() > 0 && !ends_value(s[0], d) ==> value_len(s, d) >= 1,
    decreases s.len(),
{
    if s.len() > 0 && !ends_value(s[0], d) {
        lemma_value_len_bound(s.drop_first(), d);
    }
}

/// The body of a quoted value lies within the text.
pub proof fn lemma_quoted_len_bound(s: Seq<char>)
    ensures
        quoted_len(s) <= s.len(),
    decreases s.len(),
{
    if s.len() > 0 {
        if s[0] == '"' {
            if s.len() >= 2 && s[1] == '"' {
                lemma_quoted_len_bound(s.skip(2));
            }
        } else {
            lemma_quoted_len_bound(s.drop_first());
        }
    }
}

/// Every token takes at least one character and no more than there are.
pub proof fn lemma_next_token_advances(s: Seq<char>, d: u8, q: Quotes)
    ensures
        next_token(s, d, q) matches Some((t, n)) ==> 1 <= n <= s.len(),
        next_token(s, d, q) is None <==> s.len() == 0,
{
    lemma_value_len_bound(s, d);
    if s.len() > 0 {
        lemma_quoted_len_bound(s.drop_first());
    }
}

/// The sequence of tokens of the text `s`.
pub open spec fn tokenize(s: Seq<char>, d: u8, q: Quotes) -> Seq<TokenView>
    decreases s.len(),
    via tokenize_decreases
{
    match next_token(s, d, q) {
        None => seq![],
        Some((t, n)) => seq![t] + tokenize(s.skip(n as int), d, q),
    }
}

#[via_fn]
proof fn tokenize_decreases(s: Seq<char>, d: u8, q: Quotes) {
    lemma_next_token_advances(s, d, q);
}

/// The view of an optional token.
pub open spec fn opt_view(t: Option<Token>) -> Option<TokenView> {
    match t {
        None => None,
        Some(t) => Some(t@),
    }
}

/// `r` succeeds with a token whose view is `t`, or with `None` where `t` is `None`.
pub open spec fn yields(r: Result<Option<Token>>, t: Option<TokenView>) -> bool {
    match r {
        Ok(o) => opt_view(o) == t,
        Err(_) => false,
    }
}

/// A lexer over one text, with its configuration.
pub struct Lexer {
    chars: Vec<char>,
    pos: usize,
    delimiter: u8,
    quotes: Quotes,
}

impl Lexer {
    /// The position lies within the text.
    pub closed spec fn wf(&self) -> bool {
        self.pos <= self.chars.len()
    }

    /// The text that is not yet consumed.
    pub closed spec fn rest(&self) -> Seq<char> {
        self.chars@.skip(self.pos as int)
    }

    /// The delimiter byte.
    pub closed spec fn delimiter(&self) -> u8 {
        self.delimiter
    }

    /// The quote mode.
    pub closed spec fn quotes(&self) -> Quotes {
        self.quotes
    }

    /// The tokens that are left.
    pub open spec fn tokens(&self) -> Seq<TokenView> {
        tokenize(self.rest(), self.delimiter(), self.quotes())
    }

    /// `r` is the token at the start of what is left, or `None` at the end of text.
    pub open spec fn next_result(&self, r: Result<Option<Token>>) -> bool {
        &&& yields(
            r,
            match next_token(self.rest(), self.delimiter(), self.quotes()) {
                None => None,
                Some((t, n)) => Some(t),
            },
        )
        &&& yields(r, if self.tokens().len() == 0 { None } else { Some(self.tokens()[0]) })
    }

    /// `after` is this lexer moved past its next token.
    pub open spec fn advanced(&self, after: Self) -> bool {
        &&& after.wf()
        &&& after.delimiter() == self.delimiter()
        &&& after.quotes() == self.quotes()
        &&& match next_token(self.rest(), self.delimiter(), self.quotes()) {
            None => after.rest() == self.rest(),
            Some((t, n)) => after.rest() == self.rest().skip(n as int),
        }
        &&& self.tokens().len() == 0 ==> after.tokens() == self.tokens()
        &&& self.tokens().len() > 0 ==> after.tokens() == self.tokens().drop_first()
    }

    /// A lexer at the start of `text`.
    pub fn new(text: &str, delimiter: u8, quotes: Quotes) -> (r: Self)
        ensures
            r.wf(),
            r.rest() == text@,
            r.delimiter() == delimiter,
            r.quotes() == quotes,
    {
        let mut chars: Vec<char> = Vec::new();
        for c in it: text.chars()
            invariant
                chars@ == it.seq().take(it.index() as int),
        {
            chars.push(c);
        }
        assert(chars@.skip(0) =~= chars@);
        Self { chars, pos: 0, delimiter, quotes }
    }

    /// Returns the next token and advances past it, or `None` at the end of text.
    pub fn next(&mut self) -> (r: Result<Option<Token>>)
        requires
            old(self).wf(),
        ensures
            old(self).next_result(r),
            old(self).advanced(*final(self)),
    {
        let (token, pos) = self.scan_token();
        self.pos = pos;
        Ok(token)
    }

    /// Returns what `next` would return, without advancing.
    pub fn peek(&mut self) -> (r: Result<Option<Token>>)
        requires
            old(self).wf(),
        ensures
            *final(self) == *old(self),
            old(self).next_result(r),
    {
        let (token, _) = self.scan_token();
        Ok(token)
    }

    /// The token at the current position and the position after it.
    fn scan_token(&self) -> (r: (Option<Token>, usize))
        requires
            self.wf(),
        ensures
            self.next_result(Ok(r.0)),
            self.advanced(Self { pos: r.1, ..*self }),
    {
        let ghost s = self.rest();
        proof {
            lemma_tokenize_unfold(s, self.delimiter, self.quotes);
            lemma_value_len_bound(s, self.delimiter);
        }
        if self.pos == self.chars.len() {
            return (None, self.pos);
        }
        if let Some(_) = self.scan_delim() {
            assert(self.chars@.skip(self.pos + 1) =~= s.skip(1));
            return (Some(Token::Delimiter), self.pos + 1);
        }
        if let Some(_) = self.scan_newline() {
            assert(self.chars@.skip(self.pos + 1) =~= s.skip(1));
            return (Some(Token::Newline), self.pos + 1);
        }
        if matches!(self.quotes, Quotes::Significant) {
            if let Some(len) = self.scan_quoted_value() {
                let start = self.pos + 1;
                proof {
                    lemma_quoted_len_bound(s.drop_first());
                }
                let value = unescape_range(&self.chars, start, start + len);
                assert(self.chars@.subrange(start as int, start + len) =~= s.subrange(
                    1,
                    len + 1,
                ));
                if start + len < self.chars.len() {
                    assert(self.chars@.skip(start + len + 1) =~= s.skip(len + 2));
                    return (Some(Token::Value(value)), start + len + 1);
                } else {
                    assert(self.chars@.skip(self.chars.len() as int) =~= s.skip(s.len() as int));
                    return (Some(Token::Value(value)), self.chars.len());
                }
            }
        }
        let len = self.scan_value();
        let value = copy_range(&self.chars, self.pos, self.pos + len);
        assert(value@ =~= s.take(len as int));
        assert(self.chars@.skip(self.pos + len) =~= s.skip(len as int));
        (Some(Token::Value(value)), self.pos + len)
    }

    /// `Some` where the delimiter stands at the current position.
    fn scan_delim(&self) -> (r: Option<()>)
        requires
            self.wf(),
            self.pos < self.chars.len(),
        ensures
            r is Some <==> is_delim(self.chars@[self.pos as int], self.delimiter),
    {
        let current = self.chars[self.pos];
        if self.delimiter < 128 && current as u32 == self.delimiter as u32 {
            Some(())
        } else {
            None
        }
    }

    /// `Some` where a newline stands at the current position.
    fn scan_newline(&self) -> (r: Option<()>)
        requires
            self.wf(),
            self.pos < self.chars.len(),
        ensures
            r is Some <==> self.chars@[self.pos as int] == '\n',
    {
        let current = self.chars[self.pos];
        if current == '\n' {
            Some(())
        } else {
            None
        }
    }

    /// The length of the body of the quoted value at the current position, or
    /// `None` where no quote stands there.
    fn scan_quoted_value(&self) -> (r: Option<usize>)
        requires
            self.wf(),
            self.pos < self.chars.len(),
        ensures
            r is Some <==> self.chars@[self.pos as int] == '"',
            r matches Some(n) ==> n == quoted_len(self.rest().drop_first()),
    {
        let current = self.chars[self.pos];
        if current != '"' {
            return None;
        }
        let ghost body = self.rest().drop_first();
        assert(body =~= self.chars@.skip(self.pos + 1));
        let mut ix: usize = self.pos + 1;
        let mut len: usize = 0;
        while ix < self.chars.len()
            invariant
                self.wf(),
                self.pos < ix <= self.chars.len(),
                self.chars@[self.pos as int] == '"',
                body == self.rest().drop_first(),
                ix == self.pos + 1 + len,
                quoted_len(body) == len + quoted_len(self.chars@.skip(ix as int)),
            decreases self.chars.len() - ix,
        {
            let ghost tail = self.chars@.skip(ix as int);
            if self.chars[ix] == '"' {
                if ix + 1 < self.chars.len() && self.chars[ix + 1] == '"' {
                    assert(tail.skip(2) =~= self.chars@.skip(ix + 2));
                    ix += 2;
                    len += 2;
                    continue;
                } else {
                    return Some(len);
                }
            }
            assert(tail.drop_first() =~= self.chars@.skip(ix + 1));
            ix += 1;
            len += 1;
        }
        Some(len)
    }

    /// The length of the unquoted value at the current position.
    fn scan_value(&self) -> (r: usize)
        requires
            self.wf(),
            self.pos < self.chars.len(),
        ensures
            r == value_len(self.rest(), self.delimiter),
            self.pos + r <= self.chars.len(),
    {
        let mut ix: usize = self.pos;
        let mut len: usize = 0;
        while ix < self.chars.len() && !(self.delimiter < 128 && self.chars[ix] as u32
            == self.delimiter as u32) && self.chars[ix] != '\n'
            invariant
                self.wf(),
                self.pos <= ix <= self.chars.len(),
                ix == self.pos + len,
                value_len(self.rest(), self.delimiter) == len + value_len(
                    self.chars@.skip(ix as int),
                    self.delimiter,
                ),
            decreases self.chars.len() - ix,
        {
            assert(self.chars@.skip(ix as int).drop_first() =~= self.chars@.skip(ix + 1));
            ix += 1;
            len += 1;
        }
        len
    }
}

/// One step of `tokenize`.
pub proof fn lemma_tokenize_unfold(s: Seq<char>, d: u8, q: Quotes)
    ensures
        tokenize(s, d, q) == match next_token(s, d, q) {
            None => seq![],
            Some((t, n)) => seq![t] + tokenize(s.skip(n as int), d, q),
        },
        tokenize(s, d, q).len() == 0 <==> s.len() == 0,
        next_token(s, d, q) matches Some((t, n)) ==> tokenize(s, d, q)[0] == t && tokenize(
            s,
            d,
            q,
        ).drop_first() == tokenize(s.skip(n as int), d, q),
{
    lemma_next_token_advances(s, d, q);
    match next_token(s, d, q) {
        None => {},
        Some((t, n)) => {
            assert((seq![t] + tokenize(s.skip(n as int), d, q)).drop_first() =~= tokenize(
                s.skip(n as int),
                d,
                q,
            ));
        },
    }
}

/// The characters `chars[from..to]` as a string.
fn copy_range(chars: &Vec<char>, from: usize, to: usize) -> (r: String)
    requires
        from <= to <= chars.len(),
    ensures
        r@ == chars@.subrange(from as int, to as int),
{
    let mut out = String::new();
    let mut i: usize = from;
    while i < to
        invariant
            from <= i <= to <= chars.len(),
            out@ == chars@.subrange(from as int, i as int),
        decreases to - i,
    {
        out.push(chars[i]);
        assert(chars@.subrange(from as int, i + 1) =~= chars@.subrange(from as int, i as int).push(
            chars@[i as int],
        ));
        i += 1;
    }
    out
}

/// The characters `chars[from..to]` as a string, each doubled quote collapsed.
fn unescape_range(chars: &Vec<char>, from: usize, to: usize) -> (r: String)
    requires
        from <= to <= chars.len(),
    ensures
        r@ == unescape(chars@.subrange(from as int, to as int)),
{
    let mut out = String::new();
    let mut i: usize = from;
    while i < to
        invariant
            from <= i <= to <= chars.len(),
            unescape(chars@.subrange(from as int, to as int)) == out@ + unescape(
                chars@.subrange(i as int, to as int),
            ),
        decreases to - i,
    {
        let ghost tail = chars@.subrange(i as int, to as int);
        if chars[i] == '"' && i + 1 < to && chars[i + 1] == '"' {
            assert(tail.skip(2) =~= chars@.subrange(i + 2, to as int));
            out.push('"');
            i += 2;
        } else {
            assert(tail.drop_first() =~= chars@.subrange(i + 1, to as int));
            out.push(chars[i]);
            i += 1;
        }
        assert(out@ + unescape(chars@.subrange(i as int, to as int)) =~= unescape(
            chars@.subrange(from as int, to as int),
        ));
    }
    assert(chars@.subrange(to as int, to as int) =~= Seq::<char>::empty());
    assert(out@ =~= out@ + unescape(chars@.subrange(to as int, to as int)));
    out
}

} // verus!
