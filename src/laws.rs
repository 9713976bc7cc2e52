use vstd::prelude::*;

use crate::dsv::Dsv;
use crate::error::Result;
use crate::lexer::{
    ends_value, is_delim, lemma_tokenize_unfold, next_token, quoted_len, tokenize, unescape,
    value_len, TokenView,
};
use crate::parser::{
    lemma_parse_record_advances, lookahead, parse_record, parse_rows, parse_text, result_is,
    Options, Quotes,
};

verus! {

/// Every record of `t` has as many fields as the first.
pub open spec fn uniform(t: Seq<Seq<Seq<char>>>) -> bool {
    forall|i: int| 0 <= i < t.len() ==> #[trigger] t[i].len() == t[0].len()
}

/// The character that the delimiter byte `d` stands for.
pub open spec fn delim_char(d: u8) -> char {
    d as char
}

/// The field holds the delimiter, a newline or a quote, and is written quoted.
pub open spec fn needs_quotes(f: Seq<char>, d: u8) -> bool {
    exists|i: int| 0 <= i < f.len() && (is_delim(#[trigger] f[i], d) || f[i] == '\n' || f[i] == '"')
}

/// `f` with each quote doubled.
pub open spec fn escape_quotes(f: Seq<char>) -> Seq<char>
    decreases f.len(),
{
    if f.len() == 0 {
        seq![]
    } else if f[0] == '"' {
        seq!['"', '"'] + escape_quotes(f.drop_first())
    } else {
        seq![f[0]] + escape_quotes(f.drop_first())
    }
}

/// A field as written with minimal quoting.
pub open spec fn render_field(f: Seq<char>, d: u8) -> Seq<char> {
    if needs_quotes(f, d) {
        seq!['"'] + escape_quotes(f) + seq!['"']
    } else {
        f
    }
}

/// A record as written: its fields separated by the delimiter.
pub open spec fn render_record(r: Seq<Seq<char>>, d: u8) -> Seq<char>
    decreases r.len(),
{
    if r.len() == 0 {
        seq![]
    } else if r.len() == 1 {
        render_field(r[0], d)
    } else {
        render_field(r[0], d) + seq![delim_char(d)] + render_record(r.drop_first(), d)
    }
}

/// A table as written: its records separated by newlines.
pub open spec fn render_table(t: Seq<Seq<Seq<char>>>, d: u8) -> Seq<char>
    decreases t.len(),
{
    if t.len() == 0 {
        seq![]
    } else if t.len() == 1 {
        render_record(t[0], d)
    } else {
        render_record(t[0], d) + seq!['\n'] + render_table(t.drop_first(), d)
    }
}

/// A record that reads back as written: it has a field, and where its first
/// field is empty, a second field that is not. (A record of one empty field is
/// a blank line, which holds no field; an empty field that opens the record
/// and the empty field after it read back as one.)
pub open spec fn lossless_record(r: Seq<Seq<char>>) -> bool {
    &&& r.len() >= 1
    &&& r[0].len() == 0 ==> r.len() >= 2 && r[1].len() > 0
}

spec fn field_tokens(f: Seq<char>) -> Seq<TokenView> {
    if f.len() == 0 {
        seq![]
    } else {
        seq![TokenView::Value(f)]
    }
}

spec fn record_tokens(r: Seq<Seq<char>>) -> Seq<TokenView>
    decreases r.len(),
{
    if r.len() == 0 {
        seq![]
    } else if r.len() == 1 {
        field_tokens(r[0])
    } else {
        field_tokens(r[0]) + seq![TokenView::Delimiter] + record_tokens(r.drop_first())
    }
}

spec fn table_tokens(t: Seq<Seq<Seq<char>>>) -> Seq<TokenView>
    decreases t.len(),
{
    if t.len() == 0 {
        seq![]
    } else if t.len() == 1 {
        record_tokens(t[0])
    } else {
        record_tokens(t[0]) + seq![TokenView::Newline] + table_tokens(t.drop_first())
    }
}

/// What is left after a record: nothing, or what follows its newline.
spec fn after_record(tail: Seq<TokenView>) -> Seq<TokenView> {
    if tail.len() == 0 {
        tail
    } else {
        tail.drop_first()
    }
}

spec fn delimiter_ok(d: u8) -> bool {
    d < 128 && d != 10 && d != 34
}

proof fn lemma_delim_char(d: u8)
    requires
        delimiter_ok(d),
    ensures
        is_delim(delim_char(d), d),
        delim_char(d) != '"',
        delim_char(d) != '\n',
        !is_delim('"', d),
        !is_delim('\n', d),
{
}

proof fn lemma_plain_value_len(f: Seq<char>, rest: Seq<char>, d: u8)
    requires
        !needs_quotes(f, d),
        rest.len() == 0 || ends_value(rest[0], d),
    ensures
        value_len(f + rest, d) == f.len(),
    decreases f.len(),
{
    if f.len() == 0 {
        assert(f + rest =~= rest);
    } else {
        assert(!is_delim(f[0], d) && f[0] != '\n' && f[0] != '"');
        assert((f + rest).drop_first() =~= f.drop_first() + rest);
        assert forall|i: int| 0 <= i < f.drop_first().len() implies !(is_delim(
            #[trigger] f.drop_first()[i],
            d,
        ) || f.drop_first()[i] == '\n' || f.drop_first()[i] == '"') by {
            assert(f.drop_first()[i] == f[i + 1]);
        }
        lemma_plain_value_len(f.drop_first(), rest, d);
    }
}

proof fn lemma_quoted_len_escaped(f: Seq<char>, rest: Seq<char>)
    requires
        rest.len() == 0 || rest[0] != '"',
    ensures
        quoted_len(escape_quotes(f) + seq!['"'] + rest) == escape_quotes(f).len(),
    decreases f.len(),
{
    let body = escape_quotes(f) + seq!['"'] + rest;
    if f.len() == 0 {
        assert(body =~= seq!['"'] + rest);
    } else if f[0] == '"' {
        assert(body.skip(2) =~= escape_quotes(f.drop_first()) + seq!['"'] + rest);
        lemma_quoted_len_escaped(f.drop_first(), rest);
    } else {
        assert(body.drop_first() =~= escape_quotes(f.drop_first()) + seq!['"'] + rest);
        lemma_quoted_len_escaped(f.drop_first(), rest);
    }
}

proof fn lemma_unescape_escaped(f: Seq<char>)
    ensures
        unescape(escape_quotes(f)) == f,
    decreases f.len(),
{
    if f.len() > 0 {
        let e = escape_quotes(f);
        lemma_unescape_escaped(f.drop_first());
        if f[0] == '"' {
            assert(e.skip(2) =~= escape_quotes(f.drop_first()));
        } else {
            assert(e.drop_first() =~= escape_quotes(f.drop_first()));
        }
        assert(unescape(e) =~= f);
    }
}

proof fn lemma_field_tokens(f: Seq<char>, rest: Seq<char>, d: u8)
    requires
        delimiter_ok(d),
        rest.len() == 0 || rest[0] == delim_char(d) || rest[0] == '\n',
    ensures
        tokenize(render_field(f, d) + rest, d, Quotes::Significant) == field_tokens(f) + tokenize(
            rest,
            d,
            Quotes::Significant,
        ),
{
    let q = Quotes::Significant;
    let s = render_field(f, d) + rest;
    lemma_delim_char(d);
    lemma_tokenize_unfold(s, d, q);
    if !needs_quotes(f, d) {
        if f.len() == 0 {
            assert(s =~= rest);
            assert(field_tokens(f) + tokenize(rest, d, q) =~= tokenize(rest, d, q));
        } else {
            assert(s[0] == f[0]);
            assert(!(is_delim(f[0], d) || f[0] == '\n' || f[0] == '"'));
            lemma_plain_value_len(f, rest, d);
            assert(s.take(f.len() as int) =~= f);
            assert(s.skip(f.len() as int) =~= rest);
        }
    } else {
        let e = escape_quotes(f);
        assert(s.drop_first() =~= e + seq!['"'] + rest);
        lemma_quoted_len_escaped(f, rest);
        lemma_unescape_escaped(f);
        assert(s.subrange(1, e.len() + 1 as int) =~= e);
        assert(s.skip(e.len() + 2 as int) =~= rest);
        assert(f.len() > 0);
    }
}

proof fn lemma_record_tokens(r: Seq<Seq<char>>, rest: Seq<char>, d: u8)
    requires
        delimiter_ok(d),
        r.len() >= 1,
        rest.len() == 0 || rest[0] == '\n',
    ensures
        tokenize(render_record(r, d) + rest, d, Quotes::Significant) == record_tokens(r)
            + tokenize(rest, d, Quotes::Significant),
    decreases r.len(),
{
    let q = Quotes::Significant;
    if r.len() == 1 {
        lemma_field_tokens(r[0], rest, d);
    } else {
        let tail = render_record(r.drop_first(), d) + rest;
        let after = seq![delim_char(d)] + tail;
        assert(render_record(r, d) + rest =~= render_field(r[0], d) + after);
        lemma_field_tokens(r[0], after, d);
        lemma_delim_char(d);
        lemma_tokenize_unfold(after, d, q);
        assert(after.skip(1) =~= tail);
        lemma_record_tokens(r.drop_first(), rest, d);
        assert(record_tokens(r) + tokenize(rest, d, q) =~= field_tokens(r[0]) + (seq![
            TokenView::Delimiter,
        ] + (record_tokens(r.drop_first()) + tokenize(rest, d, q))));
    }
}

proof fn lemma_table_tokens(t: Seq<Seq<Seq<char>>>, d: u8)
    requires
        delimiter_ok(d),
        forall|i: int| 0 <= i < t.len() ==> #[trigger] t[i].len() >= 1,
    ensures
        tokenize(render_table(t, d), d, Quotes::Significant) == table_tokens(t),
    decreases t.len(),
{
    let q = Quotes::Significant;
    lemma_tokenize_unfold(seq![], d, q);
    if t.len() == 1 {
        lemma_record_tokens(t[0], seq![], d);
        assert(render_table(t, d) =~= render_record(t[0], d) + seq![]);
        assert(record_tokens(t[0]) + seq![] =~= record_tokens(t[0]));
    } else if t.len() > 1 {
        let tail = render_table(t.drop_first(), d);
        let after = seq!['\n'] + tail;
        lemma_record_tokens(t[0], after, d);
        lemma_delim_char(d);
        lemma_tokenize_unfold(after, d, q);
        assert(after.skip(1) =~= tail);
        assert forall|i: int| 0 <= i < t.drop_first().len() implies #[trigger] t.drop_first()[i].len()
            >= 1 by {
            assert(t.drop_first()[i] == t[i + 1]);
        }
        lemma_table_tokens(t.drop_first(), d);
        assert(render_table(t, d) =~= render_record(t[0], d) + after);
        assert(table_tokens(t) =~= record_tokens(t[0]) + (seq![TokenView::Newline] + table_tokens(
            t.drop_first(),
        )));
    }
}

/// After a delimiter, the remaining fields `u` of a record are read as written.
proof fn lemma_parse_later_fields(u: Seq<Seq<char>>, acc: Seq<Seq<char>>, tail: Seq<TokenView>)
    requires
        u.len() >= 1,
        acc.len() >= 1,
        tail.len() == 0 || tail[0] == TokenView::Newline,
    ensures
        parse_record(seq![TokenView::Delimiter] + record_tokens(u) + tail, acc) == Some(
            (acc + u, after_record(tail)),
        ),
    decreases u.len(),
{
    let x = seq![TokenView::Delimiter] + record_tokens(u) + tail;
    let more = if u.len() > 1 {
        seq![TokenView::Delimiter] + record_tokens(u.drop_first())
    } else {
        seq![]
    };
    let rest2 = more + tail;
    assert(record_tokens(u) =~= field_tokens(u[0]) + more);
    let acc2 = acc.push(u[0]);
    if u[0].len() > 0 {
        assert(x.drop_first() =~= seq![TokenView::Value(u[0])] + rest2);
        assert(lookahead(x) == Some(TokenView::Value(u[0])));
        assert(parse_record(x, acc) == parse_record(x.drop_first(), acc));
        let y = x.drop_first();
        assert(y.drop_first() =~= rest2);
        assert(!(lookahead(y) matches Some(TokenView::Value(_))));
        assert(parse_record(y, acc) == parse_record(rest2, acc2));
    } else {
        assert(x.drop_first() =~= rest2);
        assert(u[0] =~= seq![]);
        assert(parse_record(x, acc) == parse_record(rest2, acc2));
    }
    if u.len() > 1 {
        assert(rest2 =~= seq![TokenView::Delimiter] + record_tokens(u.drop_first()) + tail);
        lemma_parse_later_fields(u.drop_first(), acc2, tail);
        assert(acc2 + u.drop_first() =~= acc + u);
    } else {
        assert(rest2 =~= tail);
        assert(acc2 =~= acc + u);
    }
}

/// A record is read as written, and what follows its newline is left.
proof fn lemma_parse_record_rendered(r: Seq<Seq<char>>, tail: Seq<TokenView>)
    requires
        lossless_record(r),
        tail.len() == 0 || tail[0] == TokenView::Newline,
    ensures
        record_tokens(r).len() > 0,
        parse_record(record_tokens(r) + tail, seq![]) == Some((r, after_record(tail))),
{
    let x = record_tokens(r) + tail;
    if r[0].len() > 0 {
        let rest2 = if r.len() > 1 {
            seq![TokenView::Delimiter] + record_tokens(r.drop_first()) + tail
        } else {
            tail
        };
        assert(x =~= seq![TokenView::Value(r[0])] + rest2);
        assert(x.drop_first() =~= rest2);
        assert(!(lookahead(x) matches Some(TokenView::Value(_))));
        assert(parse_record(x, seq![]) == parse_record(rest2, seq![r[0]]));
        if r.len() > 1 {
            lemma_parse_later_fields(r.drop_first(), seq![r[0]], tail);
            assert(seq![r[0]] + r.drop_first() =~= r);
        } else {
            assert(seq![r[0]] =~= r);
        }
    } else {
        let u = r.drop_first();
        let y = record_tokens(u) + tail;
        assert(record_tokens(r) =~= seq![TokenView::Delimiter] + record_tokens(u));
        assert(x =~= seq![TokenView::Delimiter] + y);
        assert(x.drop_first() =~= y);
        assert(record_tokens(u)[0] == TokenView::Value(u[0]));
        assert(lookahead(x) == Some(TokenView::Value(u[0])));
        assert(parse_record(x, seq![]) == parse_record(y, seq![seq![]]));
        assert(parse_record(x, seq![seq![]]) == parse_record(y, seq![seq![]]));
        lemma_parse_later_fields(u, seq![seq![]], tail);
        assert(r[0] =~= seq![]);
        assert(seq![seq![]] + u =~= r);
    }
}

proof fn lemma_parse_rows_rendered(u: Seq<Seq<Seq<char>>>, rows: Seq<Seq<Seq<char>>>, k: nat)
    requires
        forall|i: int| 0 <= i < u.len() ==> #[trigger] u[i].len() == k,
        forall|i: int| 0 <= i < u.len() ==> lossless_record(#[trigger] u[i]),
        rows.len() > 0 ==> rows[0].len() == k,
    ensures
        parse_rows(table_tokens(u), rows) == Some(rows + u),
    decreases u.len(),
{
    if u.len() == 0 {
        assert(rows + u =~= rows);
    } else {
        let v = u.drop_first();
        let tail = if u.len() > 1 {
            seq![TokenView::Newline] + table_tokens(v)
        } else {
            seq![]
        };
        assert(table_tokens(u) =~= record_tokens(u[0]) + tail);
        lemma_parse_record_rendered(u[0], tail);
        assert(after_record(tail) =~= table_tokens(v));
        assert forall|i: int| 0 <= i < v.len() implies #[trigger] v[i].len() == k && lossless_record(
            v[i],
        ) by {
            assert(v[i] == u[i + 1]);
        }
        lemma_parse_rows_rendered(v, rows.push(u[0]), k);
        assert(rows.push(u[0]) + v =~= rows + u);
    }
}

/// A table whose records all have `k` fields, written with delimiter `d` and
/// minimal quoting, parses back to the same fields with significant quotes.
/// The delimiter is an ASCII character other than a newline or a quote, and
/// each record reads back as written (`lossless_record`).
pub proof fn lemma_round_trip(t: Seq<Seq<Seq<char>>>, k: nat, d: u8)
    requires
        d < 128,
        d != 10,
        d != 34,
        forall|i: int| 0 <= i < t.len() ==> #[trigger] t[i].len() == k,
        forall|i: int| 0 <= i < t.len() ==> lossless_record(#[trigger] t[i]),
    ensures
        parse_text(render_table(t, d), d, Quotes::Significant) == Some(t),
{
    lemma_table_tokens(t, d);
    lemma_parse_rows_rendered(t, seq![], k);
    assert(seq![] + t =~= t);
}

proof fn lemma_parse_rows_uniform(ts: Seq<TokenView>, rows: Seq<Seq<Seq<char>>>)
    requires
        uniform(rows),
    ensures
        parse_rows(ts, rows) matches Some(t) ==> uniform(t),
    decreases ts.len(),
{
    if ts.len() > 0 {
        lemma_parse_record_advances(ts, seq![]);
        if let Some((r, rest)) = parse_record(ts, seq![]) {
            if !(rows.len() > 0 && r.len() != rows[0].len()) {
                let next = rows.push(r);
                assert(uniform(next)) by {
                    assert forall|i: int| 0 <= i < next.len() implies #[trigger] next[i].len()
                        == next[0].len() by {
                        if i < rows.len() {
                            assert(next[i] == rows[i]);
                        }
                    }
                }
                lemma_parse_rows_uniform(rest, next);
            }
        }
    }
}

/// Every record of a parsed table has as many fields as the first.
pub proof fn lemma_records_uniform(s: Seq<char>, d: u8, q: Quotes)
    ensures
        parse_text(s, d, q) matches Some(t) ==> uniform(t),
{
    lemma_parse_rows_uniform(tokenize(s, d, q), seq![]);
}

/// Two parses of the same text with the same options agree: both fail, or
/// both give tables with the same fields.
pub proof fn lemma_parse_deterministic(
    s: Seq<char>,
    options: Options,
    r1: Result<Dsv>,
    r2: Result<Dsv>,
)
    requires
        result_is(r1, parse_text(s, options.delimiter, options.quotes)),
        result_is(r2, parse_text(s, options.delimiter, options.quotes)),
    ensures
        match (r1, r2) {
            (Ok(a), Ok(b)) => a@ == b@,
            (Err(e1), Err(e2)) => e1 == e2,
            _ => false,
        },
{
}

} // verus!
